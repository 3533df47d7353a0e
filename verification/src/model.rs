//! The training-item data model: a review of a card and the nested review
//! sequences that serve as training samples for the memory-model optimizer.

use vstd::prelude::*;

verus! {

/// A single review of a card: the user's rating (1 to 4) and the number of
/// whole calendar days that passed since the previous review of the card.
///
/// `delta_t` of the first review of an item is always 0.
#[derive(Clone, Copy, Debug, PartialEq, Eq, Structural)]
pub struct FSRSReview {
    pub rating: u32,
    pub delta_t: u32,
}

impl FSRSReview {
    pub fn new(rating: u32, delta_t: u32) -> (r: Self)
        ensures
            r == (FSRSReview { rating, delta_t }),
    {
        FSRSReview { rating, delta_t }
    }

    /// The user's rating, 1 to 4.
    pub fn rating(&self) -> (r: u32)
        ensures
            r == self.rating,
    {
        self.rating
    }

    /// The number of days that passed since the previous review.
    pub fn delta_t(&self) -> (r: u32)
        ensures
            r == self.delta_t,
    {
        self.delta_t
    }
}

/// Stores a list of reviews for a card, in chronological order. Each item
/// corresponds to a single review, but contains the previous reviews of the
/// card as well, after the first one.
#[derive(Clone, Debug)]
pub struct FSRSItem {
    pub reviews: Vec<FSRSReview>,
}

impl View for FSRSItem {
    type V = Seq<FSRSReview>;

    open spec fn view(&self) -> Seq<FSRSReview> {
        self.reviews@
    }
}

/// The number of long-term reviews in a review sequence: those whose
/// `delta_t` is positive.
pub open spec fn long_term_count(reviews: Seq<FSRSReview>) -> nat
    decreases reviews.len(),
{
    if reviews.len() == 0 {
        0
    } else {
        long_term_count(reviews.drop_last()) + if reviews.last().delta_t > 0 {
            1nat
        } else {
            0nat
        }
    }
}

impl FSRSItem {
    pub fn new(reviews: Vec<FSRSReview>) -> (r: Self)
        ensures
            r@ == reviews@,
    {
        FSRSItem { reviews }
    }

    /// The reviews of this item, oldest first.
    pub fn reviews(&self) -> (r: Vec<FSRSReview>)
        ensures
            r@ == self@,
    {
        let mut out: Vec<FSRSReview> = Vec::new();
        let mut i: usize = 0;
        while i < self.reviews.len()
            invariant
                i <= self.reviews.len(),
                out@ == self.reviews@.subrange(0, i as int),
            decreases self.reviews.len() - i,
        {
            out.push(self.reviews[i]);
            i = i + 1;
        }
        proof {
            assert(out@ =~= self@);
        }
        out
    }

    /// The most recent review of the item, if any.
    pub fn current(&self) -> (r: Option<FSRSReview>)
        ensures
            self@.len() == 0 ==> r is None,
            self@.len() > 0 ==> r == Some(self@.last()),
    {
        if self.reviews.len() == 0 {
            None
        } else {
            Some(self.reviews[self.reviews.len() - 1])
        }
    }

    /// Counts the reviews whose `delta_t` is positive.
    pub fn long_term_review_cnt(&self) -> (r: usize)
        ensures
            r == long_term_count(self@),
    {
        let mut count: usize = 0;
        let mut i: usize = 0;
        while i < self.reviews.len()
            invariant
                i <= self.reviews.len(),
                count == long_term_count(self.reviews@.subrange(0, i as int)),
                count <= i,
            decreases self.reviews.len() - i,
        {
            proof {
                let prefix = self.reviews@.subrange(0, i as int);
                let next = self.reviews@.subrange(0, i + 1);
                assert(next.drop_last() =~= prefix);
                assert(next.last() == self.reviews@[i as int]);
            }
            if self.reviews[i].delta_t > 0 {
                count = count + 1;
            }
            i = i + 1;
        }
        proof {
            assert(self.reviews@.subrange(0, self.reviews@.len() as int) =~= self.reviews@);
        }
        count
    }

    /// Whether any review of the item has a positive `delta_t`.
    pub fn include_long_term_reviews(&self) -> (r: bool)
        ensures
            r == exists|i: int| 0 <= i < self@.len() && self@[i].delta_t > 0,
    {
        let mut i: usize = 0;
        while i < self.reviews.len()
            invariant
                i <= self.reviews.len(),
                forall|j: int| 0 <= j < i ==> self.reviews@[j].delta_t == 0,
            decreases self.reviews.len() - i,
        {
            if self.reviews[i].delta_t > 0 {
                proof {
                    assert(self@[i as int].delta_t > 0);
                }
                return true;
            }
            i = i + 1;
        }
        false
    }
}

/// The views of a sequence of items.
pub open spec fn item_views(v: Seq<FSRSItem>) -> Seq<Seq<FSRSReview>> {
    v.map_values(|x: FSRSItem| x@)
}

/// The `(rating, delta_t)` pairs that represent a review sequence.
pub open spec fn pairs_of(reviews: Seq<FSRSReview>) -> Seq<(u32, u32)> {
    reviews.map_values(|r: FSRSReview| (r.rating, r.delta_t))
}

/// A review sequence rebuilt from `(rating, delta_t)` pairs.
pub open spec fn reviews_of(pairs: Seq<(u32, u32)>) -> Seq<FSRSReview> {
    pairs.map_values(|p: (u32, u32)| FSRSReview { rating: p.0, delta_t: p.1 })
}

/// The representation of an item as `(rating, delta_t)` pairs is lossless:
/// taking an item's pairs and rebuilding reviews from them reproduces the
/// reviews exactly, and rebuilding then re-reading pairs reproduces the pairs.
pub proof fn lemma_review_pairs_round_trip(reviews: Seq<FSRSReview>, pairs: Seq<(u32, u32)>)
    ensures
        reviews_of(pairs_of(reviews)) == reviews,
        pairs_of(reviews_of(pairs)) == pairs,
{
    assert(reviews_of(pairs_of(reviews)) =~= reviews);
    assert(pairs_of(reviews_of(pairs)) =~= pairs);
}

} // verus!
