//! Preparation of training items for a model evaluation: the split into an
//! initialization set and a training set, and the outside outlier filter
//! that reduces both.

use vstd::prelude::*;

use crate::model::{item_views, long_term_count, FSRSItem, FSRSReview};

verus! {

/// The review sequences with exactly one long-term review, in order.
pub open spec fn init_split(vs: Seq<Seq<FSRSReview>>) -> Seq<Seq<FSRSReview>>
    decreases vs.len(),
{
    if vs.len() == 0 {
        Seq::empty()
    } else if long_term_count(vs.last()) == 1 {
        init_split(vs.drop_last()).push(vs.last())
    } else {
        init_split(vs.drop_last())
    }
}

/// The review sequences with any other long-term review count, in order.
pub open spec fn train_split(vs: Seq<Seq<FSRSReview>>) -> Seq<Seq<FSRSReview>>
    decreases vs.len(),
{
    if vs.len() == 0 {
        Seq::empty()
    } else if long_term_count(vs.last()) != 1 {
        train_split(vs.drop_last()).push(vs.last())
    } else {
        train_split(vs.drop_last())
    }
}

/// What `fsrs::filter_outlier` returns for a given initialization set and
/// training set: the two lists with anomalous review patterns removed. The
/// filter walks its groups in sorted order, so the result depends on the
/// two lists alone; what exactly survives takes pages to state and is left
/// to the outside crate.
pub uninterp spec fn filter_outlier_of(
    init: Seq<Seq<FSRSReview>>,
    train: Seq<Seq<FSRSReview>>,
) -> (Seq<Seq<FSRSReview>>, Seq<Seq<FSRSReview>>);

/// Relies on `fsrs::filter_outlier`: its result is a deterministic function
/// of the two item lists, named `filter_outlier_of` here. Its documentation
/// has every initialization item hold at least two reviews, and its indexing
/// demands first-review ratings of at most 4 and, for training items, at
/// least one long-term review; the preconditions keep those inputs out.
#[verifier::external_body]
fn filter_outlier_call(init: Vec<FSRSItem>, train: Vec<FSRSItem>) -> (r: (
    Vec<FSRSItem>,
    Vec<FSRSItem>,
))
    requires
        forall|i: int|
            0 <= i < init@.len() ==> (#[trigger] init@[i]@).len() >= 2 && init@[i]@[0].rating
                <= 4,
        forall|i: int|
            0 <= i < train@.len() ==> (#[trigger] train@[i]@).len() >= 1 && train@[i]@[0].rating
                <= 4 && long_term_count(train@[i]@) >= 1,
    ensures
        (item_views(r.0@), item_views(r.1@)) == filter_outlier_of(
            item_views(init@),
            item_views(train@),
        ),
{
    let f = |it: &FSRSItem| fsrs::FSRSItem {
        reviews: it.reviews.iter().map(
            |v| fsrs::FSRSReview { rating: v.rating, delta_t: v.delta_t },
        ).collect(),
    };
    let g = |it: fsrs::FSRSItem| FSRSItem {
        reviews: it.reviews.iter().map(
            |v| FSRSReview { rating: v.rating, delta_t: v.delta_t },
        ).collect(),
    };
    let (a, b) = fsrs::filter_outlier(init.iter().map(f).collect(), train.iter().map(f).collect());
    (a.into_iter().map(g).collect(), b.into_iter().map(g).collect())
}

/// Splits items into the initialization set (exactly one long-term review)
/// and the training set (any other count), preserving order.
pub fn partition_for_initialization(items: Vec<FSRSItem>) -> (r: (Vec<FSRSItem>, Vec<FSRSItem>))
    ensures
        item_views(r.0@) == init_split(item_views(items@)),
        item_views(r.1@) == train_split(item_views(items@)),
{
    let ghost all = item_views(items@);
    let mut rest = items;
    let mut init: Vec<FSRSItem> = Vec::new();
    let mut train: Vec<FSRSItem> = Vec::new();
    while rest.len() > 0
        invariant
            rest@.len() <= all.len(),
            item_views(rest@) == all.subrange(all.len() - rest@.len(), all.len() as int),
            item_views(init@) == init_split(all.subrange(0, all.len() - rest@.len())),
            item_views(train@) == train_split(all.subrange(0, all.len() - rest@.len())),
        decreases rest@.len(),
    {
        let ghost k = all.len() - rest@.len();
        let ghost rest0 = rest@;
        let x = rest.remove(0);
        proof {
            assert(item_views(rest0)[0] == x@);
            assert(x@ == all[k]);
            assert(item_views(rest@) =~= item_views(rest0).remove(0));
            assert(item_views(rest@) =~= all.subrange(k + 1, all.len() as int));
            let next = all.subrange(0, k + 1);
            assert(next.drop_last() =~= all.subrange(0, k));
            assert(next.last() == all[k]);
        }
        let ghost init0 = init@;
        let ghost train0 = train@;
        let cnt = x.long_term_review_cnt();
        if cnt == 1 {
            init.push(x);
            proof {
                assert(item_views(init@) =~= item_views(init0).push(all[k]));
            }
        } else {
            train.push(x);
            proof {
                assert(item_views(train@) =~= item_views(train0).push(all[k]));
            }
        }
    }
    proof {
        assert(all.subrange(0, all.len() as int) =~= all);
    }
    (init, train)
}

/// Every review sequence of the initialization split occurs in the input
/// and has exactly one long-term review.
proof fn lemma_init_split_membership(vs: Seq<Seq<FSRSReview>>)
    ensures
        forall|i: int|
            0 <= i < init_split(vs).len() ==> vs.contains(#[trigger] init_split(vs)[i])
                && long_term_count(init_split(vs)[i]) == 1,
    decreases vs.len(),
{
    broadcast use vstd::seq_lib::group_seq_properties;

    if vs.len() > 0 {
        lemma_init_split_membership(vs.drop_last());
        assert forall|i: int| 0 <= i < init_split(vs).len() implies vs.contains(
            #[trigger] init_split(vs)[i],
        ) && long_term_count(init_split(vs)[i]) == 1 by {
            let r = init_split(vs);
            if long_term_count(vs.last()) == 1 && i == r.len() - 1 {
                assert(vs[vs.len() - 1] == vs.last());
            } else {
                assert(r[i] == init_split(vs.drop_last())[i]);
                assert(vs.drop_last().contains(r[i]));
                let j = choose|j: int| 0 <= j < vs.drop_last().len() && vs.drop_last()[j] == r[i];
                assert(vs[j] == r[i]);
            }
        }
    }
}

/// Every review sequence of the training split occurs in the input and has
/// a long-term review count other than one.
proof fn lemma_train_split_membership(vs: Seq<Seq<FSRSReview>>)
    ensures
        forall|i: int|
            0 <= i < train_split(vs).len() ==> vs.contains(#[trigger] train_split(vs)[i])
                && long_term_count(train_split(vs)[i]) != 1,
    decreases vs.len(),
{
    broadcast use vstd::seq_lib::group_seq_properties;

    if vs.len() > 0 {
        lemma_train_split_membership(vs.drop_last());
        assert forall|i: int| 0 <= i < train_split(vs).len() implies vs.contains(
            #[trigger] train_split(vs)[i],
        ) && long_term_count(train_split(vs)[i]) != 1 by {
            let r = train_split(vs);
            if long_term_count(vs.last()) != 1 && i == r.len() - 1 {
                assert(vs[vs.len() - 1] == vs.last());
            } else {
                assert(r[i] == train_split(vs.drop_last())[i]);
                assert(vs.drop_last().contains(r[i]));
                let j = choose|j: int| 0 <= j < vs.drop_last().len() && vs.drop_last()[j] == r[i];
                assert(vs[j] == r[i]);
            }
        }
    }
}

/// Prepares the input of a model evaluation: partitions items into the
/// initialization set (exactly one long-term review) and the training set,
/// lets the outside outlier filter reduce both, and concatenates the
/// filtered parts, initialization set first.
///
/// The preconditions keep out the inputs on which the outside filter would
/// panic: every item needs at least two reviews, a first-review rating of
/// at most 4, and at least one long-term review.
pub fn prepare_evaluation_items(items: Vec<FSRSItem>) -> (r: Vec<FSRSItem>)
    requires
        forall|i: int|
            0 <= i < items@.len() ==> (#[trigger] items@[i]@).len() >= 2 && items@[i]@[0].rating
                <= 4 && long_term_count(items@[i]@) >= 1,
    ensures
        item_views(r@) == filter_outlier_of(
            init_split(item_views(items@)),
            train_split(item_views(items@)),
        ).0 + filter_outlier_of(
            init_split(item_views(items@)),
            train_split(item_views(items@)),
        ).1,
{
    let ghost all = item_views(items@);
    proof {
        assert forall|i: int, x: Seq<FSRSReview>|
            0 <= i < all.len() && all[i] == x implies x.len() >= 2 && (x.len() >= 1 ==> x[0].rating
            <= 4) && long_term_count(x) >= 1 by {
            assert(items@[i]@ == all[i]);
        }
    }
    let (init, train) = partition_for_initialization(items);
    proof {
        lemma_init_split_membership(all);
        lemma_train_split_membership(all);
        assert forall|i: int| 0 <= i < init@.len() implies (#[trigger] init@[i]@).len() >= 2
            && init@[i]@[0].rating <= 4 by {
            assert(init@[i]@ == init_split(all)[i]);
            assert(all.contains(init_split(all)[i]));
            let j = choose|j: int| 0 <= j < all.len() && all[j] == init_split(all)[i];
        }
        assert forall|i: int| 0 <= i < train@.len() implies (#[trigger] train@[i]@).len() >= 1
            && train@[i]@[0].rating <= 4 && long_term_count(train@[i]@) >= 1 by {
            assert(train@[i]@ == train_split(all)[i]);
            assert(all.contains(train_split(all)[i]));
            let j = choose|j: int| 0 <= j < all.len() && all[j] == train_split(all)[i];
        }
    }
    let (mut kept_init, mut kept_train) = filter_outlier_call(init, train);
    let ghost a0 = item_views(kept_init@);
    let ghost b0 = item_views(kept_train@);
    kept_init.append(&mut kept_train);
    proof {
        assert(item_views(kept_init@) =~= a0 + b0);
    }
    kept_init
}

/// Resolves the evaluation call's optional knobs: short-term parameters
/// default to enabled, and a relearning-step count is passed through.
pub fn resolve_evaluate_options(enable_short_term: Option<bool>, num_relearning_steps: Option<
    u32,
>) -> (r: (bool, Option<usize>))
    ensures
        r.0 == (match enable_short_term {
            Some(b) => b,
            None => true,
        }),
        r.1 == (match num_relearning_steps {
            Some(v) => Some(v as usize),
            None => None::<usize>,
        }),
{
    let est = match enable_short_term {
        Some(b) => b,
        None => true,
    };
    let steps = match num_relearning_steps {
        Some(v) => Some(v as usize),
        None => None,
    };
    (est, steps)
}

} // verus!
