//! The revlog compiler: turns a flat, possibly unsorted log of review events
//! into per-card sequences of training items with computed inter-review gaps.

use vstd::prelude::*;

use crate::model::{item_views, FSRSItem, FSRSReview};

verus! {

/// One raw review event, as read from a revlog row:
/// `card_id,review_time,review_rating,review_state,review_duration`.
///
/// `review_time` is in milliseconds since the Unix epoch. `review_state` is
/// 0 = new, 1 = learning, 2 = review, 3 = relearning. `last_interval` is a
/// scratch field filled by the compiler with the day gap since the previous
/// event of the same card; rows are expected to arrive with it set to 0.
#[derive(Debug)]
pub struct RevlogEntry {
    pub card_id: String,
    pub review_time: i64,
    pub review_rating: u32,
    pub review_state: u32,
    pub review_duration: u32,
    pub last_interval: i32,
}

/// A revlog entry paired with the timezone offset, in minutes, that the
/// offset resolver produced for its `review_time`.
#[derive(Debug)]
pub struct ResolvedEntry {
    pub entry: RevlogEntry,
    pub offset_minutes: i32,
}

/// Whether a review state marks the card as still being learned
/// (0 = new or 1 = learning).
pub open spec fn is_learning_state(state: u32) -> bool {
    state == 0 || state == 1
}

/// The index of the chronologically last event whose state is a learning
/// state, if any.
pub open spec fn last_learning_index(states: Seq<u32>) -> Option<int>
    decreases states.len(),
{
    if states.len() == 0 {
        None
    } else if is_learning_state(states.last()) {
        Some(states.len() - 1)
    } else {
        last_learning_index(states.drop_last())
    }
}

/// The first index of the contiguous run of learning states that ends at
/// index `m`.
pub open spec fn learning_run_start(states: Seq<u32>, m: int) -> int
    decreases m,
{
    if m <= 0 {
        0
    } else if is_learning_state(states[m - 1]) {
        learning_run_start(states, m - 1)
    } else {
        m
    }
}

/// Where the working sequence of a card starts: the first index of the last
/// contiguous block of learning states, or `None` when the history holds no
/// learning state at all.
pub open spec fn trim_start(states: Seq<u32>) -> Option<int> {
    match last_learning_index(states) {
        Option::None => Option::None,
        Option::Some(m) => Option::Some(learning_run_start(states, m)),
    }
}

/// The state of the backwards scan used to find the trim start: positions
/// `i..` have been examined and `start` holds the best candidate so far.
spec fn scan_trim(states: Seq<u32>, i: int, start: Option<int>) -> Option<int>
    decreases i,
{
    if i <= 0 {
        start
    } else if is_learning_state(states[i - 1]) {
        scan_trim(states, i - 1, Option::Some(i - 1))
    } else if start is Some {
        start
    } else {
        scan_trim(states, i - 1, Option::None)
    }
}

proof fn lemma_scan_found(states: Seq<u32>, m: int)
    requires
        0 <= m < states.len(),
        is_learning_state(states[m]),
    ensures
        scan_trim(states, m, Option::Some(m)) == Option::Some(learning_run_start(states, m)),
    decreases m,
{
    if m > 0 && is_learning_state(states[m - 1]) {
        lemma_scan_found(states, m - 1);
    }
}

proof fn lemma_scan_none(states: Seq<u32>, i: int)
    requires
        0 <= i <= states.len(),
    ensures
        scan_trim(states, i, Option::None) == (match last_learning_index(
            states.subrange(0, i),
        ) {
            Option::None => Option::None::<int>,
            Option::Some(m) => Option::Some(learning_run_start(states, m)),
        }),
    decreases i,
{
    if i > 0 {
        let prefix = states.subrange(0, i);
        if is_learning_state(states[i - 1]) {
            lemma_scan_found(states, i - 1);
            lemma_run_start_prefix(states, prefix, i - 1);
        } else {
            lemma_scan_none(states, i - 1);
            assert(prefix.drop_last() =~= states.subrange(0, i - 1));
            match last_learning_index(states.subrange(0, i - 1)) {
                Option::None => {}
                Option::Some(m) => {
                    lemma_last_learning_in_range(states.subrange(0, i - 1));
                    lemma_run_start_prefix(states, states.subrange(0, i - 1), m);
                }
            }
        }
    }
}

/// `learning_run_start` only reads indices below `m`, so it is the same over
/// a sequence and over any prefix that still contains index `m`.
proof fn lemma_run_start_prefix(states: Seq<u32>, prefix: Seq<u32>, m: int)
    requires
        0 <= m < prefix.len() <= states.len(),
        forall|j: int| 0 <= j < prefix.len() ==> prefix[j] == states[j],
    ensures
        learning_run_start(prefix, m) == learning_run_start(states, m),
    decreases m,
{
    if m > 0 && is_learning_state(states[m - 1]) {
        lemma_run_start_prefix(states, prefix, m - 1);
    }
}

proof fn lemma_last_learning_in_range(states: Seq<u32>)
    ensures
        last_learning_index(states) matches Option::Some(m) ==> {
            &&& 0 <= m < states.len()
            &&& is_learning_state(states[m])
        },
    decreases states.len(),
{
    if states.len() > 0 && !is_learning_state(states.last()) {
        lemma_last_learning_in_range(states.drop_last());
    }
}

/// Whether `[s ..= m]` is the last contiguous block of learning states of
/// a history: all of it learning, no learning state after `m`, and `s` not
/// preceded by a learning state.
pub open spec fn is_last_learning_block(states: Seq<u32>, s: int, m: int) -> bool {
    &&& 0 <= s <= m < states.len()
    &&& forall|j: int| s <= j <= m ==> is_learning_state(#[trigger] states[j])
    &&& forall|k: int| m < k < states.len() ==> !is_learning_state(#[trigger] states[k])
    &&& (s == 0 || !is_learning_state(states[s - 1]))
}

/// No learning state follows the last learning index; and when there is no
/// last learning index, there is no learning state at all.
proof fn lemma_last_learning_max(states: Seq<u32>)
    ensures
        last_learning_index(states) matches Option::Some(m) ==> forall|k: int|
            m < k < states.len() ==> !is_learning_state(#[trigger] states[k]),
        last_learning_index(states) is None ==> forall|k: int|
            0 <= k < states.len() ==> !is_learning_state(#[trigger] states[k]),
    decreases states.len(),
{
    if states.len() > 0 {
        assert(states[states.len() - 1] == states.last());
        if !is_learning_state(states.last()) {
            lemma_last_learning_max(states.drop_last());
            lemma_last_learning_in_range(states.drop_last());
            match last_learning_index(states.drop_last()) {
                Option::None => {
                    assert forall|k: int| 0 <= k < states.len() implies !is_learning_state(
                        states[k],
                    ) by {
                        if k < states.len() - 1 {
                            assert(states.drop_last()[k] == states[k]);
                            assert(!is_learning_state(states.drop_last()[k]));
                        }
                    }
                }
                Option::Some(m) => {
                    assert forall|k: int| m < k < states.len() implies !is_learning_state(
                        states[k],
                    ) by {
                        if k < states.len() - 1 {
                            assert(states.drop_last()[k] == states[k]);
                            assert(!is_learning_state(states.drop_last()[k]));
                        }
                    }
                }
            }
        }
    }
}

/// The run start of a learning index is a learning index itself, everything
/// between them is learning, and no learning state stands directly before
/// the run start.
proof fn lemma_run_all_learning(states: Seq<u32>, m: int)
    requires
        0 <= m < states.len(),
        is_learning_state(states[m]),
    ensures
        0 <= learning_run_start(states, m) <= m,
        forall|j: int|
            learning_run_start(states, m) <= j <= m ==> is_learning_state(#[trigger] states[j]),
        learning_run_start(states, m) == 0 || !is_learning_state(
            states[learning_run_start(states, m) - 1],
        ),
    decreases m,
{
    if m > 0 && is_learning_state(states[m - 1]) {
        lemma_run_all_learning(states, m - 1);
    }
}

/// What the trim start names: it is `None` exactly when the history holds
/// no learning state at all, and otherwise it is the first index of the
/// last contiguous block of learning states.
pub proof fn lemma_trim_start_characterization(states: Seq<u32>)
    ensures
        (trim_start(states) is None) <==> (forall|i: int|
            0 <= i < states.len() ==> !is_learning_state(#[trigger] states[i])),
        trim_start(states) is Some ==> exists|m: int|
            is_last_learning_block(states, trim_start(states)->Some_0, m),
{
    lemma_last_learning_max(states);
    lemma_last_learning_in_range(states);
    match last_learning_index(states) {
        Option::None => {}
        Option::Some(m) => {
            lemma_run_all_learning(states, m);
            let s = learning_run_start(states, m);
            assert(trim_start(states) == Option::Some(s));
            assert(trim_start(states)->Some_0 == s);
            assert(is_last_learning_block(states, s, m));
            assert(exists|mm: int| is_last_learning_block(states, s, mm));
        }
    }
}

/// The review states of a sequence of revlog entries.
pub open spec fn states_of(entries: Seq<RevlogEntry>) -> Seq<u32> {
    entries.map_values(|e: RevlogEntry| e.review_state)
}

/// The working sequence of a card's history: everything from the first entry
/// of the last contiguous block of learning states to the end, or nothing
/// when no learning state occurs.
pub open spec fn trim_revlog(entries: Seq<RevlogEntry>) -> Seq<RevlogEntry> {
    match trim_start(states_of(entries)) {
        Option::None => Seq::empty(),
        Option::Some(s) => entries.subrange(s, entries.len() as int),
    }
}

/// Scans review states from the end and reports where the working sequence
/// starts, or `None` when no learning state occurs.
fn find_trim_start(states: &Vec<u32>) -> (r: Option<usize>)
    ensures
        (match r {
            Option::None => Option::None::<int>,
            Option::Some(s) => Option::Some(s as int),
        }) == trim_start(states@),
        r matches Option::Some(s) ==> s < states@.len(),
{
    proof {
        lemma_scan_none(states@, states@.len() as int);
        assert(states@.subrange(0, states@.len() as int) =~= states@);
    }
    let mut start: Option<usize> = None;
    let mut i: usize = states.len();
    while i > 0
        invariant
            i <= states@.len(),
            trim_start(states@) == (match start {
                Option::None => scan_trim(states@, i as int, Option::None),
                Option::Some(s) => scan_trim(states@, i as int, Option::Some(s as int)),
            }),
            start matches Option::Some(s) ==> s < states@.len(),
        decreases i,
    {
        i = i - 1;
        let st = states[i];
        if st == 0 || st == 1 {
            start = Some(i);
        } else if let Some(s) = start {
            proof {
                assert(scan_trim(states@, i + 1, Option::Some(s as int)) == Option::Some(
                    s as int,
                ));
            }
            return Some(s);
        }
    }
    start
}

/// Keeps only the entries from the last contiguous block of learning states
/// (states 0 = new, 1 = learning) onwards; events before the most recent
/// learning episode carry no signal for predicting future behavior. Returns
/// an empty history when no learning state occurs at all.
pub fn remove_revlog_before_last_first_learn(entries: Vec<RevlogEntry>) -> (r: Vec<RevlogEntry>)
    ensures
        r@ == trim_revlog(entries@),
{
    let mut states: Vec<u32> = Vec::new();
    let mut i: usize = 0;
    while i < entries.len()
        invariant
            i <= entries@.len(),
            states@ == states_of(entries@.subrange(0, i as int)),
        decreases entries@.len() - i,
    {
        proof {
            assert(entries@.subrange(0, i + 1) =~= entries@.subrange(0, i as int).push(
                entries@[i as int],
            ));
            assert(states_of(entries@.subrange(0, i + 1)) =~= states_of(
                entries@.subrange(0, i as int),
            ).push(entries@[i as int].review_state));
        }
        states.push(entries[i].review_state);
        i = i + 1;
    }
    proof {
        assert(entries@.subrange(0, entries@.len() as int) =~= entries@);
    }
    match find_trim_start(&states) {
        None => Vec::new(),
        Some(s) => {
            let mut v = entries;
            let tail = v.split_off(s);
            tail
        }
    }
}

/// Earliest Unix second whose calendar date the compiler accepts
/// (midnight of the first day of year -9999).
pub const MIN_VALID_SECONDS: i64 = -377705116800;

/// Latest Unix second whose calendar date the compiler accepts
/// (last second of year 9999).
pub const MAX_VALID_SECONDS: i64 = 253402300799;

/// `MIN_VALID_SECONDS` is exactly `-SHIFT_DAYS` days.
pub const SHIFT_DAYS: i64 = 4371587;

/// The largest local day number of a valid instant:
/// `MAX_VALID_SECONDS` divided by 86400, rounded down.
pub const MAX_DAY_NUMBER: i64 = 2932896;

/// A review time in milliseconds, converted to whole seconds, rounding
/// toward zero.
pub open spec fn seconds_of_ms(ms: int) -> int {
    if ms >= 0 {
        ms / 1000
    } else {
        -((-ms) / 1000)
    }
}

/// The instant of a review, shifted by the resolved timezone offset and
/// backwards by the hour at which the next day starts.
pub open spec fn adjusted_seconds(ms: int, offset_minutes: int, next_day_starts_at: int) -> int {
    seconds_of_ms(ms) + offset_minutes * 60 - next_day_starts_at * 3600
}

/// Whether a review time can be mapped to a local calendar date: both the
/// instant itself and the shifted instant must lie in the supported range.
pub open spec fn valid_review_time(ms: int, offset_minutes: int, next_day_starts_at: int) -> bool {
    &&& MIN_VALID_SECONDS <= seconds_of_ms(ms) <= MAX_VALID_SECONDS
    &&& MIN_VALID_SECONDS <= adjusted_seconds(ms, offset_minutes, next_day_starts_at)
        <= MAX_VALID_SECONDS
}

/// The local calendar day number of a review: whole days since the Unix
/// epoch of the shifted instant (floor division, so days start exactly at
/// multiples of 86400 shifted seconds).
pub open spec fn local_day(ms: int, offset_minutes: int, next_day_starts_at: int) -> int {
    adjusted_seconds(ms, offset_minutes, next_day_starts_at) / 86400
}

/// Converts a review time in milliseconds to whole seconds, rounding toward
/// zero.
fn ms_to_seconds(ms: i64) -> (r: i64)
    ensures
        r as int == seconds_of_ms(ms as int),
{
    if ms >= 0 {
        ((ms as u64) / 1000) as i64
    } else {
        let mag: u64 = (-(ms as i128)) as u64;
        let q: u64 = mag / 1000;
        -(q as i64)
    }
}

/// Computes the local calendar day number of a review time, or `None` when
/// the instant (or its shifted counterpart) falls outside the supported
/// date range.
pub fn local_day_number(ms: i64, offset_minutes: i32, next_day_starts_at: i64) -> (r: Option<
    i64,
>)
    requires
        0 <= next_day_starts_at <= 24,
    ensures
        r is Some <==> valid_review_time(
            ms as int,
            offset_minutes as int,
            next_day_starts_at as int,
        ),
        r matches Some(d) ==> {
            &&& d == local_day(ms as int, offset_minutes as int, next_day_starts_at as int)
            &&& -SHIFT_DAYS <= d <= MAX_DAY_NUMBER
        },
{
    let secs = ms_to_seconds(ms);
    if secs < MIN_VALID_SECONDS || secs > MAX_VALID_SECONDS {
        return None;
    }
    let adjusted: i64 = secs + (offset_minutes as i64) * 60 - next_day_starts_at * 3600;
    if adjusted < MIN_VALID_SECONDS || adjusted > MAX_VALID_SECONDS {
        return None;
    }
    let shifted: u64 = (adjusted + SHIFT_DAYS * 86400) as u64;
    let day: i64 = (shifted / 86400) as i64 - SHIFT_DAYS;
    proof {
        vstd::arithmetic::div_mod::lemma_hoist_over_denominator(
            adjusted as int,
            SHIFT_DAYS as int,
            86400nat,
        );
        vstd::arithmetic::div_mod::lemma_div_is_ordered(
            MIN_VALID_SECONDS as int,
            adjusted as int,
            86400,
        );
        vstd::arithmetic::div_mod::lemma_div_is_ordered(
            adjusted as int,
            MAX_VALID_SECONDS as int,
            86400,
        );
    }
    Some(day)
}

/// The review states of a sequence of resolved entries.
pub open spec fn rstates_of(entries: Seq<ResolvedEntry>) -> Seq<u32> {
    entries.map_values(|e: ResolvedEntry| e.entry.review_state)
}

/// The working sequence of a card's resolved history, as `trim_revlog` but
/// carrying the resolved offsets along.
pub open spec fn trim_resolved(entries: Seq<ResolvedEntry>) -> Seq<ResolvedEntry> {
    match trim_start(rstates_of(entries)) {
        Option::None => Seq::empty(),
        Option::Some(s) => entries.subrange(s, entries.len() as int),
    }
}

/// Keeps only the resolved entries from the last contiguous block of
/// learning states onwards, as `remove_revlog_before_last_first_learn`.
fn trim_resolved_entries(entries: Vec<ResolvedEntry>) -> (r: Vec<ResolvedEntry>)
    ensures
        r@ == trim_resolved(entries@),
{
    let mut states: Vec<u32> = Vec::new();
    let mut i: usize = 0;
    while i < entries.len()
        invariant
            i <= entries@.len(),
            states@ == rstates_of(entries@.subrange(0, i as int)),
        decreases entries@.len() - i,
    {
        proof {
            assert(entries@.subrange(0, i + 1) =~= entries@.subrange(0, i as int).push(
                entries@[i as int],
            ));
            assert(rstates_of(entries@.subrange(0, i + 1)) =~= rstates_of(
                entries@.subrange(0, i as int),
            ).push(entries@[i as int].entry.review_state));
        }
        states.push(entries[i].entry.review_state);
        i = i + 1;
    }
    proof {
        assert(entries@.subrange(0, entries@.len() as int) =~= entries@);
    }
    match find_trim_start(&states) {
        None => Vec::new(),
        Some(s) => {
            let mut v = entries;
            let tail = v.split_off(s);
            tail
        }
    }
}

/// The review time of a resolved entry, as a mathematical integer.
pub open spec fn time_of(e: ResolvedEntry) -> int {
    e.entry.review_time as int
}

/// Whether a sequence of resolved entries is ordered by review time.
pub open spec fn sorted_by_time(s: Seq<ResolvedEntry>) -> bool {
    forall|i: int, j: int| 0 <= i < j < s.len() ==> time_of(s[i]) <= time_of(s[j])
}

/// Inserts an entry into a sequence directly after every entry whose review
/// time is not later; on a sorted sequence this is a stable insertion.
pub open spec fn insert_by_time(s: Seq<ResolvedEntry>, x: ResolvedEntry) -> Seq<ResolvedEntry>
    decreases s.len(),
{
    if s.len() == 0 {
        seq![x]
    } else if time_of(s.last()) <= time_of(x) {
        s.push(x)
    } else {
        insert_by_time(s.drop_last(), x).push(s.last())
    }
}

/// A stable sort of resolved entries by review time, defined as repeated
/// stable insertion.
pub open spec fn sort_by_time(s: Seq<ResolvedEntry>) -> Seq<ResolvedEntry>
    decreases s.len(),
{
    if s.len() == 0 {
        Seq::empty()
    } else {
        insert_by_time(sort_by_time(s.drop_last()), s.last())
    }
}

/// On a sorted sequence, stable insertion places the element at the first
/// position whose suffix holds only strictly later entries.
proof fn lemma_insert_by_time_at(s: Seq<ResolvedEntry>, x: ResolvedEntry, p: int)
    requires
        0 <= p <= s.len(),
        forall|j: int| p <= j < s.len() ==> time_of(s[j]) > time_of(x),
        p > 0 ==> time_of(s[p - 1]) <= time_of(x),
    ensures
        insert_by_time(s, x) == s.subrange(0, p).push(x) + s.subrange(p, s.len() as int),
    decreases s.len(),
{
    if p == s.len() {
        assert(insert_by_time(s, x) =~= s.subrange(0, p).push(x) + s.subrange(
            p,
            s.len() as int,
        ));
    } else {
        let s0 = s.drop_last();
        assert(time_of(s.last()) > time_of(x));
        lemma_insert_by_time_at(s0, x, p);
        assert(s0.subrange(0, p) =~= s.subrange(0, p));
        assert(insert_by_time(s, x) == insert_by_time(s0, x).push(s.last()));
        assert((s0.subrange(0, p).push(x) + s0.subrange(p, s0.len() as int)).push(s.last())
            =~= s.subrange(0, p).push(x) + s.subrange(p, s.len() as int));
    }
}

/// Inserts an entry into a time-sorted vector, keeping it sorted and
/// placing the new entry after its equals.
fn insert_entry_by_time(v: Vec<ResolvedEntry>, x: ResolvedEntry) -> (r: Vec<ResolvedEntry>)
    requires
        sorted_by_time(v@),
    ensures
        r@ == insert_by_time(v@, x),
        sorted_by_time(r@),
{
    let ghost orig = v@;
    let mut v = v;
    let mut p: usize = v.len();
    while p > 0 && v[p - 1].entry.review_time > x.entry.review_time
        invariant
            p <= v@.len(),
            v@ == orig,
            forall|j: int| p <= j < v@.len() ==> time_of(v@[j]) > time_of(x),
        decreases p,
    {
        p = p - 1;
    }
    proof {
        lemma_insert_by_time_at(orig, x, p as int);
    }
    v.insert(p, x);
    proof {
        assert(v@ =~= orig.subrange(0, p as int).push(x) + orig.subrange(
            p as int,
            orig.len() as int,
        ));
        assert forall|i: int, j: int| 0 <= i < j < v@.len() implies time_of(v@[i]) <= time_of(
            v@[j],
        ) by {
            assert(sorted_by_time(orig));
        }
    }
    v
}

/// Sorts a card's resolved entries by review time, stably.
fn sort_entries_by_time(entries: Vec<ResolvedEntry>) -> (r: Vec<ResolvedEntry>)
    ensures
        r@ == sort_by_time(entries@),
        sorted_by_time(r@),
{
    let ghost all = entries@;
    let mut rest = entries;
    let mut out: Vec<ResolvedEntry> = Vec::new();
    while rest.len() > 0
        invariant
            rest@.len() <= all.len(),
            rest@ == all.subrange(all.len() - rest@.len(), all.len() as int),
            out@ == sort_by_time(all.subrange(0, all.len() - rest@.len())),
            sorted_by_time(out@),
        decreases rest@.len(),
    {
        let ghost k = all.len() - rest@.len();
        let x = rest.remove(0);
        proof {
            assert(x == all[k]);
            assert(rest@ =~= all.subrange(k + 1, all.len() as int));
            let next = all.subrange(0, k + 1);
            assert(next.drop_last() =~= all.subrange(0, k));
            assert(next.last() == all[k]);
        }
        out = insert_entry_by_time(out, x);
    }
    proof {
        assert(all.subrange(0, all.len() as int) =~= all);
    }
    out
}

/// Stable insertion only adds the inserted entry.
proof fn lemma_insert_by_time_multiset(s: Seq<ResolvedEntry>, x: ResolvedEntry)
    ensures
        insert_by_time(s, x).to_multiset() == s.to_multiset().insert(x),
    decreases s.len(),
{
    broadcast use vstd::seq_lib::group_to_multiset_ensures;

    if s.len() == 0 {
        assert(insert_by_time(s, x) =~= Seq::<ResolvedEntry>::empty().push(x));
        assert(Seq::<ResolvedEntry>::empty().push(x).to_multiset() =~= s.to_multiset().insert(
            x,
        ));
    } else if time_of(s.last()) <= time_of(x) {
    } else {
        let dl = s.drop_last();
        lemma_insert_by_time_multiset(dl, x);
        assert(dl.push(s.last()) =~= s);
        assert(dl.to_multiset().insert(x).insert(s.last()) =~= dl.to_multiset().insert(
            s.last(),
        ).insert(x));
    }
}

proof fn lemma_insert_by_time_sorted(s: Seq<ResolvedEntry>, x: ResolvedEntry)
    requires
        sorted_by_time(s),
    ensures
        sorted_by_time(insert_by_time(s, x)),
    decreases s.len(),
{
    if s.len() == 0 {
    } else if time_of(s.last()) <= time_of(x) {
        let r = s.push(x);
        assert forall|i: int, j: int| 0 <= i < j < r.len() implies time_of(r[i]) <= time_of(
            r[j],
        ) by {
            if j == r.len() - 1 {
                assert(r[i] == s[i]);
                if i < s.len() - 1 {
                    assert(time_of(s[i]) <= time_of(s[s.len() - 1]));
                }
                assert(s[s.len() - 1] == s.last());
            }
        }
    } else {
        let s0 = s.drop_last();
        assert forall|i: int, j: int| 0 <= i < j < s0.len() implies time_of(s0[i]) <= time_of(
            s0[j],
        ) by {
            assert(time_of(s[i]) <= time_of(s[j]));
        }
        lemma_insert_by_time_sorted(s0, x);
        lemma_insert_membership(s0, x);
        let r0 = insert_by_time(s0, x);
        let r = r0.push(s.last());
        assert forall|i: int, j: int| 0 <= i < j < r.len() implies time_of(r[i]) <= time_of(
            r[j],
        ) by {
            if j == r.len() - 1 {
                assert(r[i] == r0[i]);
                if r0[i] == x {
                    assert(time_of(r0[i]) < time_of(s.last()));
                } else {
                    assert(s0.contains(r0[i]));
                    let m = choose|m: int| 0 <= m < s0.len() && s0[m] == r0[i];
                    assert(time_of(s[m]) <= time_of(s[s.len() - 1]));
                    assert(s[s.len() - 1] == s.last());
                }
            }
        }
    }
}

/// The per-card ordering pass is a sort: its result is ordered by review
/// time and holds exactly the input's entries.
pub proof fn lemma_sort_by_time_is_sort(s: Seq<ResolvedEntry>)
    ensures
        sorted_by_time(sort_by_time(s)),
        sort_by_time(s).to_multiset() == s.to_multiset(),
    decreases s.len(),
{
    broadcast use vstd::seq_lib::group_to_multiset_ensures;

    if s.len() > 0 {
        lemma_sort_by_time_is_sort(s.drop_last());
        lemma_insert_by_time_sorted(sort_by_time(s.drop_last()), s.last());
        lemma_insert_by_time_multiset(sort_by_time(s.drop_last()), s.last());
        assert(s.drop_last().push(s.last()) =~= s);
    }
}

/// The grouping key of a resolved entry: its card identifier.
pub open spec fn key_of(e: ResolvedEntry) -> Seq<char> {
    e.entry.card_id@
}

/// The distinct card identifiers of a sequence of entries, in order of
/// first appearance.
pub open spec fn group_keys(s: Seq<ResolvedEntry>) -> Seq<Seq<char>>
    decreases s.len(),
{
    if s.len() == 0 {
        Seq::empty()
    } else {
        let ks = group_keys(s.drop_last());
        if ks.contains(key_of(s.last())) {
            ks
        } else {
            ks.push(key_of(s.last()))
        }
    }
}

/// The entries of a sequence whose card identifier is `k`, in input order.
pub open spec fn entries_with_key(s: Seq<ResolvedEntry>, k: Seq<char>) -> Seq<ResolvedEntry>
    decreases s.len(),
{
    if s.len() == 0 {
        Seq::empty()
    } else if key_of(s.last()) == k {
        entries_with_key(s.drop_last(), k).push(s.last())
    } else {
        entries_with_key(s.drop_last(), k)
    }
}

/// A card's entries, grouped by card identifier in order of first
/// appearance; each group keeps its entries in input order.
pub open spec fn groups_of(s: Seq<ResolvedEntry>) -> Seq<Seq<ResolvedEntry>> {
    group_keys(s).map_values(|k: Seq<char>| entries_with_key(s, k))
}

/// Card identifiers of distinct groups are distinct.
proof fn lemma_group_keys_distinct(s: Seq<ResolvedEntry>)
    ensures
        forall|i: int, j: int|
            0 <= i < j < group_keys(s).len() ==> group_keys(s)[i] != group_keys(s)[j],
    decreases s.len(),
{
    broadcast use vstd::seq_lib::group_seq_properties;

    if s.len() > 0 {
        lemma_group_keys_distinct(s.drop_last());
        let ks = group_keys(s.drop_last());
        let k = key_of(s.last());
        if !ks.contains(k) {
            let ks2 = ks.push(k);
            assert forall|i: int, j: int| 0 <= i < j < ks2.len() implies ks2[i] != ks2[j] by {
                if j == ks.len() {
                    assert(ks2[i] == ks[i]);
                    assert(ks[i] != k);
                } else {
                    assert(ks2[i] == ks[i] && ks2[j] == ks[j]);
                }
            }
        }
    }
}

/// A key that names no group selects no entries.
proof fn lemma_key_not_present(s: Seq<ResolvedEntry>, k: Seq<char>)
    requires
        !group_keys(s).contains(k),
    ensures
        entries_with_key(s, k) == Seq::<ResolvedEntry>::empty(),
    decreases s.len(),
{
    broadcast use vstd::seq_lib::group_seq_properties;

    if s.len() > 0 {
        let ks = group_keys(s.drop_last());
        if ks.contains(key_of(s.last())) {
            assert(k != key_of(s.last()));
        } else {
            assert(group_keys(s) == ks.push(key_of(s.last())));
            assert(group_keys(s)[group_keys(s).len() - 1] == key_of(s.last()));
            assert(k != key_of(s.last()));
        }
        lemma_key_not_present(s.drop_last(), k);
    }
}

/// Appending one entry extends exactly the group that shares its key.
proof fn lemma_ewk_push(pr: Seq<ResolvedEntry>, e: ResolvedEntry, k: Seq<char>)
    ensures
        entries_with_key(pr.push(e), k) == (if k == key_of(e) {
            entries_with_key(pr, k).push(e)
        } else {
            entries_with_key(pr, k)
        }),
{
    let s = pr.push(e);
    assert(s.drop_last() =~= pr);
    assert(s.last() == e);
}

/// Appending one entry adds its key to the key list exactly when the key is
/// new.
proof fn lemma_group_keys_push(pr: Seq<ResolvedEntry>, e: ResolvedEntry)
    ensures
        group_keys(pr.push(e)) == (if group_keys(pr).contains(key_of(e)) {
            group_keys(pr)
        } else {
            group_keys(pr).push(key_of(e))
        }),
{
    let s = pr.push(e);
    assert(s.drop_last() =~= pr);
    assert(s.last() == e);
}

/// Finds the group whose card identifier equals `card_id`, if one exists.
fn find_group(groups: &Vec<Vec<ResolvedEntry>>, card_id: &String) -> (r: Option<usize>)
    requires
        forall|g: int| #![auto] 0 <= g < groups@.len() ==> groups@[g]@.len() > 0,
    ensures
        r matches Some(j) ==> j < groups@.len() && key_of(groups@[j as int]@[0]) == card_id@,
        r is None ==> forall|g: int| #![auto]
            0 <= g < groups@.len() ==> key_of(groups@[g]@[0]) != card_id@,
{
    let mut j: usize = 0;
    while j < groups.len()
        invariant
            j <= groups@.len(),
            forall|g: int| #![auto] 0 <= g < groups@.len() ==> groups@[g]@.len() > 0,
            forall|g: int| #![auto] 0 <= g < j ==> key_of(groups@[g]@[0]) != card_id@,
        decreases groups@.len() - j,
    {
        if groups[j][0].entry.card_id == *card_id {
            return Some(j);
        }
        j = j + 1;
    }
    None
}

/// The invariant of the grouping loop: after `t` entries of `all` have been
/// distributed, `gs` holds one group per distinct key of the processed
/// prefix, each group holding that key's entries in input order and led by
/// an entry carrying the key itself.
spec fn groups_partial(all: Seq<ResolvedEntry>, gs: Seq<Vec<ResolvedEntry>>, t: int) -> bool {
    let pr = all.subrange(0, t);
    &&& gs.len() == group_keys(pr).len()
    &&& forall|g: int| #![auto] 0 <= g < gs.len() ==> gs[g]@ == entries_with_key(pr, group_keys(pr)[g])
    &&& forall|g: int| #![auto]
        0 <= g < gs.len() ==> gs[g]@.len() > 0 && key_of(gs[g]@[0]) == group_keys(pr)[g]
}

/// Groups entries by card identifier, in order of first appearance, keeping
/// each group's entries in input order.
fn group_entries(entries: Vec<ResolvedEntry>) -> (groups: Vec<Vec<ResolvedEntry>>)
    ensures
        groups@.len() == groups_of(entries@).len(),
        forall|g: int| #![auto] 0 <= g < groups@.len() ==> groups@[g]@ == groups_of(entries@)[g],
{
    let ghost all = entries@;
    let mut rest = entries;
    let mut groups: Vec<Vec<ResolvedEntry>> = Vec::new();
    while rest.len() > 0
        invariant
            rest@.len() <= all.len(),
            rest@ == all.subrange(all.len() - rest@.len(), all.len() as int),
            groups_partial(all, groups@, all.len() - rest@.len()),
        decreases rest@.len(),
    {
        let ghost t = all.len() - rest@.len();
        let ghost pr = all.subrange(0, t);
        let e = rest.remove(0);
        proof {
            assert(e == all[t]);
            assert(rest@ =~= all.subrange(t + 1, all.len() as int));
            assert(all.subrange(0, t + 1) =~= pr.push(e));
            lemma_group_keys_distinct(pr);
        }
        match find_group(&groups, &e.entry.card_id) {
            Some(j) => {
                proof {
                    assert(group_keys(pr)[j as int] == key_of(e));
                    assert(group_keys(pr).contains(key_of(e)));
                    lemma_group_keys_push(pr, e);
                }
                let ghost old_groups = groups@;
                let mut g = groups.remove(j);
                g.push(e);
                groups.insert(j, g);
                proof {
                    assert(groups@ =~= old_groups.update(j as int, g));
                    assert forall|h: int| #![auto] 0 <= h < groups@.len() implies groups@[h]@
                        == entries_with_key(pr.push(e), group_keys(pr)[h]) by {
                        lemma_ewk_push(pr, e, group_keys(pr)[h]);
                        if h != j {
                            assert(group_keys(pr)[h] != key_of(e));
                        }
                    }
                    assert(groups_partial(all, groups@, t + 1));
                }
            }
            None => {
                proof {
                    assert(!group_keys(pr).contains(key_of(e)));
                    lemma_group_keys_push(pr, e);
                    lemma_key_not_present(pr, key_of(e));
                }
                let mut g: Vec<ResolvedEntry> = Vec::new();
                g.push(e);
                groups.push(g);
                proof {
                    assert forall|h: int| #![auto] 0 <= h < groups@.len() implies groups@[h]@
                        == entries_with_key(pr.push(e), group_keys(pr.push(e))[h]) by {
                        lemma_ewk_push(pr, e, group_keys(pr.push(e))[h]);
                        if h < groups@.len() - 1 {
                            assert(group_keys(pr.push(e))[h] == group_keys(pr)[h]);
                        } else {
                            assert(group_keys(pr.push(e))[h] == key_of(e));
                        }
                    }
                    assert(groups_partial(all, groups@, t + 1));
                }
            }
        }
    }
    proof {
        assert(all.subrange(0, all.len() as int) =~= all);
    }
    groups
}

/// The error of the revlog compiler: a review time (or its shifted
/// counterpart) lies outside the supported calendar range.
#[derive(Clone, Copy, Debug, PartialEq, Eq, Structural)]
pub enum ConvertError {
    InvalidTimestamp,
}

/// Whether every entry of a working sequence has a resolvable local date.
pub open spec fn all_times_valid(w: Seq<ResolvedEntry>, next_day_starts_at: int) -> bool {
    forall|i: int|
        0 <= i < w.len() ==> valid_review_time(
            w[i].entry.review_time as int,
            w[i].offset_minutes as int,
            next_day_starts_at,
        )
}

/// The local day number of the `i`-th entry of a working sequence.
pub open spec fn day_at(w: Seq<ResolvedEntry>, next_day_starts_at: int, i: int) -> int {
    local_day(w[i].entry.review_time as int, w[i].offset_minutes as int, next_day_starts_at)
}

/// The `delta_t` attributed to the `j`-th review of a working sequence: the
/// day gap to the previous entry, clamped below at zero; the first entry
/// keeps the (clamped) gap its row arrived with.
pub open spec fn delta_at(w: Seq<ResolvedEntry>, next_day_starts_at: int, j: int) -> u32 {
    if j == 0 {
        if w[0].entry.last_interval > 0 {
            w[0].entry.last_interval as u32
        } else {
            0
        }
    } else {
        let gap = day_at(w, next_day_starts_at, j) - day_at(w, next_day_starts_at, j - 1);
        if gap > 0 {
            gap as u32
        } else {
            0
        }
    }
}

/// The review sequence of the item emitted at index `idx`: the entries up
/// to and including `idx`, each as a `(rating, delta_t)` review.
pub open spec fn reviews_prefix(w: Seq<ResolvedEntry>, next_day_starts_at: int, idx: int) -> Seq<
    FSRSReview,
> {
    Seq::new(
        (idx + 1) as nat,
        |j: int|
            FSRSReview {
                rating: w[j].entry.review_rating,
                delta_t: delta_at(w, next_day_starts_at, j),
            },
    )
}

/// The items emitted from a working sequence at indices `idx` and above:
/// one per entry whose review carries a positive `delta_t`, each paired
/// with the review time of the emitting entry.
pub open spec fn emitted_from(w: Seq<ResolvedEntry>, next_day_starts_at: int, idx: int) -> Seq<
    (Seq<FSRSReview>, i64),
>
    decreases w.len() - idx,
{
    if idx < 0 || idx >= w.len() {
        Seq::empty()
    } else {
        let rest = emitted_from(w, next_day_starts_at, idx + 1);
        if delta_at(w, next_day_starts_at, idx) > 0 {
            seq![
                (reviews_prefix(w, next_day_starts_at, idx), w[idx].entry.review_time),
            ] + rest
        } else {
            rest
        }
    }
}

/// Whether a card's history, once ordered and trimmed, has resolvable
/// dates throughout.
pub open spec fn group_ok(raw: Seq<ResolvedEntry>, next_day_starts_at: int) -> bool {
    all_times_valid(trim_resolved(sort_by_time(raw)), next_day_starts_at)
}

/// Everything one card's history contributes to the compiler's output.
pub open spec fn group_output(raw: Seq<ResolvedEntry>, next_day_starts_at: int) -> Seq<
    (Seq<FSRSReview>, i64),
> {
    emitted_from(trim_resolved(sort_by_time(raw)), next_day_starts_at, 1)
}

/// The view of emitted `(item, review_time)` pairs.
pub open spec fn pair_views(v: Seq<(FSRSItem, i64)>) -> Seq<(Seq<FSRSReview>, i64)> {
    v.map_values(|p: (FSRSItem, i64)| (p.0@, p.1))
}

/// Whether the `k`-th entry of a working sequence has a resolvable local
/// date recorded at the `k`-th position of `days`.
spec fn day_entry_ok(w: Seq<ResolvedEntry>, days: Seq<i64>, n: int, k: int) -> bool {
    &&& valid_review_time(w[k].entry.review_time as int, w[k].offset_minutes as int, n)
    &&& days[k] == day_at(w, n, k)
    &&& -SHIFT_DAYS <= days[k] <= MAX_DAY_NUMBER
}

/// Whether the first `upto` entries of a working sequence have resolvable
/// local dates recorded in `days`.
spec fn days_match(w: Seq<ResolvedEntry>, days: Seq<i64>, n: int, upto: int) -> bool {
    forall|k: int| 0 <= k < upto ==> #[trigger] day_entry_ok(w, days, n, k)
}

/// Computes day gaps over an ordered, trimmed working sequence and emits
/// one `(item, review_time)` pair per eligible review.
#[verifier::loop_isolation(false)]
fn convert_trimmed(w: Vec<ResolvedEntry>, next_day_starts_at: i64) -> (r: Result<
    Vec<(FSRSItem, i64)>,
    ConvertError,
>)
    requires
        0 <= next_day_starts_at <= 24,
    ensures
        r is Ok <==> all_times_valid(w@, next_day_starts_at as int),
        r matches Ok(v) ==> pair_views(v@) == emitted_from(w@, next_day_starts_at as int, 1),
{
    let ghost n = next_day_starts_at as int;
    let mut days: Vec<i64> = Vec::new();
    let mut i: usize = 0;
    while i < w.len()
        invariant
            i <= w@.len(),
            days@.len() == i,
            days_match(w@, days@, n, i as int),
        decreases w@.len() - i,
    {
        let d_opt = local_day_number(
            w[i].entry.review_time,
            w[i].offset_minutes,
            next_day_starts_at,
        );
        if d_opt.is_none() {
            proof {
                assert(!valid_review_time(
                    w@[i as int].entry.review_time as int,
                    w@[i as int].offset_minutes as int,
                    n,
                ));
                assert(!all_times_valid(w@, n));
            }
            return Err(ConvertError::InvalidTimestamp);
        }
        let d = d_opt.unwrap();
        let ghost days0 = days@;
        days.push(d);
        proof {
            assert forall|k: int| 0 <= k < i + 1 implies day_entry_ok(w@, days@, n, k) by {
                if k == i {
                    assert(d == day_at(w@, n, i as int));
                    assert(days@[k] == d);
                } else {
                    assert(days@[k] == days0[k]);
                    assert(day_entry_ok(w@, days0, n, k));
                }
            }
        }
        i = i + 1;
    }
    proof {
        assert forall|t: int| 0 <= t < w@.len() implies valid_review_time(
            w@[t].entry.review_time as int,
            w@[t].offset_minutes as int,
            n,
        ) by {
            assert(day_entry_ok(w@, days@, n, t));
        }
        assert(all_times_valid(w@, n));
    }
    let mut deltas: Vec<u32> = Vec::new();
    if w.len() > 0 {
        let li = w[0].entry.last_interval;
        deltas.push(if li > 0 { li as u32 } else { 0 });
        let mut j: usize = 1;
        while j < w.len()
            invariant
                1 <= j <= w@.len(),
                deltas@.len() == j,
                forall|k: int| #![auto] 0 <= k < j ==> deltas@[k] == delta_at(w@, n, k),
            decreases w@.len() - j,
        {
            proof {
                assert(day_entry_ok(w@, days@, n, j as int));
                assert(day_entry_ok(w@, days@, n, j - 1));
            }
            let gap: i64 = days[j] - days[j - 1];
            let d: u32 = if gap > 0 { gap as u32 } else { 0 };
            deltas.push(d);
            j = j + 1;
        }
    }
    let mut out: Vec<(FSRSItem, i64)> = Vec::new();
    let mut idx: usize = 1;
    while idx < w.len()
        invariant
            1 <= idx,
            w@.len() > 1 ==> idx <= w@.len(),
            pair_views(out@) + emitted_from(w@, n, idx as int) == emitted_from(w@, n, 1),
        decreases w@.len() - idx,
    {
        let ghost out0 = out@;
        if deltas[idx] > 0 {
            let mut rv: Vec<FSRSReview> = Vec::new();
            let mut j: usize = 0;
            while j < idx + 1
                invariant
                    j <= idx + 1,
                    rv@.len() == j,
                    forall|t: int| #![auto]
                        0 <= t < j ==> rv@[t] == (FSRSReview {
                            rating: w@[t].entry.review_rating,
                            delta_t: delta_at(w@, n, t),
                        }),
                decreases idx + 1 - j,
            {
                rv.push(FSRSReview { rating: w[j].entry.review_rating, delta_t: deltas[j] });
                j = j + 1;
            }
            proof {
                assert(rv@ =~= reviews_prefix(w@, n, idx as int));
            }
            let time = w[idx].entry.review_time;
            out.push((FSRSItem { reviews: rv }, time));
            proof {
                assert(pair_views(out@) =~= pair_views(out0).push(
                    (reviews_prefix(w@, n, idx as int), time),
                ));
                assert(pair_views(out0) + emitted_from(w@, n, idx as int) =~= pair_views(out@)
                    + emitted_from(w@, n, idx + 1));
            }
        } else {
            proof {
                assert(emitted_from(w@, n, idx as int) == emitted_from(w@, n, idx + 1));
            }
        }
        idx = idx + 1;
    }
    proof {
        assert(emitted_from(w@, n, idx as int) == Seq::<(Seq<FSRSReview>, i64)>::empty());
        assert(pair_views(out@) =~= pair_views(out@) + emitted_from(w@, n, idx as int));
    }
    Ok(out)
}

/// Compiles one card's resolved history: orders it chronologically, trims
/// it to the last learning block, computes day gaps, and emits one
/// training item, paired with its emitting review time, per review whose
/// final gap is positive.
pub fn convert_to_fsrs_items_internal(
    entries: Vec<ResolvedEntry>,
    next_day_starts_at: i64,
) -> (r: Result<Vec<(FSRSItem, i64)>, ConvertError>)
    requires
        0 <= next_day_starts_at <= 24,
    ensures
        r is Ok <==> group_ok(entries@, next_day_starts_at as int),
        r matches Ok(v) ==> pair_views(v@) == group_output(entries@, next_day_starts_at as int),
{
    let sorted = sort_entries_by_time(entries);
    let trimmed = trim_resolved_entries(sorted);
    convert_trimmed(trimmed, next_day_starts_at)
}

/// Concatenation of per-group outputs, in group order.
pub open spec fn concat_outputs(xs: Seq<Seq<(Seq<FSRSReview>, i64)>>) -> Seq<(Seq<FSRSReview>, i64)>
    decreases xs.len(),
{
    if xs.len() == 0 {
        Seq::empty()
    } else {
        concat_outputs(xs.drop_last()) + xs.last()
    }
}

/// Whether every card's working sequence has resolvable dates.
pub open spec fn compile_ok(s: Seq<ResolvedEntry>, next_day_starts_at: int) -> bool {
    forall|g: int|
        0 <= g < groups_of(s).len() ==> #[trigger] group_ok(groups_of(s)[g], next_day_starts_at)
}

/// Every emitted `(item, review_time)` pair, concatenated per card in
/// order of first appearance, before the global ordering pass.
pub open spec fn compile_pairs_unsorted(s: Seq<ResolvedEntry>, next_day_starts_at: int) -> Seq<
    (Seq<FSRSReview>, i64),
> {
    concat_outputs(
        groups_of(s).map_values(|g: Seq<ResolvedEntry>| group_output(g, next_day_starts_at)),
    )
}

/// Whether emitted pairs are ordered by the review time of their emitting
/// event.
pub open spec fn sorted_pairs(s: Seq<(Seq<FSRSReview>, i64)>) -> bool {
    forall|i: int, j: int| 0 <= i < j < s.len() ==> s[i].1 <= s[j].1
}

/// Inserts an emitted pair directly after every pair whose review time is
/// not later; on a sorted sequence this is a stable insertion.
pub open spec fn insert_pair_by_time(
    s: Seq<(Seq<FSRSReview>, i64)>,
    x: (Seq<FSRSReview>, i64),
) -> Seq<(Seq<FSRSReview>, i64)>
    decreases s.len(),
{
    if s.len() == 0 {
        seq![x]
    } else if s.last().1 <= x.1 {
        s.push(x)
    } else {
        insert_pair_by_time(s.drop_last(), x).push(s.last())
    }
}

/// A stable sort of emitted pairs by review time.
pub open spec fn sort_pairs_by_time(s: Seq<(Seq<FSRSReview>, i64)>) -> Seq<(Seq<FSRSReview>, i64)>
    decreases s.len(),
{
    if s.len() == 0 {
        Seq::empty()
    } else {
        insert_pair_by_time(sort_pairs_by_time(s.drop_last()), s.last())
    }
}

/// The compiler's emitted pairs in their final, globally ordered form.
pub open spec fn compile_pairs(s: Seq<ResolvedEntry>, next_day_starts_at: int) -> Seq<
    (Seq<FSRSReview>, i64),
> {
    sort_pairs_by_time(compile_pairs_unsorted(s, next_day_starts_at))
}

/// The review sequences of a sequence of emitted pairs, without the times.
pub open spec fn firsts(s: Seq<(Seq<FSRSReview>, i64)>) -> Seq<Seq<FSRSReview>> {
    s.map_values(|p: (Seq<FSRSReview>, i64)| p.0)
}

/// The compiler's final output: the review sequences of all emitted items,
/// globally ordered by emitting review time.
pub open spec fn compile_items(s: Seq<ResolvedEntry>, next_day_starts_at: int) -> Seq<
    Seq<FSRSReview>,
> {
    firsts(compile_pairs(s, next_day_starts_at))
}

/// On a sorted sequence, stable insertion places the pair at the first
/// position whose suffix holds only strictly later pairs.
proof fn lemma_insert_pair_at(s: Seq<(Seq<FSRSReview>, i64)>, x: (Seq<FSRSReview>, i64), p: int)
    requires
        0 <= p <= s.len(),
        forall|j: int| p <= j < s.len() ==> s[j].1 > x.1,
        p > 0 ==> s[p - 1].1 <= x.1,
    ensures
        insert_pair_by_time(s, x) == s.subrange(0, p).push(x) + s.subrange(p, s.len() as int),
    decreases s.len(),
{
    if p == s.len() {
        assert(insert_pair_by_time(s, x) =~= s.subrange(0, p).push(x) + s.subrange(
            p,
            s.len() as int,
        ));
    } else {
        let s0 = s.drop_last();
        lemma_insert_pair_at(s0, x, p);
        assert(s0.subrange(0, p) =~= s.subrange(0, p));
        assert((s0.subrange(0, p).push(x) + s0.subrange(p, s0.len() as int)).push(s.last())
            =~= s.subrange(0, p).push(x) + s.subrange(p, s.len() as int));
    }
}

/// Inserts an emitted pair into a time-sorted vector, keeping it sorted
/// and placing the new pair after its equals.
fn insert_pair(v: Vec<(FSRSItem, i64)>, x: (FSRSItem, i64)) -> (r: Vec<(FSRSItem, i64)>)
    requires
        sorted_pairs(pair_views(v@)),
    ensures
        pair_views(r@) == insert_pair_by_time(pair_views(v@), (x.0@, x.1)),
        sorted_pairs(pair_views(r@)),
{
    let ghost orig = pair_views(v@);
    let mut v = v;
    let mut p: usize = v.len();
    while p > 0 && v[p - 1].1 > x.1
        invariant
            p <= v@.len(),
            pair_views(v@) == orig,
            v@.len() == orig.len(),
            forall|j: int| p <= j < orig.len() ==> orig[j].1 > x.1,
        decreases p,
    {
        proof {
            assert(orig[p - 1].1 == v@[p - 1].1);
        }
        p = p - 1;
    }
    proof {
        if p > 0 {
            assert(orig[p - 1].1 == v@[p - 1].1);
        }
        lemma_insert_pair_at(orig, (x.0@, x.1), p as int);
    }
    v.insert(p, x);
    proof {
        assert(pair_views(v@) =~= orig.subrange(0, p as int).push((x.0@, x.1)) + orig.subrange(
            p as int,
            orig.len() as int,
        ));
        assert forall|i: int, j: int| 0 <= i < j < pair_views(v@).len() implies pair_views(
            v@,
        )[i].1 <= pair_views(v@)[j].1 by {
            assert(sorted_pairs(orig));
        }
    }
    v
}

/// Sorts emitted pairs by review time, stably.
fn sort_pairs(pairs: Vec<(FSRSItem, i64)>) -> (r: Vec<(FSRSItem, i64)>)
    ensures
        pair_views(r@) == sort_pairs_by_time(pair_views(pairs@)),
        sorted_pairs(pair_views(r@)),
{
    let ghost all = pair_views(pairs@);
    let mut rest = pairs;
    let mut out: Vec<(FSRSItem, i64)> = Vec::new();
    while rest.len() > 0
        invariant
            rest@.len() <= all.len(),
            pair_views(rest@) == all.subrange(all.len() - rest@.len(), all.len() as int),
            pair_views(out@) == sort_pairs_by_time(all.subrange(0, all.len() - rest@.len())),
            sorted_pairs(pair_views(out@)),
        decreases rest@.len(),
    {
        let ghost k = all.len() - rest@.len();
        let ghost rest0 = rest@;
        let x = rest.remove(0);
        proof {
            assert(pair_views(rest0)[0] == (x.0@, x.1));
            assert((x.0@, x.1) == all[k]);
            assert(pair_views(rest@) =~= pair_views(rest0).remove(0));
            assert(pair_views(rest@) =~= all.subrange(k + 1, all.len() as int));
            let next = all.subrange(0, k + 1);
            assert(next.drop_last() =~= all.subrange(0, k));
            assert(next.last() == all[k]);
        }
        out = insert_pair(out, x);
    }
    proof {
        assert(all.subrange(0, all.len() as int) =~= all);
    }
    out
}

/// Compiles a resolved revlog into training items: groups events by card,
/// orders each card's events chronologically, trims stale history, computes
/// day gaps, emits one training item per eligible review, and orders the
/// result globally by the emitting review's time. Fails, with no partial
/// output, when any surviving event's date cannot be resolved.
pub fn convert_entries_to_fsrs_items(
    entries: Vec<ResolvedEntry>,
    next_day_starts_at: i64,
) -> (r: Result<Vec<FSRSItem>, ConvertError>)
    requires
        0 <= next_day_starts_at <= 24,
    ensures
        r is Ok <==> compile_ok(entries@, next_day_starts_at as int),
        r matches Ok(v) ==> item_views(v@) == compile_items(entries@, next_day_starts_at as int),
{
    let ghost n = next_day_starts_at as int;
    let ghost input = entries@;
    let ghost all_groups = groups_of(input);
    let ghost outputs = all_groups.map_values(|g: Seq<ResolvedEntry>| group_output(g, n));
    let mut groups = group_entries(entries);
    let mut merged: Vec<(FSRSItem, i64)> = Vec::new();
    let ghost total = all_groups.len();
    let mut done: usize = 0;
    let total_exec = groups.len();
    proof {
        assert(total == total_exec);
    }
    while groups.len() > 0
        invariant
            0 <= next_day_starts_at <= 24,
            input == entries@,
            all_groups == groups_of(input),
            outputs == all_groups.map_values(|g: Seq<ResolvedEntry>| group_output(g, n)),
            n == next_day_starts_at as int,
            total == all_groups.len(),
            total <= usize::MAX,
            done + groups@.len() == total,
            forall|h: int| #![auto]
                0 <= h < groups@.len() ==> groups@[h]@ == all_groups[done + h],
            forall|h: int| 0 <= h < done ==> #[trigger] group_ok(all_groups[h], n),
            pair_views(merged@) == concat_outputs(outputs.subrange(0, done as int)),
        decreases groups@.len(),
    {
        let ghost groups0 = groups@;
        let grp = groups.remove(0);
        proof {
            assert(grp@ == all_groups[done as int]);
            assert forall|h: int| #![auto] 0 <= h < groups@.len() implies groups@[h]@
                == all_groups[done + 1 + h] by {
                assert(groups@[h] == groups0[h + 1]);
            }
        }
        match convert_to_fsrs_items_internal(grp, next_day_starts_at) {
            Err(e) => {
                proof {
                    assert(!group_ok(groups_of(input)[done as int], n));
                    assert(!compile_ok(input, n));
                }
                return Err(e);
            }
            Ok(mut part) => {
                let ghost merged0 = pair_views(merged@);
                let ghost part0 = pair_views(part@);
                merged.append(&mut part);
                proof {
                    assert(pair_views(merged@) =~= merged0 + part0);
                    let pre = outputs.subrange(0, done as int);
                    let next = outputs.subrange(0, done + 1);
                    assert(next.drop_last() =~= pre);
                    assert(next.last() == outputs[done as int]);
                    assert(concat_outputs(next) == concat_outputs(pre) + outputs[done as int]);
                    assert(outputs[done as int] == group_output(all_groups[done as int], n));
                }
                done = done + 1;
            }
        }
    }
    proof {
        assert(outputs.subrange(0, total as int) =~= outputs);
        assert forall|g: int| 0 <= g < groups_of(input).len() implies #[trigger] group_ok(
            groups_of(input)[g],
            n,
        ) by {
            assert(group_ok(all_groups[g], n));
        }
        assert(compile_ok(input, n));
    }
    let sorted = sort_pairs(merged);
    let ghost final_pairs = pair_views(sorted@);
    let mut items: Vec<FSRSItem> = Vec::new();
    let mut rest = sorted;
    while rest.len() > 0
        invariant
            rest@.len() <= final_pairs.len(),
            pair_views(rest@) == final_pairs.subrange(
                final_pairs.len() - rest@.len(),
                final_pairs.len() as int,
            ),
            item_views(items@) == firsts(
                final_pairs.subrange(0, final_pairs.len() - rest@.len()),
            ),
        decreases rest@.len(),
    {
        let ghost k = final_pairs.len() - rest@.len();
        let ghost rest0 = rest@;
        let x = rest.remove(0);
        proof {
            assert(pair_views(rest0)[0] == (x.0@, x.1));
            assert((x.0@, x.1) == final_pairs[k]);
            assert(pair_views(rest@) =~= pair_views(rest0).remove(0));
            assert(pair_views(rest@) =~= final_pairs.subrange(k + 1, final_pairs.len() as int));
        }
        let ghost items0 = items@;
        items.push(x.0);
        proof {
            assert(item_views(items@) =~= item_views(items0).push(x.0@));
            assert(firsts(final_pairs.subrange(0, k + 1)) =~= firsts(
                final_pairs.subrange(0, k),
            ).push(final_pairs[k].0));
        }
    }
    proof {
        assert(final_pairs.subrange(0, final_pairs.len() as int) =~= final_pairs);
        assert(item_views(items@) == compile_items(input, n));
    }
    Ok(items)
}

/// The fixed fallback timezone offset, in minutes (UTC+8), used when no
/// offset resolver is supplied.
pub const DEFAULT_OFFSET_MINUTES: i32 = 480;

/// Pairs every revlog entry with one fixed timezone offset.
pub fn resolve_with_fixed_offset(entries: Vec<RevlogEntry>, offset_minutes: i32) -> (r: Vec<
    ResolvedEntry,
>)
    ensures
        r@.len() == entries@.len(),
        forall|i: int| #![auto]
            0 <= i < r@.len() ==> r@[i].entry == entries@[i] && r@[i].offset_minutes
                == offset_minutes,
{
    let ghost all = entries@;
    let mut rest = entries;
    let mut out: Vec<ResolvedEntry> = Vec::new();
    while rest.len() > 0
        invariant
            rest@.len() <= all.len(),
            rest@ == all.subrange(all.len() - rest@.len(), all.len() as int),
            out@.len() == all.len() - rest@.len(),
            forall|i: int| #![auto]
                0 <= i < out@.len() ==> out@[i].entry == all[i] && out@[i].offset_minutes
                    == offset_minutes,
        decreases rest@.len(),
    {
        let ghost k = all.len() - rest@.len();
        let e = rest.remove(0);
        proof {
            assert(e == all[k]);
            assert(rest@ =~= all.subrange(k + 1, all.len() as int));
        }
        let ghost out0 = out@;
        out.push(ResolvedEntry { entry: e, offset_minutes });
        proof {
            assert forall|i: int| #![auto] 0 <= i < out@.len() implies out@[i].entry == all[i]
                && out@[i].offset_minutes == offset_minutes by {
                if i < out0.len() {
                    assert(out@[i] == out0[i]);
                }
            }
        }
    }
    out
}

proof fn lemma_insert_membership(s: Seq<ResolvedEntry>, x: ResolvedEntry)
    ensures
        forall|i: int|
            0 <= i < insert_by_time(s, x).len() ==> (#[trigger] insert_by_time(s, x)[i] == x
                || s.contains(insert_by_time(s, x)[i])),
    decreases s.len(),
{
    broadcast use vstd::seq_lib::group_seq_properties;

    if s.len() > 0 && !(time_of(s.last()) <= time_of(x)) {
        lemma_insert_membership(s.drop_last(), x);
        let r = insert_by_time(s.drop_last(), x).push(s.last());
        assert forall|i: int| 0 <= i < r.len() implies (#[trigger] r[i] == x || s.contains(
            r[i],
        )) by {
            if i == r.len() - 1 {
                assert(s[s.len() - 1] == s.last());
            } else {
                assert(insert_by_time(s.drop_last(), x)[i] == r[i]);
                if r[i] != x {
                    assert(s.drop_last().contains(r[i]));
                    let j = choose|j: int|
                        0 <= j < s.drop_last().len() && s.drop_last()[j] == r[i];
                    assert(s[j] == r[i]);
                }
            }
        }
    }
}

proof fn lemma_sort_membership(s: Seq<ResolvedEntry>)
    ensures
        forall|i: int|
            0 <= i < sort_by_time(s).len() ==> s.contains(#[trigger] sort_by_time(s)[i]),
    decreases s.len(),
{
    broadcast use vstd::seq_lib::group_seq_properties;

    if s.len() > 0 {
        lemma_sort_membership(s.drop_last());
        lemma_insert_membership(sort_by_time(s.drop_last()), s.last());
        let r = sort_by_time(s);
        assert forall|i: int| 0 <= i < r.len() implies s.contains(#[trigger] r[i]) by {
            if r[i] == s.last() {
                assert(s[s.len() - 1] == s.last());
            } else {
                assert(sort_by_time(s.drop_last()).contains(r[i]));
                let j = choose|j: int|
                    0 <= j < sort_by_time(s.drop_last()).len() && sort_by_time(s.drop_last())[j]
                        == r[i];
                assert(s.drop_last().contains(r[i]));
                let m = choose|m: int|
                    0 <= m < s.drop_last().len() && s.drop_last()[m] == r[i];
                assert(s[m] == r[i]);
            }
        }
    }
}

proof fn lemma_no_learning_none(states: Seq<u32>)
    requires
        forall|i: int| 0 <= i < states.len() ==> !is_learning_state(#[trigger] states[i]),
    ensures
        last_learning_index(states) is None,
    decreases states.len(),
{
    if states.len() > 0 {
        assert(states[states.len() - 1] == states.last());
        lemma_no_learning_none(states.drop_last());
    }
}

/// A card whose event list contains no learning state (neither new nor
/// learning) contributes no training items at all: its whole history is
/// trimmed away.
pub proof fn lemma_no_learning_no_items(raw: Seq<ResolvedEntry>, next_day_starts_at: int)
    requires
        forall|i: int|
            0 <= i < raw.len() ==> !is_learning_state(#[trigger] raw[i].entry.review_state),
    ensures
        group_output(raw, next_day_starts_at) == Seq::<(Seq<FSRSReview>, i64)>::empty(),
{
    let sorted = sort_by_time(raw);
    lemma_sort_membership(raw);
    let states = rstates_of(sorted);
    assert forall|i: int| 0 <= i < states.len() implies !is_learning_state(
        #[trigger] states[i],
    ) by {
        assert(states[i] == sorted[i].entry.review_state);
        assert(raw.contains(sorted[i]));
        let j = choose|j: int| 0 <= j < raw.len() && raw[j] == sorted[i];
        assert(!is_learning_state(raw[j].entry.review_state));
    }
    lemma_no_learning_none(states);
    assert(trim_resolved(sorted) == Seq::<ResolvedEntry>::empty());
}

proof fn lemma_insert_pair_membership(s: Seq<(Seq<FSRSReview>, i64)>, x: (Seq<FSRSReview>, i64))
    ensures
        forall|i: int|
            0 <= i < insert_pair_by_time(s, x).len() ==> (#[trigger] insert_pair_by_time(s, x)[i]
                == x || s.contains(insert_pair_by_time(s, x)[i])),
    decreases s.len(),
{
    broadcast use vstd::seq_lib::group_seq_properties;

    if s.len() > 0 && !(s.last().1 <= x.1) {
        lemma_insert_pair_membership(s.drop_last(), x);
        let r = insert_pair_by_time(s.drop_last(), x).push(s.last());
        assert forall|i: int| 0 <= i < r.len() implies (#[trigger] r[i] == x || s.contains(
            r[i],
        )) by {
            if i == r.len() - 1 {
                assert(s[s.len() - 1] == s.last());
            } else {
                assert(insert_pair_by_time(s.drop_last(), x)[i] == r[i]);
                if r[i] != x {
                    assert(s.drop_last().contains(r[i]));
                    let j = choose|j: int|
                        0 <= j < s.drop_last().len() && s.drop_last()[j] == r[i];
                    assert(s[j] == r[i]);
                }
            }
        }
    }
}

proof fn lemma_insert_pair_sorted(s: Seq<(Seq<FSRSReview>, i64)>, x: (Seq<FSRSReview>, i64))
    requires
        sorted_pairs(s),
    ensures
        sorted_pairs(insert_pair_by_time(s, x)),
    decreases s.len(),
{
    if s.len() == 0 {
    } else if s.last().1 <= x.1 {
        let r = s.push(x);
        assert forall|i: int, j: int| 0 <= i < j < r.len() implies r[i].1 <= r[j].1 by {
            if j == r.len() - 1 {
                assert(r[i] == s[i]);
                if i < s.len() - 1 {
                    assert(s[i].1 <= s[s.len() - 1].1);
                }
                assert(s[s.len() - 1] == s.last());
            }
        }
    } else {
        let s0 = s.drop_last();
        assert forall|i: int, j: int| 0 <= i < j < s0.len() implies s0[i].1 <= s0[j].1 by {
            assert(s[i].1 <= s[j].1);
        }
        lemma_insert_pair_sorted(s0, x);
        lemma_insert_pair_membership(s0, x);
        let r0 = insert_pair_by_time(s0, x);
        let r = r0.push(s.last());
        assert forall|i: int, j: int| 0 <= i < j < r.len() implies r[i].1 <= r[j].1 by {
            if j == r.len() - 1 {
                assert(r[i] == r0[i]);
                if r0[i] == x {
                    assert(r0[i].1 < s.last().1);
                } else {
                    assert(s0.contains(r0[i]));
                    let m = choose|m: int| 0 <= m < s0.len() && s0[m] == r0[i];
                    assert(s[m].1 <= s[s.len() - 1].1);
                    assert(s[s.len() - 1] == s.last());
                }
            }
        }
    }
}

proof fn lemma_sort_pairs_sorted(s: Seq<(Seq<FSRSReview>, i64)>)
    ensures
        sorted_pairs(sort_pairs_by_time(s)),
    decreases s.len(),
{
    if s.len() > 0 {
        lemma_sort_pairs_sorted(s.drop_last());
        lemma_insert_pair_sorted(sort_pairs_by_time(s.drop_last()), s.last());
    }
}

proof fn lemma_insert_pair_multiset(s: Seq<(Seq<FSRSReview>, i64)>, x: (Seq<FSRSReview>, i64))
    ensures
        insert_pair_by_time(s, x).to_multiset() == s.to_multiset().insert(x),
    decreases s.len(),
{
    broadcast use vstd::seq_lib::group_to_multiset_ensures;

    if s.len() == 0 {
        assert(insert_pair_by_time(s, x) =~= Seq::<(Seq<FSRSReview>, i64)>::empty().push(x));
        assert(Seq::<(Seq<FSRSReview>, i64)>::empty().push(x).to_multiset()
            =~= s.to_multiset().insert(x));
    } else if s.last().1 <= x.1 {
    } else {
        let dl = s.drop_last();
        lemma_insert_pair_multiset(dl, x);
        assert(dl.push(s.last()) =~= s);
        assert(dl.to_multiset().insert(x).insert(s.last()) =~= dl.to_multiset().insert(
            s.last(),
        ).insert(x));
    }
}

proof fn lemma_sort_pairs_permutes(s: Seq<(Seq<FSRSReview>, i64)>)
    ensures
        sort_pairs_by_time(s).to_multiset() == s.to_multiset(),
    decreases s.len(),
{
    broadcast use vstd::seq_lib::group_to_multiset_ensures;

    if s.len() > 0 {
        lemma_sort_pairs_permutes(s.drop_last());
        lemma_insert_pair_multiset(sort_pairs_by_time(s.drop_last()), s.last());
        assert(s.drop_last().push(s.last()) =~= s);
    }
}

/// Across all cards, the compiled output is ordered by each emitted item's
/// source review time, regardless of how cards were grouped or ordered in
/// the input; the ordering pass neither loses nor invents an item.
pub proof fn lemma_output_globally_sorted(s: Seq<ResolvedEntry>, next_day_starts_at: int)
    ensures
        sorted_pairs(compile_pairs(s, next_day_starts_at)),
        compile_pairs(s, next_day_starts_at).to_multiset() == compile_pairs_unsorted(
            s,
            next_day_starts_at,
        ).to_multiset(),
{
    lemma_sort_pairs_sorted(compile_pairs_unsorted(s, next_day_starts_at));
    lemma_sort_pairs_permutes(compile_pairs_unsorted(s, next_day_starts_at));
}

} // verus!

