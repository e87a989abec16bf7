//! Cost tracking: usage records read from the session logs, grouped by
//! day and model, priced, filtered by period and sorted for reports.

pub mod collector;
pub mod display;
pub mod pricing;
pub mod session;

use chrono::Datelike;
use vstd::prelude::*;

use collector::{
    aggregate_with_cost, names_view, priced_grouping, stats_view, strictly_sorted, unpriced_model,
    AggregatedStats, CollectResult, ScanResult, StatsView,
};
use pricing::{ModelPricing, PricingView};

verus! {

/// The modulus of 64-bit unsigned arithmetic.
pub open spec fn modulus64() -> int {
    0x1_0000_0000_0000_0000int
}

/// `x` reduced to 64 bits, as wrapping addition of `u64` values gives it.
pub open spec fn wrap64(x: int) -> int {
    x % modulus64()
}

/// Token counts as mathematical integers.
pub struct Tally {
    pub requests: int,
    pub input: int,
    pub output: int,
    pub cache_read: int,
    pub cache_creation: int,
}

/// No usage.
pub open spec fn tally_zero() -> Tally {
    Tally { requests: 0, input: 0, output: 0, cache_read: 0, cache_creation: 0 }
}

/// Two usages together.
pub open spec fn tally_add(a: Tally, b: Tally) -> Tally {
    Tally {
        requests: a.requests + b.requests,
        input: a.input + b.input,
        output: a.output + b.output,
        cache_read: a.cache_read + b.cache_read,
        cache_creation: a.cache_creation + b.cache_creation,
    }
}

/// Each count of `a` reduced to 64 bits.
pub open spec fn tally_wrap(a: Tally) -> Tally {
    Tally {
        requests: wrap64(a.requests),
        input: wrap64(a.input),
        output: wrap64(a.output),
        cache_read: wrap64(a.cache_read),
        cache_creation: wrap64(a.cache_creation),
    }
}

/// Usage of one model on one day: the number of requests and of tokens
/// read, written, read from cache and written to cache.
pub struct CostRecord {
    /// The day, counted from 1 January of year 1 as day 1.
    pub date: i32,
    pub model: String,
    pub requests: u64,
    pub input_tokens: u64,
    pub output_tokens: u64,
    pub cache_read_tokens: u64,
    pub cache_creation_tokens: u64,
}

/// What a `CostRecord` holds, as mathematical values.
pub struct RecordView {
    pub date: i32,
    pub model: Seq<char>,
    pub usage: Tally,
}

impl View for CostRecord {
    type V = RecordView;

    open spec fn view(&self) -> RecordView {
        RecordView {
            date: self.date,
            model: self.model@,
            usage: Tally {
                requests: self.requests as int,
                input: self.input_tokens as int,
                output: self.output_tokens as int,
                cache_read: self.cache_read_tokens as int,
                cache_creation: self.cache_creation_tokens as int,
            },
        }
    }
}

impl Clone for CostRecord {
    fn clone(&self) -> (r: Self)
        ensures
            r == *self,
    {
        CostRecord {
            date: self.date,
            model: self.model.clone(),
            requests: self.requests,
            input_tokens: self.input_tokens,
            output_tokens: self.output_tokens,
            cache_read_tokens: self.cache_read_tokens,
            cache_creation_tokens: self.cache_creation_tokens,
        }
    }
}

/// The views of a list of records.
pub open spec fn records_view(s: Seq<CostRecord>) -> Seq<RecordView> {
    s.map_values(|r: CostRecord| r@)
}

/// Whether `r` is the record of model `model` on day `date`.
pub open spec fn same_key(r: RecordView, date: i32, model: Seq<char>) -> bool {
    r.date == date && r.model == model
}

/// The total usage of the records of `rs` for day `date` and model `model`.
pub open spec fn key_total(rs: Seq<RecordView>, date: i32, model: Seq<char>) -> Tally
    decreases rs.len(),
{
    if rs.len() == 0 {
        tally_zero()
    } else if same_key(rs.last(), date, model) {
        tally_add(key_total(rs.drop_last(), date, model), rs.last().usage)
    } else {
        key_total(rs.drop_last(), date, model)
    }
}

/// Whether some record of `rs` is of day `date` and model `model`.
pub open spec fn has_key(rs: Seq<RecordView>, date: i32, model: Seq<char>) -> bool {
    exists|k: int| 0 <= k < rs.len() && #[trigger] same_key(rs[k], date, model)
}

/// `gs` groups `rs` by day and model: one group per (day, model) pair that
/// occurs in `rs`, none for another pair, each holding the total of its
/// pair, counted in 64 bits.
pub open spec fn is_grouping(rs: Seq<RecordView>, gs: Seq<RecordView>) -> bool {
    &&& forall|i: int, j: int|
        #![trigger gs[i], gs[j]]
        0 <= i < gs.len() && 0 <= j < gs.len() && i != j ==> !same_key(gs[i], gs[j].date, gs[j].model)
    &&& forall|i: int|
        #![trigger gs[i]]
        0 <= i < gs.len() ==> has_key(rs, gs[i].date, gs[i].model)
    &&& forall|i: int|
        #![trigger gs[i]]
        0 <= i < gs.len() ==> gs[i].usage == tally_wrap(key_total(rs, gs[i].date, gs[i].model))
    &&& forall|k: int|
        #![trigger rs[k]]
        0 <= k < rs.len() ==> has_key(gs, rs[k].date, rs[k].model)
}

proof fn lemma_key_total_push(rs: Seq<RecordView>, r: RecordView, date: i32, model: Seq<char>)
    ensures
        key_total(rs.push(r), date, model) == if same_key(r, date, model) {
            tally_add(key_total(rs, date, model), r.usage)
        } else {
            key_total(rs, date, model)
        },
{
    assert(rs.push(r).drop_last() =~= rs);
}

proof fn lemma_key_total_absent(rs: Seq<RecordView>, date: i32, model: Seq<char>)
    requires
        forall|k: int| 0 <= k < rs.len() ==> !same_key(#[trigger] rs[k], date, model),
    ensures
        key_total(rs, date, model) == tally_zero(),
    decreases rs.len(),
{
    if rs.len() > 0 {
        assert(rs.last() == rs[rs.len() - 1]);
        lemma_key_total_absent(rs.drop_last(), date, model);
    }
}

/// Reducing before adding does not change the reduced sum.
pub proof fn lemma_wrap_add(a: int, b: int)
    ensures
        wrap64(wrap64(a) + b) == wrap64(a + b),
{
    vstd::arithmetic::div_mod::lemma_add_mod_noop_right(b, a, modulus64());
}

/// Reducing before adding does not change the reduced sum, in `usize`.
pub proof fn lemma_wrap_add_usize(a: int, b: int)
    ensures
        collector::wrap_usize(collector::wrap_usize(a) + b) == collector::wrap_usize(a + b),
{
    vstd::arithmetic::div_mod::lemma_add_mod_noop_right(b, a, collector::modulus_usize());
}

/// Values below the modulus are not changed by reducing.
pub proof fn lemma_wrap_small(a: int)
    requires
        0 <= a < modulus64(),
    ensures
        wrap64(a) == a,
{
    vstd::arithmetic::div_mod::lemma_small_mod(a as nat, modulus64() as nat);
}

/// Reducing before adding does not change the reduced sum, for each count.
pub proof fn lemma_tally_wrap_add(a: Tally, b: Tally)
    ensures
        tally_wrap(tally_add(tally_wrap(a), b)) == tally_wrap(tally_add(a, b)),
{
    lemma_wrap_add(a.requests, b.requests);
    lemma_wrap_add(a.input, b.input);
    lemma_wrap_add(a.output, b.output);
    lemma_wrap_add(a.cache_read, b.cache_read);
    lemma_wrap_add(a.cache_creation, b.cache_creation);
}

/// `a + b` in 64-bit wrapping arithmetic.
pub fn add_wrap(a: u64, b: u64) -> (r: u64)
    ensures
        r == wrap64(a + b),
{
    let r = a.wrapping_add(b);
    proof {
        if a + b > u64::MAX {
            vstd::arithmetic::div_mod::lemma_fundamental_div_mod_converse(
                a + b,
                modulus64(),
                1,
                a + b - modulus64(),
            );
        } else {
            lemma_wrap_small(a + b);
        }
    }
    r
}

/// The record `g` with the usage of `r` added, in 64-bit wrapping
/// arithmetic.
fn add_usage(g: &CostRecord, r: &CostRecord) -> (s: CostRecord)
    ensures
        s@ == (RecordView { date: g@.date, model: g@.model, usage: tally_wrap(tally_add(g@.usage, r@.usage)) }),
{
    CostRecord {
        date: g.date,
        model: g.model.clone(),
        requests: add_wrap(g.requests, r.requests),
        input_tokens: add_wrap(g.input_tokens, r.input_tokens),
        output_tokens: add_wrap(g.output_tokens, r.output_tokens),
        cache_read_tokens: add_wrap(g.cache_read_tokens, r.cache_read_tokens),
        cache_creation_tokens: add_wrap(g.cache_creation_tokens, r.cache_creation_tokens),
    }
}

/// Position of the group of day `date` and model `model`.
fn find_group(gs: &Vec<CostRecord>, date: i32, model: &String) -> (r: Option<usize>)
    ensures
        match r {
            Some(i) => i < gs.len() && same_key(gs@[i as int]@, date, model@),
            None => forall|i: int| 0 <= i < gs.len() ==> !same_key(#[trigger] gs@[i]@, date, model@),
        },
{
    let mut i: usize = 0;
    while i < gs.len()
        invariant
            i <= gs.len(),
            forall|j: int| 0 <= j < i ==> !same_key(#[trigger] gs@[j]@, date, model@),
        decreases gs.len() - i,
    {
        if gs[i].date == date && gs[i].model == *model {
            return Some(i);
        }
        i = i + 1;
    }
    None
}

/// Adding a record to the group of its key keeps a grouping.
proof fn lemma_grouping_add_to_group(pre: Seq<RecordView>, r: RecordView, old_gs: Seq<RecordView>, i: int, g: RecordView)
    requires
        is_grouping(pre, old_gs),
        0 <= i < old_gs.len(),
        same_key(old_gs[i], r.date, r.model),
        g == (RecordView { date: old_gs[i].date, model: old_gs[i].model, usage: tally_wrap(tally_add(old_gs[i].usage, r.usage)) }),
    ensures
        is_grouping(pre.push(r), old_gs.update(i, g)),
{
    let new_gs = old_gs.update(i, g);
    let post = pre.push(r);
    assert forall|j: int| #![trigger new_gs[j]] 0 <= j < new_gs.len() implies new_gs[j].usage == tally_wrap(
        key_total(post, new_gs[j].date, new_gs[j].model),
    ) by {
        lemma_key_total_push(pre, r, new_gs[j].date, new_gs[j].model);
        if j == i {
            lemma_tally_wrap_add(key_total(pre, old_gs[j].date, old_gs[j].model), r.usage);
        } else {
            assert(old_gs[j] == new_gs[j]);
            assert(!same_key(old_gs[j], old_gs[i].date, old_gs[i].model));
        }
    }
    assert forall|j: int| #![trigger new_gs[j]] 0 <= j < new_gs.len() implies has_key(post, new_gs[j].date, new_gs[j].model) by {
        let q = choose|q: int| 0 <= q < pre.len() && #[trigger] same_key(pre[q], old_gs[j].date, old_gs[j].model);
        assert(post[q] == pre[q]);
        assert(new_gs[j].date == old_gs[j].date && new_gs[j].model == old_gs[j].model);
        assert(same_key(post[q], new_gs[j].date, new_gs[j].model));
    }
    assert forall|q: int| #![trigger post[q]] 0 <= q < post.len() implies has_key(new_gs, post[q].date, post[q].model) by {
        if q < pre.len() {
            assert(post[q] == pre[q]);
            let j = choose|j: int| 0 <= j < old_gs.len() && #[trigger] same_key(old_gs[j], pre[q].date, pre[q].model);
            assert(same_key(new_gs[j], post[q].date, post[q].model));
        } else {
            assert(same_key(new_gs[i], post[q].date, post[q].model));
        }
    }
}

/// Adding a record of a key without a group as a new group keeps a
/// grouping.
proof fn lemma_grouping_new_group(pre: Seq<RecordView>, r: RecordView, old_gs: Seq<RecordView>)
    requires
        is_grouping(pre, old_gs),
        forall|i: int| 0 <= i < old_gs.len() ==> !same_key(#[trigger] old_gs[i], r.date, r.model),
        r.usage.requests < modulus64(),
        r.usage.input < modulus64(),
        r.usage.output < modulus64(),
        r.usage.cache_read < modulus64(),
        r.usage.cache_creation < modulus64(),
        0 <= r.usage.requests,
        0 <= r.usage.input,
        0 <= r.usage.output,
        0 <= r.usage.cache_read,
        0 <= r.usage.cache_creation,
    ensures
        is_grouping(pre.push(r), old_gs.push(r)),
{
    let new_gs = old_gs.push(r);
    let post = pre.push(r);
    assert forall|q: int| 0 <= q < pre.len() implies !same_key(#[trigger] pre[q], r.date, r.model) by {
        let j = choose|j: int| 0 <= j < old_gs.len() && #[trigger] same_key(old_gs[j], pre[q].date, pre[q].model);
        assert(!same_key(old_gs[j], r.date, r.model));
    }
    lemma_key_total_absent(pre, r.date, r.model);
    assert forall|j: int| #![trigger new_gs[j]] 0 <= j < new_gs.len() implies new_gs[j].usage == tally_wrap(
        key_total(post, new_gs[j].date, new_gs[j].model),
    ) by {
        lemma_key_total_push(pre, r, new_gs[j].date, new_gs[j].model);
        if j == old_gs.len() {
            lemma_wrap_small(r.usage.requests);
            lemma_wrap_small(r.usage.input);
            lemma_wrap_small(r.usage.output);
            lemma_wrap_small(r.usage.cache_read);
            lemma_wrap_small(r.usage.cache_creation);
        } else {
            assert(old_gs[j] == new_gs[j]);
            assert(!same_key(r, old_gs[j].date, old_gs[j].model));
        }
    }
    assert forall|j: int| #![trigger new_gs[j]] 0 <= j < new_gs.len() implies has_key(post, new_gs[j].date, new_gs[j].model) by {
        if j < old_gs.len() {
            let q = choose|q: int| 0 <= q < pre.len() && #[trigger] same_key(pre[q], old_gs[j].date, old_gs[j].model);
            assert(post[q] == pre[q]);
            assert(new_gs[j] == old_gs[j]);
            assert(same_key(post[q], new_gs[j].date, new_gs[j].model));
        } else {
            assert(same_key(post[pre.len() as int], new_gs[j].date, new_gs[j].model));
        }
    }
    assert forall|q: int| #![trigger post[q]] 0 <= q < post.len() implies has_key(new_gs, post[q].date, post[q].model) by {
        if q < pre.len() {
            assert(post[q] == pre[q]);
            let j = choose|j: int| 0 <= j < old_gs.len() && #[trigger] same_key(old_gs[j], pre[q].date, pre[q].model);
            assert(same_key(new_gs[j], post[q].date, post[q].model));
        } else {
            assert(same_key(new_gs[old_gs.len() as int], post[q].date, post[q].model));
        }
    }
    assert forall|a: int, b: int|
        0 <= a < new_gs.len() && 0 <= b < new_gs.len() && a != b implies !same_key(
        #[trigger] new_gs[a],
        #[trigger] new_gs[b].date,
        new_gs[b].model,
    ) by {
        if a == old_gs.len() {
            assert(!same_key(old_gs[b], r.date, r.model));
        } else if b == old_gs.len() {
            assert(!same_key(old_gs[a], r.date, r.model));
        }
    }
}

/// Groups records by day and model, adding up the usage of each group in
/// 64-bit wrapping arithmetic, as the release build of `+=` does. Groups
/// come in the order in which their first record comes.
pub fn merge_records(records: &Vec<CostRecord>) -> (gs: Vec<CostRecord>)
    ensures
        is_grouping(records_view(records@), records_view(gs@)),
{
    let ghost rv = records_view(records@);
    let mut gs: Vec<CostRecord> = Vec::new();
    let mut k: usize = 0;
    while k < records.len()
        invariant
            k <= records.len(),
            rv == records_view(records@),
            is_grouping(rv.take(k as int), records_view(gs@)),
        decreases records.len() - k,
    {
        let r = &records[k];
        let ghost pre = rv.take(k as int);
        let ghost old_gs = records_view(gs@);
        assert(rv.take(k + 1) =~= pre.push(r@));
        assert(rv[k as int] == r@);
        match find_group(&gs, r.date, &r.model) {
            Some(i) => {
                assert(old_gs[i as int] == gs@[i as int]@);
                let g = add_usage(&gs[i], r);
                gs.set(i, g);
                proof {
                    lemma_grouping_add_to_group(pre, r@, old_gs, i as int, g@);
                    assert(records_view(gs@) =~= old_gs.update(i as int, g@));
                }
            },
            None => {
                let g = r.clone();
                gs.push(g);
                proof {
                    lemma_grouping_new_group(pre, r@, old_gs);
                    assert(records_view(gs@) =~= old_gs.push(r@));
                }
            },
        }
        k = k + 1;
    }
    assert(rv.take(records.len() as int) =~= rv);
    gs
}

/// The usage of all records together.
pub open spec fn total_usage(rs: Seq<RecordView>) -> Tally
    decreases rs.len(),
{
    if rs.len() == 0 {
        tally_zero()
    } else {
        tally_add(total_usage(rs.drop_last()), rs.last().usage)
    }
}

/// The sum over the groups `gs` of what the records `rs` give each group's
/// day and model.
pub open spec fn sum_key_totals(rs: Seq<RecordView>, gs: Seq<RecordView>) -> Tally
    decreases gs.len(),
{
    if gs.len() == 0 {
        tally_zero()
    } else {
        tally_add(sum_key_totals(rs, gs.drop_last()), key_total(rs, gs.last().date, gs.last().model))
    }
}

/// The usage of the groups together.
pub open spec fn group_usage(gs: Seq<RecordView>) -> Tally
    decreases gs.len(),
{
    if gs.len() == 0 {
        tally_zero()
    } else {
        tally_add(group_usage(gs.drop_last()), gs.last().usage)
    }
}

/// No two groups share a day and model.
pub open spec fn keys_distinct(gs: Seq<RecordView>) -> bool {
    forall|i: int, j: int|
        #![trigger gs[i], gs[j]]
        0 <= i < gs.len() && 0 <= j < gs.len() && i != j ==> !same_key(gs[i], gs[j].date, gs[j].model)
}

proof fn lemma_sum_key_totals_push(rs: Seq<RecordView>, r: RecordView, gs: Seq<RecordView>)
    requires
        keys_distinct(gs),
    ensures
        sum_key_totals(rs.push(r), gs) == tally_add(
            sum_key_totals(rs, gs),
            if has_key(gs, r.date, r.model) {
                r.usage
            } else {
                tally_zero()
            },
        ),
    decreases gs.len(),
{
    if gs.len() > 0 {
        let g = gs.drop_last();
        assert forall|i: int, j: int|
            #![trigger g[i], g[j]]
            0 <= i < g.len() && 0 <= j < g.len() && i != j implies !same_key(g[i], g[j].date, g[j].model) by {
            assert(g[i] == gs[i] && g[j] == gs[j]);
        }
        lemma_sum_key_totals_push(rs, r, g);
        lemma_key_total_push(rs, r, gs.last().date, gs.last().model);
        let last = gs[gs.len() - 1];
        assert(gs.last() == last);
        if has_key(g, r.date, r.model) {
            let k = choose|k: int| 0 <= k < g.len() && #[trigger] same_key(g[k], r.date, r.model);
            assert(gs[k] == g[k]);
            assert(has_key(gs, r.date, r.model));
            assert(!same_key(gs[k], last.date, last.model));
        } else if same_key(last, r.date, r.model) {
            assert(has_key(gs, r.date, r.model));
        } else {
            assert(!has_key(gs, r.date, r.model)) by {
                if has_key(gs, r.date, r.model) {
                    let k = choose|k: int| 0 <= k < gs.len() && #[trigger] same_key(gs[k], r.date, r.model);
                    if k < g.len() {
                        assert(g[k] == gs[k]);
                    }
                }
            }
        }
    }
}

proof fn lemma_sum_key_totals_is_total(rs: Seq<RecordView>, gs: Seq<RecordView>)
    requires
        keys_distinct(gs),
        forall|k: int| #![trigger rs[k]] 0 <= k < rs.len() ==> has_key(gs, rs[k].date, rs[k].model),
    ensures
        sum_key_totals(rs, gs) == total_usage(rs),
    decreases rs.len(),
{
    if rs.len() == 0 {
        lemma_sum_key_totals_empty(gs);
        assert(rs =~= Seq::<RecordView>::empty());
    } else {
        let pre = rs.drop_last();
        let r = rs[rs.len() - 1];
        assert(rs.last() == r);
        assert(pre.push(r) =~= rs);
        assert forall|k: int| #![trigger pre[k]] 0 <= k < pre.len() implies has_key(gs, pre[k].date, pre[k].model) by {
            assert(pre[k] == rs[k]);
        }
        lemma_sum_key_totals_is_total(pre, gs);
        lemma_sum_key_totals_push(pre, r, gs);
        assert(has_key(gs, r.date, r.model));
    }
}

proof fn lemma_sum_key_totals_empty(gs: Seq<RecordView>)
    ensures
        sum_key_totals(Seq::<RecordView>::empty(), gs) == tally_zero(),
    decreases gs.len(),
{
    if gs.len() > 0 {
        lemma_sum_key_totals_empty(gs.drop_last());
    }
}

proof fn lemma_group_usage_wrap(rs: Seq<RecordView>, gs: Seq<RecordView>)
    requires
        forall|i: int| #![trigger gs[i]] 0 <= i < gs.len() ==> gs[i].usage == tally_wrap(key_total(rs, gs[i].date, gs[i].model)),
    ensures
        tally_wrap(group_usage(gs)) == tally_wrap(sum_key_totals(rs, gs)),
    decreases gs.len(),
{
    if gs.len() > 0 {
        let g = gs.drop_last();
        assert forall|i: int| #![trigger g[i]] 0 <= i < g.len() implies g[i].usage == tally_wrap(
            key_total(rs, g[i].date, g[i].model),
        ) by {
            assert(g[i] == gs[i]);
        }
        lemma_group_usage_wrap(rs, g);
        let last = gs[gs.len() - 1];
        let kt = key_total(rs, last.date, last.model);
        // wrap(G + wrap(kt)) == wrap(wrap(G) + kt) == wrap(wrap(S) + kt) == wrap(S + kt)
        lemma_tally_wrap_add_right(group_usage(g), kt);
        lemma_tally_wrap_add(group_usage(g), tally_wrap(kt));
        lemma_tally_wrap_add(sum_key_totals(rs, g), kt);
        lemma_tally_wrap_add(group_usage(g), kt);
    }
}

proof fn lemma_tally_wrap_add_right(a: Tally, b: Tally)
    ensures
        tally_wrap(tally_add(a, tally_wrap(b))) == tally_wrap(tally_add(a, b)),
{
    vstd::arithmetic::div_mod::lemma_add_mod_noop_right(a.requests, b.requests, modulus64());
    vstd::arithmetic::div_mod::lemma_add_mod_noop_right(a.input, b.input, modulus64());
    vstd::arithmetic::div_mod::lemma_add_mod_noop_right(a.output, b.output, modulus64());
    vstd::arithmetic::div_mod::lemma_add_mod_noop_right(a.cache_read, b.cache_read, modulus64());
    vstd::arithmetic::div_mod::lemma_add_mod_noop_right(a.cache_creation, b.cache_creation, modulus64());
}

/// Grouping keeps the totals: the groups' usage adds up to the usage of
/// all records (in 64 bits, as the counts are kept).
pub proof fn lemma_grouping_keeps_totals(rs: Seq<RecordView>, gs: Seq<RecordView>)
    requires
        is_grouping(rs, gs),
    ensures
        tally_wrap(group_usage(gs)) == tally_wrap(total_usage(rs)),
{
    lemma_sum_key_totals_is_total(rs, gs);
    lemma_group_usage_wrap(rs, gs);
}

/// Taking one record out of a list takes its usage out of its key's total.
proof fn lemma_key_total_remove(s: Seq<RecordView>, i: int, date: i32, model: Seq<char>)
    requires
        0 <= i < s.len(),
    ensures
        key_total(s, date, model) == tally_add(
            key_total(s.remove(i), date, model),
            if same_key(s[i], date, model) {
                s[i].usage
            } else {
                tally_zero()
            },
        ),
    decreases s.len(),
{
    if i == s.len() - 1 {
        assert(s.remove(i) =~= s.drop_last());
    } else {
        lemma_key_total_remove(s.drop_last(), i, date, model);
        assert(s.remove(i).drop_last() =~= s.drop_last().remove(i));
        assert(s.remove(i).last() == s.last());
        assert(s.drop_last()[i] == s[i]);
    }
}

/// The total of a key does not depend on the order of the records.
pub proof fn lemma_key_total_permutation(a: Seq<RecordView>, b: Seq<RecordView>, date: i32, model: Seq<char>)
    requires
        a.to_multiset() == b.to_multiset(),
    ensures
        key_total(a, date, model) == key_total(b, date, model),
    decreases a.len(),
{
    broadcast use vstd::multiset::group_multiset_axioms;

    vstd::seq_lib::to_multiset_len(a);
    vstd::seq_lib::to_multiset_len(b);
    if a.len() == 0 {
        assert(a =~= Seq::<RecordView>::empty());
        assert(b =~= Seq::<RecordView>::empty());
    } else {
        let x = a.last();
        let rest = a.drop_last();
        assert(rest.push(x) =~= a);
        vstd::seq_lib::to_multiset_build(rest, x);
        vstd::seq_lib::to_multiset_contains(b, x);
        assert(b.to_multiset().count(x) > 0);
        let i = choose|i: int| 0 <= i < b.len() && b[i] == x;
        vstd::seq_lib::to_multiset_remove(b, i);
        assert(b.remove(i).to_multiset() =~= rest.to_multiset());
        lemma_key_total_permutation(rest, b.remove(i), date, model);
        lemma_key_total_remove(b, i, date, model);
    }
}

/// Whether some record has a key does not depend on the order of the
/// records.
pub proof fn lemma_has_key_permutation(a: Seq<RecordView>, b: Seq<RecordView>, date: i32, model: Seq<char>)
    requires
        a.to_multiset() == b.to_multiset(),
    ensures
        has_key(a, date, model) == has_key(b, date, model),
{
    if has_key(a, date, model) {
        let k = choose|k: int| 0 <= k < a.len() && #[trigger] same_key(a[k], date, model);
        vstd::seq_lib::to_multiset_contains(a, a[k]);
        vstd::seq_lib::to_multiset_contains(b, a[k]);
        assert(a.contains(a[k]));
        let j = choose|j: int| 0 <= j < b.len() && b[j] == a[k];
        assert(same_key(b[j], date, model));
    }
    if has_key(b, date, model) {
        let k = choose|k: int| 0 <= k < b.len() && #[trigger] same_key(b[k], date, model);
        vstd::seq_lib::to_multiset_contains(a, b[k]);
        vstd::seq_lib::to_multiset_contains(b, b[k]);
        assert(b.contains(b[k]));
        let j = choose|j: int| 0 <= j < a.len() && a[j] == b[k];
        assert(same_key(a[j], date, model));
    }
}

/// The predicate "is a record of a day from `start` to `end`".
pub open spec fn in_period(start: i32, end: i32) -> spec_fn(RecordView) -> bool {
    |r: RecordView| start <= r.date && r.date <= end
}

/// The records of the days from `start` to `end`, in order.
pub fn records_in_period(records: &Vec<CostRecord>, start: i32, end: i32) -> (r: Vec<CostRecord>)
    ensures
        records_view(r@) == records_view(records@).filter(in_period(start, end)),
{
    let ghost rv = records_view(records@);
    let mut r: Vec<CostRecord> = Vec::new();
    let mut i: usize = 0;
    assert(rv.take(0) =~= Seq::<RecordView>::empty());
    while i < records.len()
        invariant
            i <= records.len(),
            rv == records_view(records@),
            records_view(r@) == rv.take(i as int).filter(in_period(start, end)),
        decreases records.len() - i,
    {
        proof {
            reveal_with_fuel(Seq::filter, 1);
        }
        assert(rv.take(i + 1).drop_last() =~= rv.take(i as int));
        assert(rv.take(i + 1).last() == records@[i as int]@);
        if start <= records[i].date && records[i].date <= end {
            let ghost prev = records_view(r@);
            r.push(records[i].clone());
            assert(records_view(r@) =~= prev.push(records@[i as int]@));
        }
        i = i + 1;
    }
    assert(rv.take(records.len() as int) =~= rv);
    r
}

/// The entries of a period are all of days in the period.
pub proof fn lemma_period_entries_in_period(rs: Seq<RecordView>, start: i32, end: i32, gs: Seq<RecordView>)
    requires
        is_grouping(rs.filter(in_period(start, end)), gs),
    ensures
        forall|i: int| 0 <= i < gs.len() ==> start <= (#[trigger] gs[i]).date <= end,
{
    let f = rs.filter(in_period(start, end));
    assert forall|i: int| 0 <= i < gs.len() implies start <= (#[trigger] gs[i]).date <= end by {
        assert(has_key(f, gs[i].date, gs[i].model));
        let k = choose|k: int| 0 <= k < f.len() && #[trigger] same_key(f[k], gs[i].date, gs[i].model);
        rs.lemma_filter_pred(in_period(start, end), k);
    }
}

/// The records kept for a period are exactly the records of the days from
/// `start` to `end`, both included: a record of the first day, of the last
/// day and of every day between them is kept, and no other.
pub proof fn lemma_period_keeps_its_days(rs: Seq<RecordView>, start: i32, end: i32, x: RecordView)
    ensures
        rs.filter(in_period(start, end)).contains(x) <==> (rs.contains(x) && start <= x.date && x.date <= end),
{
    let f = rs.filter(in_period(start, end));
    if f.contains(x) {
        rs.lemma_filter_contains_rev(in_period(start, end), x);
        let k = choose|k: int| 0 <= k < f.len() && f[k] == x;
        rs.lemma_filter_pred(in_period(start, end), k);
    }
    if rs.contains(x) && start <= x.date && x.date <= end {
        let k = choose|k: int| 0 <= k < rs.len() && rs[k] == x;
        rs.lemma_filter_contains(in_period(start, end), k);
    }
}

/// For a day from `start` to `end`, a model's total over the records of the
/// period is its total over all the records: nothing of that day is lost.
pub proof fn lemma_period_total_of_day(rs: Seq<RecordView>, start: i32, end: i32, date: i32, model: Seq<char>)
    requires
        start <= date <= end,
    ensures
        key_total(rs.filter(in_period(start, end)), date, model) == key_total(rs, date, model),
    decreases rs.len(),
{
    reveal_with_fuel(Seq::filter, 1);
    if rs.len() > 0 {
        let f = rs.filter(in_period(start, end));
        let g = rs.drop_last().filter(in_period(start, end));
        lemma_period_total_of_day(rs.drop_last(), start, end, date, model);
        if in_period(start, end)(rs.last()) {
            assert(f == g.push(rs.last()));
            assert(f.drop_last() =~= g);
            assert(f.last() == rs.last());
        } else {
            assert(f == g);
            assert(!same_key(rs.last(), date, model));
        }
    }
}

/// What the report of a period holds, over the records themselves: every
/// record of a day from `start` to `end` has its entry, each entry is of a
/// day of the period, and each holds the full total of its day and model
/// over all the records, counted in 64 bits.
pub proof fn lemma_period_report_totals(rs: Seq<RecordView>, start: i32, end: i32, gs: Seq<RecordView>)
    requires
        is_grouping(rs.filter(in_period(start, end)), gs),
    ensures
        forall|k: int|
            0 <= k < rs.len() && start <= rs[k].date <= end ==> has_key(gs, #[trigger] rs[k].date, rs[k].model),
        forall|i: int| 0 <= i < gs.len() ==> start <= (#[trigger] gs[i]).date <= end,
        forall|i: int|
            0 <= i < gs.len() ==> (#[trigger] gs[i]).usage == tally_wrap(key_total(rs, gs[i].date, gs[i].model)),
{
    let f = rs.filter(in_period(start, end));
    lemma_period_entries_in_period(rs, start, end, gs);
    assert forall|k: int| 0 <= k < rs.len() && start <= rs[k].date <= end implies has_key(
        gs,
        #[trigger] rs[k].date,
        rs[k].model,
    ) by {
        rs.lemma_filter_contains(in_period(start, end), k);
        let j = choose|j: int| 0 <= j < f.len() && f[j] == rs[k];
        assert(has_key(gs, f[j].date, f[j].model));
    }
    assert forall|i: int| 0 <= i < gs.len() implies (#[trigger] gs[i]).usage == tally_wrap(
        key_total(rs, gs[i].date, gs[i].model),
    ) by {
        lemma_period_total_of_day(rs, start, end, gs[i].date, gs[i].model);
    }
}

/// The predicate "is an entry of day `d`".
pub open spec fn dated(d: i32) -> spec_fn(StatsView) -> bool {
    |s: StatsView| s.usage.date == d
}

/// Newest day first.
pub open spec fn sorted_by_date_desc(v: Seq<StatsView>) -> bool {
    forall|i: int, j: int| 0 <= i < j < v.len() ==> (#[trigger] v[i]).usage.date >= (#[trigger] v[j]).usage.date
}

proof fn lemma_insert_by_date(v: Seq<StatsView>, p: int, x: StatsView, d: i32)
    requires
        sorted_by_date_desc(v),
        0 <= p <= v.len(),
        forall|j: int| 0 <= j < p ==> (#[trigger] v[j]).usage.date >= x.usage.date,
        p < v.len() ==> v[p].usage.date < x.usage.date,
    ensures
        sorted_by_date_desc(v.insert(p, x)),
        v.insert(p, x).filter(dated(d)) == if x.usage.date == d {
            v.filter(dated(d)).push(x)
        } else {
            v.filter(dated(d))
        },
{
    let w = v.insert(p, x);
    assert forall|i: int, j: int| 0 <= i < j < w.len() implies (#[trigger] w[i]).usage.date >= (
    #[trigger] w[j]).usage.date by {
        if i < p && j > p {
            assert(w[j] == v[j - 1]);
        } else if i == p && j > p {
            assert(w[j] == v[j - 1]);
            assert(v[p].usage.date >= v[j - 1].usage.date);
        } else if i > p {
            assert(w[i] == v[i - 1] && w[j] == v[j - 1]);
        }
    }
    let a = v.take(p);
    let b = v.skip(p);
    assert(w =~= a + seq![x] + b);
    assert(v =~= a + b);
    Seq::filter_distributes_over_add(a + seq![x], b, dated(d));
    Seq::filter_distributes_over_add(a, seq![x], dated(d));
    Seq::filter_distributes_over_add(a, b, dated(d));
    reveal_with_fuel(Seq::filter, 2);
    assert(seq![x].drop_last() =~= Seq::<StatsView>::empty());
    if x.usage.date == d {
        assert forall|j: int| 0 <= j < b.len() implies !dated(d)(#[trigger] b[j]) by {
            assert(b[j] == v[p + j]);
            if j > 0 {
                assert(v[p].usage.date >= v[p + j].usage.date);
            }
        }
        assert(b.all(|y: StatsView| !dated(d)(y)));
        b.lemma_all_neg_filter_empty(dated(d));
        assert(b.filter(dated(d)) =~= Seq::<StatsView>::empty());
        assert(w.filter(dated(d)) =~= v.filter(dated(d)).push(x));
    } else {
        assert(seq![x].filter(dated(d)) =~= Seq::<StatsView>::empty());
        assert(w.filter(dated(d)) =~= v.filter(dated(d)));
    }
}

/// The entries sorted by day, newest first; entries of the same day keep
/// their order, as a stable sort leaves them.
pub fn sort_by_date_desc(stats: &Vec<AggregatedStats>) -> (r: Vec<AggregatedStats>)
    ensures
        sorted_by_date_desc(stats_view(r@)),
        forall|d: i32| #[trigger] stats_view(r@).filter(dated(d)) == stats_view(stats@).filter(dated(d)),
        stats_view(r@).to_multiset() == stats_view(stats@).to_multiset(),
{
    let ghost sv = stats_view(stats@);
    let mut r: Vec<AggregatedStats> = Vec::new();
    let mut k: usize = 0;
    proof {
        assert forall|d: i32| #[trigger] stats_view(r@).filter(dated(d)) == sv.take(0).filter(dated(d)) by {
            assert(sv.take(0) =~= Seq::<StatsView>::empty());
            assert(stats_view(r@) =~= Seq::<StatsView>::empty());
            reveal_with_fuel(Seq::filter, 1);
        }
        assert(stats_view(r@) =~= sv.take(0));
    }
    while k < stats.len()
        invariant
            k <= stats.len(),
            sv == stats_view(stats@),
            sorted_by_date_desc(stats_view(r@)),
            forall|d: i32| #[trigger] stats_view(r@).filter(dated(d)) == sv.take(k as int).filter(dated(d)),
            stats_view(r@).to_multiset() == sv.take(k as int).to_multiset(),
        decreases stats.len() - k,
    {
        let x = stats[k].clone();
        let ghost v = stats_view(r@);
        let mut p: usize = 0;
        while p < r.len() && r[p].usage.date >= x.usage.date
            invariant
                p <= r.len(),
                v == stats_view(r@),
                forall|j: int| 0 <= j < p ==> (#[trigger] v[j]).usage.date >= x@.usage.date,
            decreases r.len() - p,
        {
            p = p + 1;
        }
        proof {
            assert(sv.take(k + 1) =~= sv.take(k as int).push(x@));
            assert forall|d: i32| #[trigger] v.insert(p as int, x@).filter(dated(d)) == sv.take(k + 1).filter(
                dated(d),
            ) by {
                lemma_insert_by_date(v, p as int, x@, d);
                sv.take(k as int).lemma_filter_push(x@, dated(d));
            }
            lemma_insert_by_date(v, p as int, x@, 0);
            vstd::seq_lib::to_multiset_insert(v, p as int, x@);
            vstd::seq_lib::to_multiset_build(sv.take(k as int), x@);
        }
        r.insert(p, x);
        assert(stats_view(r@) =~= v.insert(p as int, x@));
        k = k + 1;
    }
    assert(sv.take(stats.len() as int) =~= sv);
    r
}

/// The day of the month (1 to 31) of day number `day`; none when the
/// calendar does not reach that day.
pub uninterp spec fn day_of_month_of(day: i32) -> Option<u32>;

/// Trusted: calls chrono's `NaiveDate::from_num_days_from_ce_opt`, which
/// gives none for a day outside its calendar, and takes `day()` of the
/// date, which chrono documents as ranging from 1 to 31. The result is
/// named `day_of_month_of` of the day; which day of the month a given day
/// number is, is not stated.
#[verifier::external_body]
fn day_of_month(day: i32) -> (r: Option<u32>)
    ensures
        r == day_of_month_of(day),
        r matches Some(m) ==> 1 <= m <= 31,
{
    match chrono::NaiveDate::from_num_days_from_ce_opt(day) {
        Some(d) => Some(d.day()),
        None => None,
    }
}

/// The first day of the month of `today`, given that `today` is day `dom`
/// of its month: `dom - 1` days earlier; none when `dom` is 0 or that day
/// is below the range of `i32`.
pub open spec fn month_start_spec(today: i32, dom: u32) -> Option<i32> {
    if dom >= 1 && today - (dom - 1) >= i32::MIN {
        Some((today - (dom - 1)) as i32)
    } else {
        None
    }
}

/// The first day of the month of `today`.
pub open spec fn month_start(today: i32) -> Option<i32> {
    match day_of_month_of(today) {
        Some(dom) => month_start_spec(today, dom),
        None => None,
    }
}

/// The first day of the month of `today`, given that `today` is day `dom`
/// of its month.
pub fn month_start_from(today: i32, dom: u32) -> (r: Option<i32>)
    ensures
        r == month_start_spec(today, dom),
{
    if dom == 0 {
        return None;
    }
    let start = today as i64 - (dom as i64 - 1);
    if start >= i32::MIN as i64 {
        Some(start as i32)
    } else {
        None
    }
}

/// The entries and unknown models of a period.
pub struct PeriodReport {
    pub stats: Vec<AggregatedStats>,
    pub unknown_models: Vec<String>,
    pub start: i32,
    pub end: i32,
}

/// The cost manager: prices the scanned usage and cuts it by period.
pub struct CostManager {
    pricing: ModelPricing,
}

impl View for CostManager {
    type V = PricingView;

    closed spec fn view(&self) -> PricingView {
        self.pricing@
    }
}

impl CostManager {
    /// A manager that prices with the given table.
    pub fn new(pricing: ModelPricing) -> (m: CostManager)
        ensures
            m@ == pricing@,
    {
        CostManager { pricing }
    }

    /// Prices all the scanned usage.
    pub fn collect(&self, scan: &ScanResult) -> (r: CollectResult)
        ensures
            priced_grouping(records_view(scan.records@), self@, stats_view(r.stats@)),
            strictly_sorted(names_view(r.unknown_models@)),
            forall|m: Seq<char>| #[trigger] names_view(r.unknown_models@).contains(m) <==> unpriced_model(stats_view(r.stats@), m),
            r.total_lines == scan.total_lines,
            r.skipped_lines == scan.skipped_lines,
            r.failed_files == scan.failed_files,
    {
        collector::collect_stats(scan, &self.pricing)
    }

    /// The priced usage of the days from `start` to `end`, with the models
    /// of that usage that have no price.
    pub fn period(&self, scan: &ScanResult, start: i32, end: i32) -> (r: PeriodReport)
        ensures
            priced_grouping(records_view(scan.records@).filter(in_period(start, end)), self@, stats_view(r.stats@)),
            strictly_sorted(names_view(r.unknown_models@)),
            forall|m: Seq<char>| #[trigger] names_view(r.unknown_models@).contains(m) <==> unpriced_model(stats_view(r.stats@), m),
            r.start == start,
            r.end == end,
    {
        let records = records_in_period(&scan.records, start, end);
        let agg = aggregate_with_cost(&records, &self.pricing);
        PeriodReport { stats: agg.stats, unknown_models: agg.unknown_models, start, end }
    }

    /// Today's priced usage: the period of the one day `today`.
    pub fn today(&self, scan: &ScanResult, today: i32) -> (r: PeriodReport)
        ensures
            priced_grouping(records_view(scan.records@).filter(in_period(today, today)), self@, stats_view(r.stats@)),
            strictly_sorted(names_view(r.unknown_models@)),
            forall|m: Seq<char>| #[trigger] names_view(r.unknown_models@).contains(m) <==> unpriced_model(stats_view(r.stats@), m),
            r.start == today,
            r.end == today,
    {
        self.period(scan, today, today)
    }

    /// This month's priced usage: the period from the first day of the
    /// month of `today` to `today`; none when the calendar does not know
    /// `today`.
    pub fn month(&self, scan: &ScanResult, today: i32) -> (r: Option<PeriodReport>)
        ensures
            match month_start(today) {
                Some(start) => r is Some && {
                    let p = r->0;
                    &&& priced_grouping(
                        records_view(scan.records@).filter(in_period(start, today)),
                        self@,
                        stats_view(p.stats@),
                    )
                    &&& strictly_sorted(names_view(p.unknown_models@))
                    &&& forall|m: Seq<char>| #[trigger] names_view(p.unknown_models@).contains(m) <==> unpriced_model(stats_view(p.stats@), m)
                    &&& p.start == start
                    &&& p.end == today
                },
                None => r is None,
            },
            r matches Some(p) ==> p.start <= today && today - p.start <= 30,
    {
        let dom = match day_of_month(today) {
            Some(d) => d,
            None => return None,
        };
        match month_start_from(today, dom) {
            Some(start) => Some(self.period(scan, start, today)),
            None => None,
        }
    }

    /// All priced usage for the detailed report, newest day first.
    pub fn report(&self, scan: &ScanResult) -> (r: CollectResult)
        ensures
            sorted_by_date_desc(stats_view(r.stats@)),
            exists|c: Seq<StatsView>|
                #![trigger priced_grouping(records_view(scan.records@), self@, c)]
                priced_grouping(records_view(scan.records@), self@, c) && (forall|d: i32| #[trigger] stats_view(r.stats@).filter(dated(d)) == c.filter(
                    dated(d),
                )) && (forall|m: Seq<char>| #[trigger] names_view(r.unknown_models@).contains(m) <==> unpriced_model(c, m)),
            strictly_sorted(names_view(r.unknown_models@)),
            r.total_lines == scan.total_lines,
            r.skipped_lines == scan.skipped_lines,
            r.failed_files == scan.failed_files,
    {
        let collected = self.collect(scan);
        let sorted = sort_by_date_desc(&collected.stats);
        CollectResult {
            stats: sorted,
            unknown_models: collected.unknown_models,
            total_lines: collected.total_lines,
            skipped_lines: collected.skipped_lines,
            failed_files: collected.failed_files,
        }
    }
}

} // verus!
