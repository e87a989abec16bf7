//! What the cost views show: the per-model summary of a period, and the
//! choice of report format.

use vstd::prelude::*;

use super::collector::{names_view, stats_usage, stats_view, strictly_sorted, AggregatedStats, StatsView};
use super::{add_wrap, total_usage, lemma_tally_wrap_add, lemma_wrap_small, modulus64, tally_add, tally_wrap, tally_zero, wrap64, RecordView, Tally};
use crate::error::CcsError;
use crate::text::{compare_text, text_lt, Order};

verus! {

/// The total usage of the records of model `m`.
pub open spec fn model_total(rs: Seq<RecordView>, m: Seq<char>) -> Tally
    decreases rs.len(),
{
    if rs.len() == 0 {
        tally_zero()
    } else if rs.last().model == m {
        tally_add(model_total(rs.drop_last(), m), rs.last().usage)
    } else {
        model_total(rs.drop_last(), m)
    }
}

/// The positions of the records of model `m`, in order.
pub open spec fn model_members(rs: Seq<RecordView>, m: Seq<char>) -> Seq<int>
    decreases rs.len(),
{
    if rs.len() == 0 {
        Seq::<int>::empty()
    } else if rs.last().model == m {
        model_members(rs.drop_last(), m).push(rs.len() - 1)
    } else {
        model_members(rs.drop_last(), m)
    }
}

/// The number of requests of all records.
pub open spec fn requests_total(rs: Seq<RecordView>) -> int
    decreases rs.len(),
{
    if rs.len() == 0 {
        0
    } else {
        requests_total(rs.drop_last()) + rs.last().usage.requests
    }
}

/// Whether some record is of model `m`.
pub open spec fn has_model(rs: Seq<RecordView>, m: Seq<char>) -> bool {
    exists|k: int| 0 <= k < rs.len() && #[trigger] rs[k].model == m
}

/// The totals of one model over a period.
pub struct ModelSummary {
    pub model: String,
    pub requests: u64,
    pub input_tokens: u64,
    pub output_tokens: u64,
    pub cache_read_tokens: u64,
    pub cache_creation_tokens: u64,
    /// Positions of the model's entries, whose costs the caller adds up.
    pub members: Vec<usize>,
}

/// What a `ModelSummary` holds, as mathematical values.
pub struct SummaryView {
    pub model: Seq<char>,
    pub usage: Tally,
    pub members: Seq<int>,
}

impl View for ModelSummary {
    type V = SummaryView;

    open spec fn view(&self) -> SummaryView {
        SummaryView {
            model: self.model@,
            usage: Tally {
                requests: self.requests as int,
                input: self.input_tokens as int,
                output: self.output_tokens as int,
                cache_read: self.cache_read_tokens as int,
                cache_creation: self.cache_creation_tokens as int,
            },
            members: self.members@.map_values(|i: usize| i as int),
        }
    }
}

/// The summary of a period: one line per model, sorted by model name, and
/// the numbers of requests and tokens over all.
pub struct StatsSummary {
    pub models: Vec<ModelSummary>,
    pub total_requests: u64,
    pub total_input_tokens: u64,
    pub total_output_tokens: u64,
    pub total_cache_read_tokens: u64,
    pub total_cache_creation_tokens: u64,
}

/// The views of a list of summary lines.
pub open spec fn summaries_view(s: Seq<ModelSummary>) -> Seq<SummaryView> {
    s.map_values(|x: ModelSummary| x@)
}

/// The models of a list of summary lines.
pub open spec fn summary_models(s: Seq<SummaryView>) -> Seq<Seq<char>> {
    s.map_values(|x: SummaryView| x.model)
}

/// `ss` summarises `rs` by model: one line per model that occurs, sorted
/// by name, with the model's totals in 64 bits and its positions.
pub open spec fn is_model_summary(rs: Seq<RecordView>, ss: Seq<SummaryView>) -> bool {
    &&& strictly_sorted(summary_models(ss))
    &&& forall|j: int|
        #![trigger ss[j]]
        0 <= j < ss.len() ==> {
            &&& has_model(rs, ss[j].model)
            &&& ss[j].usage == tally_wrap(model_total(rs, ss[j].model))
            &&& ss[j].members == model_members(rs, ss[j].model)
        }
    &&& forall|k: int| #![trigger rs[k]] 0 <= k < rs.len() ==> summary_models(ss).contains(rs[k].model)
}

proof fn lemma_model_push(rs: Seq<RecordView>, r: RecordView, m: Seq<char>)
    ensures
        model_total(rs.push(r), m) == if r.model == m {
            tally_add(model_total(rs, m), r.usage)
        } else {
            model_total(rs, m)
        },
        model_members(rs.push(r), m) == if r.model == m {
            model_members(rs, m).push(rs.len() as int)
        } else {
            model_members(rs, m)
        },
        requests_total(rs.push(r)) == requests_total(rs) + r.usage.requests,
{
    assert(rs.push(r).drop_last() =~= rs);
}

proof fn lemma_model_absent(rs: Seq<RecordView>, m: Seq<char>)
    requires
        !has_model(rs, m),
    ensures
        model_total(rs, m) == tally_zero(),
        model_members(rs, m) == Seq::<int>::empty(),
    decreases rs.len(),
{
    if rs.len() > 0 {
        assert(rs.last() == rs[rs.len() - 1]);
        assert(!has_model(rs.drop_last(), m)) by {
            if has_model(rs.drop_last(), m) {
                let k = choose|k: int| 0 <= k < rs.drop_last().len() && #[trigger] rs.drop_last()[k].model == m;
                assert(rs[k].model == m);
            }
        }
        lemma_model_absent(rs.drop_last(), m);
    }
}

proof fn lemma_summary_add(pre: Seq<RecordView>, r: RecordView, ss: Seq<SummaryView>, p: int, s: SummaryView)
    requires
        is_model_summary(pre, ss),
        0 <= p < ss.len(),
        ss[p].model == r.model,
        s == (SummaryView {
            model: ss[p].model,
            usage: tally_wrap(tally_add(ss[p].usage, r.usage)),
            members: ss[p].members.push(pre.len() as int),
        }),
    ensures
        is_model_summary(pre.push(r), ss.update(p, s)),
{
    let post = pre.push(r);
    let w = ss.update(p, s);
    assert(summary_models(w) =~= summary_models(ss));
    assert forall|j: int| #![trigger w[j]] 0 <= j < w.len() implies {
        &&& has_model(post, w[j].model)
        &&& w[j].usage == tally_wrap(model_total(post, w[j].model))
        &&& w[j].members == model_members(post, w[j].model)
    } by {
        lemma_model_push(pre, r, w[j].model);
        let k = choose|k: int| 0 <= k < pre.len() && #[trigger] pre[k].model == ss[j].model;
        assert(post[k] == pre[k]);
        if j == p {
            lemma_tally_wrap_add(model_total(pre, ss[j].model), r.usage);
        } else {
            assert(w[j] == ss[j]);
            assert(summary_models(ss)[j] != summary_models(ss)[p]) by {
                if j < p {
                    assert(text_lt(summary_models(ss)[j], summary_models(ss)[p]));
                } else {
                    assert(text_lt(summary_models(ss)[p], summary_models(ss)[j]));
                }
                crate::text::lemma_text_lt_irreflexive(summary_models(ss)[p]);
            }
        }
    }
    assert forall|k: int| #![trigger post[k]] 0 <= k < post.len() implies summary_models(w).contains(post[k].model) by {
        if k < pre.len() {
            assert(post[k] == pre[k]);
        } else {
            assert(summary_models(w)[p] == post[k].model);
        }
    }
}

proof fn lemma_summary_insert(pre: Seq<RecordView>, r: RecordView, ss: Seq<SummaryView>, p: int, s: SummaryView)
    requires
        is_model_summary(pre, ss),
        0 <= p <= ss.len(),
        forall|j: int| 0 <= j < p ==> text_lt(#[trigger] summary_models(ss)[j], r.model),
        forall|j: int| p <= j < ss.len() ==> text_lt(r.model, #[trigger] summary_models(ss)[j]),
        0 <= r.usage.requests < modulus64(),
        0 <= r.usage.input < modulus64(),
        0 <= r.usage.output < modulus64(),
        0 <= r.usage.cache_read < modulus64(),
        0 <= r.usage.cache_creation < modulus64(),
        s == (SummaryView { model: r.model, usage: r.usage, members: seq![pre.len() as int] }),
    ensures
        is_model_summary(pre.push(r), ss.insert(p, s)),
{
    let post = pre.push(r);
    let w = ss.insert(p, s);
    let mv = summary_models(ss);
    let mw = summary_models(w);
    assert(mw =~= mv.insert(p, r.model));
    assert(!has_model(pre, r.model)) by {
        if has_model(pre, r.model) {
            let k = choose|k: int| 0 <= k < pre.len() && #[trigger] pre[k].model == r.model;
            assert(mv.contains(pre[k].model));
            let j = choose|j: int| 0 <= j < mv.len() && mv[j] == pre[k].model;
            crate::text::lemma_text_lt_irreflexive(r.model);
        }
    }
    lemma_model_absent(pre, r.model);
    assert forall|i: int, j: int| 0 <= i < j < mw.len() implies text_lt(#[trigger] mw[i], #[trigger] mw[j]) by {
        if i < p && j == p {
        } else if i < p && j > p {
            assert(mw[j] == mv[j - 1]);
            crate::text::lemma_text_lt_transitive(mv[i], r.model, mv[j - 1]);
        } else if i == p {
            assert(mw[j] == mv[j - 1]);
        } else if i > p {
            assert(mw[i] == mv[i - 1] && mw[j] == mv[j - 1]);
        }
    }
    assert forall|j: int| #![trigger w[j]] 0 <= j < w.len() implies {
        &&& has_model(post, w[j].model)
        &&& w[j].usage == tally_wrap(model_total(post, w[j].model))
        &&& w[j].members == model_members(post, w[j].model)
    } by {
        lemma_model_push(pre, r, w[j].model);
        if j == p {
            assert(post[pre.len() as int].model == w[j].model);
            lemma_wrap_small(r.usage.requests);
            lemma_wrap_small(r.usage.input);
            lemma_wrap_small(r.usage.output);
            lemma_wrap_small(r.usage.cache_read);
            lemma_wrap_small(r.usage.cache_creation);
            assert(seq![pre.len() as int] =~= Seq::<int>::empty().push(pre.len() as int));
        } else {
            let jj = if j < p { j } else { j - 1 };
            assert(w[j] == ss[jj]);
            assert(mv[jj] != r.model) by {
                crate::text::lemma_text_lt_irreflexive(r.model);
            }
            let k = choose|k: int| 0 <= k < pre.len() && #[trigger] pre[k].model == ss[jj].model;
            assert(post[k] == pre[k]);
        }
    }
    assert forall|k: int| #![trigger post[k]] 0 <= k < post.len() implies mw.contains(post[k].model) by {
        if k < pre.len() {
            assert(post[k] == pre[k]);
            let j = choose|j: int| 0 <= j < mv.len() && mv[j] == pre[k].model;
            if j < p {
                assert(mw[j] == mv[j]);
            } else {
                assert(mw[j + 1] == mv[j]);
            }
        } else {
            assert(mw[p] == post[k].model);
        }
    }
}

/// The requests of the summary lines together.
pub open spec fn summary_requests(ss: Seq<SummaryView>) -> int
    decreases ss.len(),
{
    if ss.len() == 0 {
        0
    } else {
        summary_requests(ss.drop_last()) + ss.last().usage.requests
    }
}

/// The sum over the summary lines of the requests that `rs` has of each
/// line's model.
pub open spec fn sum_model_requests(rs: Seq<RecordView>, ss: Seq<SummaryView>) -> int
    decreases ss.len(),
{
    if ss.len() == 0 {
        0
    } else {
        sum_model_requests(rs, ss.drop_last()) + model_total(rs, ss.last().model).requests
    }
}

/// No two summary lines share a model.
pub open spec fn models_distinct(ss: Seq<SummaryView>) -> bool {
    forall|i: int, j: int| #![trigger ss[i], ss[j]] 0 <= i < ss.len() && 0 <= j < ss.len() && i != j ==> ss[i].model != ss[j].model
}

proof fn lemma_sum_model_requests_push(rs: Seq<RecordView>, r: RecordView, ss: Seq<SummaryView>)
    requires
        models_distinct(ss),
    ensures
        sum_model_requests(rs.push(r), ss) == sum_model_requests(rs, ss) + if summary_models(ss).contains(r.model) {
            r.usage.requests
        } else {
            0
        },
    decreases ss.len(),
{
    if ss.len() > 0 {
        let g = ss.drop_last();
        assert forall|i: int, j: int| #![trigger g[i], g[j]] 0 <= i < g.len() && 0 <= j < g.len() && i != j implies g[i].model
            != g[j].model by {
            assert(g[i] == ss[i] && g[j] == ss[j]);
        }
        lemma_sum_model_requests_push(rs, r, g);
        lemma_model_push(rs, r, ss.last().model);
        let last = ss[ss.len() - 1];
        assert(ss.last() == last);
        if summary_models(g).contains(r.model) {
            let k = choose|k: int| 0 <= k < summary_models(g).len() && summary_models(g)[k] == r.model;
            assert(g[k] == ss[k]);
            assert(summary_models(ss)[k] == r.model);
            assert(ss[k].model != last.model);
        } else if last.model == r.model {
            assert(summary_models(ss)[ss.len() - 1] == r.model);
        } else {
            assert(!summary_models(ss).contains(r.model)) by {
                if summary_models(ss).contains(r.model) {
                    let k = choose|k: int| 0 <= k < summary_models(ss).len() && summary_models(ss)[k] == r.model;
                    if k < g.len() {
                        assert(g[k] == ss[k]);
                        assert(summary_models(g)[k] == r.model);
                    }
                }
            }
        }
    }
}

proof fn lemma_sum_model_requests_empty(ss: Seq<SummaryView>)
    ensures
        sum_model_requests(Seq::<RecordView>::empty(), ss) == 0,
    decreases ss.len(),
{
    if ss.len() > 0 {
        lemma_sum_model_requests_empty(ss.drop_last());
    }
}

proof fn lemma_sum_model_requests_total(rs: Seq<RecordView>, ss: Seq<SummaryView>)
    requires
        models_distinct(ss),
        forall|k: int| #![trigger rs[k]] 0 <= k < rs.len() ==> summary_models(ss).contains(rs[k].model),
    ensures
        sum_model_requests(rs, ss) == requests_total(rs),
    decreases rs.len(),
{
    if rs.len() == 0 {
        lemma_sum_model_requests_empty(ss);
        assert(rs =~= Seq::<RecordView>::empty());
    } else {
        let pre = rs.drop_last();
        let r = rs[rs.len() - 1];
        assert(rs.last() == r);
        assert(pre.push(r) =~= rs);
        assert forall|k: int| #![trigger pre[k]] 0 <= k < pre.len() implies summary_models(ss).contains(pre[k].model) by {
            assert(pre[k] == rs[k]);
        }
        lemma_sum_model_requests_total(pre, ss);
        lemma_sum_model_requests_push(pre, r, ss);
        lemma_model_push(pre, r, r.model);
        assert(summary_models(ss).contains(r.model));
    }
}

proof fn lemma_summary_requests_wrap(rs: Seq<RecordView>, ss: Seq<SummaryView>)
    requires
        forall|j: int| #![trigger ss[j]] 0 <= j < ss.len() ==> ss[j].usage.requests == wrap64(model_total(rs, ss[j].model).requests),
    ensures
        wrap64(summary_requests(ss)) == wrap64(sum_model_requests(rs, ss)),
    decreases ss.len(),
{
    if ss.len() > 0 {
        let g = ss.drop_last();
        assert forall|j: int| #![trigger g[j]] 0 <= j < g.len() implies g[j].usage.requests == wrap64(
            model_total(rs, g[j].model).requests,
        ) by {
            assert(g[j] == ss[j]);
        }
        lemma_summary_requests_wrap(rs, g);
        let last = ss[ss.len() - 1];
        assert(ss.last() == last);
        let t = model_total(rs, last.model).requests;
        vstd::arithmetic::div_mod::lemma_add_mod_noop_right(summary_requests(g), t, modulus64());
        super::lemma_wrap_add(summary_requests(g), wrap64(t));
        super::lemma_wrap_add(sum_model_requests(rs, g), t);
        super::lemma_wrap_add(summary_requests(g), t);
    }
}

/// The overall number of requests is the sum of the models' requests (in
/// 64 bits, as the counts are kept): the total line agrees with the lines
/// above it.
pub proof fn lemma_summary_total_is_sum(rs: Seq<RecordView>, ss: Seq<SummaryView>)
    requires
        is_model_summary(rs, ss),
    ensures
        wrap64(summary_requests(ss)) == wrap64(requests_total(rs)),
{
    assert forall|i: int, j: int| #![trigger ss[i], ss[j]] 0 <= i < ss.len() && 0 <= j < ss.len() && i != j implies ss[i].model
        != ss[j].model by {
        let m = summary_models(ss);
        assert(m[i] == ss[i].model && m[j] == ss[j].model);
        crate::text::lemma_text_lt_irreflexive(m[i]);
        if i < j {
            assert(text_lt(m[i], m[j]));
        } else {
            assert(text_lt(m[j], m[i]));
        }
    }
    lemma_sum_model_requests_total(rs, ss);
    lemma_summary_requests_wrap(rs, ss);
}

/// Copies of a list of positions, with `k` appended.
fn members_with(v: &Vec<usize>, k: usize) -> (r: Vec<usize>)
    ensures
        r@ == v@.push(k),
{
    let mut r: Vec<usize> = Vec::new();
    let mut i: usize = 0;
    while i < v.len()
        invariant
            i <= v.len(),
            r@ == v@.take(i as int),
        decreases v.len() - i,
    {
        r.push(v[i]);
        assert(v@.take(i + 1) =~= v@.take(i as int).push(v@[i as int]));
        i = i + 1;
    }
    assert(v@.take(v.len() as int) =~= v@);
    r.push(k);
    r
}

/// Summarises the entries of a period by model: one line per model, sorted
/// by name, with the model's counts added up and its entries' positions,
/// and the number of requests over all; sums are taken in 64-bit wrapping
/// arithmetic, as the release build of `+` does.
pub fn summarize_by_model(stats: &Vec<AggregatedStats>) -> (r: StatsSummary)
    ensures
        is_model_summary(stats_usage(stats_view(stats@)), summaries_view(r.models@)),
        r.total_requests == wrap64(requests_total(stats_usage(stats_view(stats@)))),
        r.total_input_tokens == wrap64(total_usage(stats_usage(stats_view(stats@))).input),
        r.total_output_tokens == wrap64(total_usage(stats_usage(stats_view(stats@))).output),
        r.total_cache_read_tokens == wrap64(total_usage(stats_usage(stats_view(stats@))).cache_read),
        r.total_cache_creation_tokens == wrap64(total_usage(stats_usage(stats_view(stats@))).cache_creation),
{
    let ghost rs = stats_usage(stats_view(stats@));
    let mut ss: Vec<ModelSummary> = Vec::new();
    let mut total: u64 = 0;
    let mut input: u64 = 0;
    let mut output: u64 = 0;
    let mut cache_read: u64 = 0;
    let mut cache_creation: u64 = 0;
    let mut k: usize = 0;
    proof {
        assert(rs.take(0) =~= Seq::<RecordView>::empty());
        assert(summary_models(summaries_view(ss@)) =~= Seq::<Seq<char>>::empty());
        vstd::arithmetic::div_mod::lemma_small_mod(0, modulus64() as nat);
    }
    while k < stats.len()
        invariant
            k <= stats.len(),
            rs == stats_usage(stats_view(stats@)),
            is_model_summary(rs.take(k as int), summaries_view(ss@)),
            total == wrap64(requests_total(rs.take(k as int))),
            input == wrap64(total_usage(rs.take(k as int)).input),
            output == wrap64(total_usage(rs.take(k as int)).output),
            cache_read == wrap64(total_usage(rs.take(k as int)).cache_read),
            cache_creation == wrap64(total_usage(rs.take(k as int)).cache_creation),
        decreases stats.len() - k,
    {
        let x = &stats[k].usage;
        let ghost pre = rs.take(k as int);
        let ghost old_ss = summaries_view(ss@);
        assert(rs.take(k + 1) =~= pre.push(x@));
        assert(rs[k as int] == x@);
        proof {
            lemma_model_push(pre, x@, x@.model);
            super::lemma_wrap_add(requests_total(pre), x@.usage.requests);
            assert(pre.push(x@).drop_last() =~= pre);
            let tu = total_usage(pre);
            super::lemma_wrap_add(tu.input, x@.usage.input);
            super::lemma_wrap_add(tu.output, x@.usage.output);
            super::lemma_wrap_add(tu.cache_read, x@.usage.cache_read);
            super::lemma_wrap_add(tu.cache_creation, x@.usage.cache_creation);
        }
        total = add_wrap(total, x.requests);
        input = add_wrap(input, x.input_tokens);
        output = add_wrap(output, x.output_tokens);
        cache_read = add_wrap(cache_read, x.cache_read_tokens);
        cache_creation = add_wrap(cache_creation, x.cache_creation_tokens);
        let mut p: usize = 0;
        while p < ss.len() && compare_text(ss[p].model.as_str(), x.model.as_str()) == Order::Less
            invariant
                p <= ss.len(),
                old_ss == summaries_view(ss@),
                forall|j: int| 0 <= j < p ==> text_lt(#[trigger] summary_models(old_ss)[j], x@.model),
            decreases ss.len() - p,
        {
            assert(summary_models(old_ss)[p as int] == ss@[p as int]@.model);
            p = p + 1;
        }
        if p < ss.len() && compare_text(ss[p].model.as_str(), x.model.as_str()) == Order::Equal {
            let cur = &ss[p];
            assert(old_ss[p as int] == cur@);
            let s = ModelSummary {
                model: cur.model.clone(),
                requests: add_wrap(cur.requests, x.requests),
                input_tokens: add_wrap(cur.input_tokens, x.input_tokens),
                output_tokens: add_wrap(cur.output_tokens, x.output_tokens),
                cache_read_tokens: add_wrap(cur.cache_read_tokens, x.cache_read_tokens),
                cache_creation_tokens: add_wrap(cur.cache_creation_tokens, x.cache_creation_tokens),
                members: members_with(&cur.members, k),
            };
            assert(s@.members =~= old_ss[p as int].members.push(k as int));
            proof {
                lemma_summary_add(pre, x@, old_ss, p as int, s@);
            }
            ss.set(p, s);
            assert(summaries_view(ss@) =~= old_ss.update(p as int, s@));
        } else {
            proof {
                let mv = summary_models(old_ss);
                if p < ss.len() {
                    assert(mv[p as int] == ss@[p as int]@.model);
                    crate::text::lemma_text_lt_total(mv[p as int], x@.model);
                }
                assert forall|j: int| p <= j < old_ss.len() implies text_lt(x@.model, #[trigger] mv[j]) by {
                    if j > p {
                        crate::text::lemma_text_lt_transitive(x@.model, mv[p as int], mv[j]);
                    }
                }
            }
            let mut members: Vec<usize> = Vec::new();
            members.push(k);
            let s = ModelSummary {
                model: x.model.clone(),
                requests: x.requests,
                input_tokens: x.input_tokens,
                output_tokens: x.output_tokens,
                cache_read_tokens: x.cache_read_tokens,
                cache_creation_tokens: x.cache_creation_tokens,
                members,
            };
            assert(s@.members =~= seq![k as int]);
            proof {
                lemma_summary_insert(pre, x@, old_ss, p as int, s@);
            }
            ss.insert(p, s);
            assert(summaries_view(ss@) =~= old_ss.insert(p as int, s@));
        }
        k = k + 1;
    }
    assert(rs.take(stats.len() as int) =~= rs);
    StatsSummary {
        models: ss,
        total_requests: total,
        total_input_tokens: input,
        total_output_tokens: output,
        total_cache_read_tokens: cache_read,
        total_cache_creation_tokens: cache_creation,
    }
}

/// What a report shows.
#[derive(PartialEq, Eq, Structural, Clone, Copy, Debug)]
pub enum ReportFormat {
    /// There is nothing to report.
    NoData,
    /// The entries as pretty-printed JSON.
    Json,
    /// The entries as a table.
    Table,
}

/// The report to show for `n_stats` entries asked for in `format`: nothing
/// to report when there are no entries, whatever the format; else the
/// format, which must be `json` or `table`.
pub fn report_format(n_stats: usize, format: &str) -> (r: Result<ReportFormat, CcsError>)
    ensures
        n_stats == 0 ==> r == Ok::<ReportFormat, CcsError>(ReportFormat::NoData),
        n_stats > 0 && format@ == "json"@ ==> r == Ok::<ReportFormat, CcsError>(ReportFormat::Json),
        n_stats > 0 && format@ == "table"@ ==> r == Ok::<ReportFormat, CcsError>(ReportFormat::Table),
        n_stats > 0 && format@ != "json"@ && format@ != "table"@ ==> r == Err::<ReportFormat, CcsError>(
            CcsError::UnsupportedFormat,
        ),
{
    if n_stats == 0 {
        return Ok(ReportFormat::NoData);
    }
    proof {
        reveal_strlit("json");
        reveal_strlit("table");
        assert("json"@[0] != "table"@[0]);
    }
    if crate::text::str_eq(format, "json") {
        Ok(ReportFormat::Json)
    } else if crate::text::str_eq(format, "table") {
        Ok(ReportFormat::Table)
    } else {
        Err(CcsError::UnsupportedFormat)
    }
}

} // verus!
