//! Gathering the usage of all session logs, and pricing it.

use vstd::prelude::*;

use super::pricing::{pricing_key, ModelPricing};
use super::session::SessionParseResult;
use super::{is_grouping, merge_records, records_view, CostRecord, RecordView};
use crate::text::{compare_text, text_lt, Order};

verus! {

/// The modulus of `usize` arithmetic.
pub open spec fn modulus_usize() -> int {
    usize::MAX + 1
}

/// `x` reduced to the width of `usize`, as wrapping addition gives it.
pub open spec fn wrap_usize(x: int) -> int {
    x % modulus_usize()
}

/// `a + b` in wrapping `usize` arithmetic.
pub fn add_wrap_usize(a: usize, b: usize) -> (r: usize)
    ensures
        r == wrap_usize(a + b),
{
    let r = a.wrapping_add(b);
    proof {
        if a + b > usize::MAX {
            vstd::arithmetic::div_mod::lemma_fundamental_div_mod_converse(
                a + b,
                modulus_usize(),
                1,
                a + b - modulus_usize(),
            );
        } else {
            vstd::arithmetic::div_mod::lemma_small_mod((a + b) as nat, modulus_usize() as nat);
        }
    }
    r
}

/// What scanning the session logs gives, before pricing.
pub struct ScanResult {
    /// The usage records of all logs, log after log.
    pub records: Vec<CostRecord>,
    /// Lines that are not blank, over all logs.
    pub total_lines: usize,
    /// Malformed lines, over all logs.
    pub skipped_lines: usize,
    /// Logs that could not be read.
    pub failed_files: usize,
}

/// The records of the logs that were read, log after log.
pub open spec fn scan_records(results: Seq<Option<SessionParseResult>>) -> Seq<RecordView>
    decreases results.len(),
{
    if results.len() == 0 {
        Seq::<RecordView>::empty()
    } else {
        scan_records(results.drop_last()) + match results.last() {
            Some(r) => records_view(r.records@),
            None => Seq::<RecordView>::empty(),
        }
    }
}

/// The sum of the line counts of the logs that were read.
pub open spec fn scan_total_lines(results: Seq<Option<SessionParseResult>>) -> int
    decreases results.len(),
{
    if results.len() == 0 {
        0
    } else {
        scan_total_lines(results.drop_last()) + match results.last() {
            Some(r) => r.total_lines as int,
            None => 0,
        }
    }
}

/// The sum of the malformed-line counts of the logs that were read.
pub open spec fn scan_skipped_lines(results: Seq<Option<SessionParseResult>>) -> int
    decreases results.len(),
{
    if results.len() == 0 {
        0
    } else {
        scan_skipped_lines(results.drop_last()) + match results.last() {
            Some(r) => r.skipped_lines as int,
            None => 0,
        }
    }
}

/// How many logs could not be read.
pub open spec fn scan_failed(results: Seq<Option<SessionParseResult>>) -> nat
    decreases results.len(),
{
    if results.len() == 0 {
        0
    } else {
        scan_failed(results.drop_last()) + if results.last() is None {
            1nat
        } else {
            0nat
        }
    }
}

/// Appends copies of `src` to `dst`.
pub fn extend_records(dst: &mut Vec<CostRecord>, src: &Vec<CostRecord>)
    ensures
        records_view(final(dst)@) == records_view(old(dst)@) + records_view(src@),
{
    let mut i: usize = 0;
    while i < src.len()
        invariant
            i <= src.len(),
            records_view(dst@) == records_view(old(dst)@) + records_view(src@).take(i as int),
        decreases src.len() - i,
    {
        let ghost prev = records_view(dst@);
        dst.push(src[i].clone());
        assert(records_view(dst@) =~= prev.push(src@[i as int]@));
        assert(records_view(src@).take(i + 1) =~= records_view(src@).take(i as int).push(src@[i as int]@));
        assert(records_view(dst@) =~= records_view(old(dst)@) + records_view(src@).take(i + 1));
        i = i + 1;
    }
    assert(records_view(src@).take(src.len() as int) =~= records_view(src@));
}

/// Gathers what reading each session log gave (none for a log that could
/// not be read): the records log after log, the line counts added up in
/// wrapping `usize` arithmetic, and the number of logs not read.
pub fn scan_session_results(results: &Vec<Option<SessionParseResult>>) -> (s: ScanResult)
    ensures
        records_view(s.records@) == scan_records(results@),
        s.total_lines == wrap_usize(scan_total_lines(results@)),
        s.skipped_lines == wrap_usize(scan_skipped_lines(results@)),
        s.failed_files == scan_failed(results@),
{
    let mut records: Vec<CostRecord> = Vec::new();
    let mut total: usize = 0;
    let mut skipped: usize = 0;
    let mut failed: usize = 0;
    let mut i: usize = 0;
    assert(results@.take(0) =~= Seq::<Option<SessionParseResult>>::empty());
    assert(records_view(records@) =~= Seq::<RecordView>::empty());
    proof {
        vstd::arithmetic::div_mod::lemma_small_mod(0, modulus_usize() as nat);
    }
    while i < results.len()
        invariant
            i <= results.len(),
            records_view(records@) == scan_records(results@.take(i as int)),
            total == wrap_usize(scan_total_lines(results@.take(i as int))),
            skipped == wrap_usize(scan_skipped_lines(results@.take(i as int))),
            failed == scan_failed(results@.take(i as int)),
            failed <= i,
        decreases results.len() - i,
    {
        let ghost t = results@.take(i + 1);
        assert(t.drop_last() =~= results@.take(i as int));
        assert(t.last() == results@[i as int]);
        match &results[i] {
            Some(r) => {
                extend_records(&mut records, &r.records);
                proof {
                    super::lemma_wrap_add_usize(scan_total_lines(results@.take(i as int)), r.total_lines as int);
                    super::lemma_wrap_add_usize(scan_skipped_lines(results@.take(i as int)), r.skipped_lines as int);
                }
                total = add_wrap_usize(total, r.total_lines);
                skipped = add_wrap_usize(skipped, r.skipped_lines);
            },
            None => {
                assert(scan_records(t) =~= scan_records(results@.take(i as int)));
                failed = failed + 1;
            },
        }
        i = i + 1;
    }
    assert(results@.take(results.len() as int) =~= results@);
    ScanResult { records, total_lines: total, skipped_lines: skipped, failed_files: failed }
}

/// Usage of one model on one day, with the price-table entry it is billed
/// at (none when the model has no price, which costs nothing).
pub struct AggregatedStats {
    pub usage: CostRecord,
    pub pricing_key: Option<String>,
}

/// What an `AggregatedStats` holds, as mathematical values.
pub struct StatsView {
    pub usage: RecordView,
    pub pricing_key: Option<Seq<char>>,
}

impl View for AggregatedStats {
    type V = StatsView;

    open spec fn view(&self) -> StatsView {
        StatsView { usage: self.usage@, pricing_key: crate::config::opt_view(self.pricing_key) }
    }
}

impl Clone for AggregatedStats {
    fn clone(&self) -> (r: Self)
        ensures
            r == *self,
    {
        AggregatedStats {
            usage: self.usage.clone(),
            pricing_key: crate::config::copy_opt_string(&self.pricing_key),
        }
    }
}

/// The views of a list of statistics.
pub open spec fn stats_view(s: Seq<AggregatedStats>) -> Seq<StatsView> {
    s.map_values(|x: AggregatedStats| x@)
}

/// The usage parts of a list of statistics.
pub open spec fn stats_usage(s: Seq<StatsView>) -> Seq<RecordView> {
    s.map_values(|x: StatsView| x.usage)
}

/// The views of a list of strings.
pub open spec fn names_view(v: Seq<String>) -> Seq<Seq<char>> {
    v.map_values(|s: String| s@)
}

/// Strictly ascending in the order of `text_lt`, hence without repetition.
pub open spec fn strictly_sorted(v: Seq<Seq<char>>) -> bool {
    forall|i: int, j: int| 0 <= i < j < v.len() ==> text_lt(#[trigger] v[i], #[trigger] v[j])
}

/// Inserts `s` into a strictly sorted list, unless it is there already.
pub fn insert_sorted(list: &mut Vec<String>, s: String)
    requires
        strictly_sorted(names_view(old(list)@)),
    ensures
        strictly_sorted(names_view(final(list)@)),
        forall|m: Seq<char>| names_view(final(list)@).contains(m) <==> (names_view(old(list)@).contains(m) || m == s@),
{
    let ghost v = names_view(list@);
    let mut p: usize = 0;
    while p < list.len() && compare_text(list[p].as_str(), s.as_str()) == Order::Less
        invariant
            p <= list.len(),
            v == names_view(list@),
            forall|j: int| 0 <= j < p ==> text_lt(#[trigger] v[j], s@),
        decreases list.len() - p,
    {
        p = p + 1;
    }
    if p < list.len() && compare_text(list[p].as_str(), s.as_str()) == Order::Equal {
        assert(v[p as int] == s@);
        return;
    }
    proof {
        if p < list.len() {
            crate::text::lemma_text_lt_total(v[p as int], s@);
            assert(text_lt(s@, v[p as int]));
            assert forall|j: int| p <= j < v.len() implies text_lt(s@, #[trigger] v[j]) by {
                if j > p {
                    crate::text::lemma_text_lt_transitive(s@, v[p as int], v[j]);
                }
            }
        }
    }
    list.insert(p, s);
    let ghost w = names_view(list@);
    assert(w =~= v.insert(p as int, s@));
    assert forall|i: int, j: int| 0 <= i < j < w.len() implies text_lt(#[trigger] w[i], #[trigger] w[j]) by {
        if i < p && j == p {
        } else if i < p && j > p {
            assert(w[j] == v[j - 1]);
            crate::text::lemma_text_lt_transitive(v[i], s@, v[j - 1]);
        } else if i == p {
            assert(w[j] == v[j - 1]);
        } else if i > p {
            assert(w[i] == v[i - 1] && w[j] == v[j - 1]);
        }
    }
    assert forall|m: Seq<char>| w.contains(m) <==> (v.contains(m) || m == s@) by {
        if w.contains(m) {
            let k = choose|k: int| 0 <= k < w.len() && w[k] == m;
            if k < p {
                assert(v[k] == m);
            } else if k > p {
                assert(v[k - 1] == m);
            }
        }
        if v.contains(m) {
            let k = choose|k: int| 0 <= k < v.len() && v[k] == m;
            if k < p {
                assert(w[k] == m);
            } else {
                assert(w[k + 1] == m);
            }
        }
        if m == s@ {
            assert(w[p as int] == m);
        }
    }
}

/// The result of pricing grouped usage.
pub struct AggregateResult {
    /// One entry per day and model, with its price-table entry.
    pub stats: Vec<AggregatedStats>,
    /// The models that have no price, sorted, each once.
    pub unknown_models: Vec<String>,
}

/// Whether some entry of `stats` is of model `m` and has no price.
pub open spec fn unpriced_model(stats: Seq<StatsView>, m: Seq<char>) -> bool {
    exists|i: int| 0 <= i < stats.len() && #[trigger] stats[i].usage.model == m && stats[i].pricing_key is None
}

/// `stats` prices the usage of `records`: it groups them by day and model,
/// and each group carries the entry its model is billed at.
pub open spec fn priced_grouping(records: Seq<RecordView>, p: super::pricing::PricingView, stats: Seq<StatsView>) -> bool {
    &&& is_grouping(records, stats_usage(stats))
    &&& forall|i: int| 0 <= i < stats.len() ==> (#[trigger] stats[i]).pricing_key == pricing_key(p, stats[i].usage.model)
}

/// Groups records by day and model, finds the price-table entry of each
/// group's model, and lists the models that have none, sorted and each
/// once.
pub fn aggregate_with_cost(records: &Vec<CostRecord>, pricing: &ModelPricing) -> (r: AggregateResult)
    ensures
        priced_grouping(records_view(records@), pricing@, stats_view(r.stats@)),
        strictly_sorted(names_view(r.unknown_models@)),
        forall|m: Seq<char>| #[trigger] names_view(r.unknown_models@).contains(m) <==> unpriced_model(stats_view(r.stats@), m),
{
    let groups = merge_records(records);
    let ghost gv = records_view(groups@);
    let mut stats: Vec<AggregatedStats> = Vec::new();
    let mut unknown: Vec<String> = Vec::new();
    let mut i: usize = 0;
    while i < groups.len()
        invariant
            i <= groups.len(),
            gv == records_view(groups@),
            stats_usage(stats_view(stats@)) == gv.take(i as int),
            forall|j: int| 0 <= j < stats@.len() ==> (#[trigger] stats_view(stats@)[j]).pricing_key == pricing_key(
                pricing@,
                stats_view(stats@)[j].usage.model,
            ),
            strictly_sorted(names_view(unknown@)),
            forall|m: Seq<char>| #[trigger] names_view(unknown@).contains(m) <==> unpriced_model(stats_view(stats@), m),
        decreases groups.len() - i,
    {
        let g = groups[i].clone();
        let key = pricing.get(g.model.as_str());
        let ghost prev = stats_view(stats@);
        let ghost prev_unknown = names_view(unknown@);
        if key.is_none() {
            insert_sorted(&mut unknown, g.model.clone());
        }
        let entry = AggregatedStats { usage: g, pricing_key: key };
        stats.push(entry);
        proof {
            let now = stats_view(stats@);
            assert(now =~= prev.push(entry@));
            assert(stats_usage(now) =~= stats_usage(prev).push(gv[i as int]));
            assert(gv.take(i + 1) =~= gv.take(i as int).push(gv[i as int]));
            assert forall|m: Seq<char>| #[trigger] names_view(unknown@).contains(m) <==> unpriced_model(now, m) by {
                if unpriced_model(now, m) {
                    let k = choose|k: int| 0 <= k < now.len() && #[trigger] now[k].usage.model == m && now[k].pricing_key is None;
                    if k < prev.len() {
                        assert(prev[k] == now[k]);
                        assert(unpriced_model(prev, m));
                    }
                }
                if unpriced_model(prev, m) {
                    let k = choose|k: int| 0 <= k < prev.len() && #[trigger] prev[k].usage.model == m && prev[k].pricing_key is None;
                    assert(now[k] == prev[k]);
                }
                if key.is_none() && m == entry@.usage.model {
                    assert(now[prev.len() as int] == entry@);
                }
            }
        }
        i = i + 1;
    }
    assert(gv.take(groups.len() as int) =~= gv);
    AggregateResult { stats, unknown_models: unknown }
}

/// Two strictly sorted lists of the same strings are the same list.
pub proof fn lemma_strictly_sorted_unique(a: Seq<Seq<char>>, b: Seq<Seq<char>>)
    requires
        strictly_sorted(a),
        strictly_sorted(b),
        forall|m: Seq<char>| a.contains(m) <==> b.contains(m),
    ensures
        a == b,
    decreases a.len() + b.len(),
{
    if a.len() == 0 || b.len() == 0 {
        if a.len() > 0 {
            assert(a.contains(a[0]));
        }
        if b.len() > 0 {
            assert(b.contains(b[0]));
        }
        assert(a =~= b);
    } else {
        assert(a.contains(a[0]) && b.contains(b[0]));
        let j = choose|j: int| 0 <= j < b.len() && b[j] == a[0];
        let k = choose|k: int| 0 <= k < a.len() && a[k] == b[0];
        crate::text::lemma_text_lt_irreflexive(a[0]);
        crate::text::lemma_text_lt_irreflexive(b[0]);
        if j > 0 {
            assert(text_lt(b[0], b[j]));
            if k > 0 {
                assert(text_lt(a[0], a[k]));
                crate::text::lemma_text_lt_total(a[0], b[0]);
            }
        }
        assert(a[0] == b[0]);
        let a1 = a.drop_first();
        let b1 = b.drop_first();
        assert forall|m: Seq<char>| a1.contains(m) <==> b1.contains(m) by {
            if a1.contains(m) {
                let p = choose|p: int| 0 <= p < a1.len() && a1[p] == m;
                assert(a[p + 1] == m && text_lt(a[0], a[p + 1]));
                assert(b.contains(m));
                let q = choose|q: int| 0 <= q < b.len() && b[q] == m;
                assert(q != 0);
                assert(b1[q - 1] == m);
            }
            if b1.contains(m) {
                let p = choose|p: int| 0 <= p < b1.len() && b1[p] == m;
                assert(b[p + 1] == m && text_lt(b[0], b[p + 1]));
                assert(a.contains(m));
                let q = choose|q: int| 0 <= q < a.len() && a[q] == m;
                assert(q != 0);
                assert(a1[q - 1] == m);
            }
        }
        assert forall|x: int, y: int| 0 <= x < y < a1.len() implies text_lt(#[trigger] a1[x], #[trigger] a1[y]) by {
            assert(a1[x] == a[x + 1] && a1[y] == a[y + 1]);
        }
        assert forall|x: int, y: int| 0 <= x < y < b1.len() implies text_lt(#[trigger] b1[x], #[trigger] b1[y]) by {
            assert(b1[x] == b[x + 1] && b1[y] == b[y + 1]);
        }
        lemma_strictly_sorted_unique(a1, b1);
        assert(a =~= seq![a[0]] + a1);
        assert(b =~= seq![b[0]] + b1);
    }
}

/// Two lists without repetition that hold the same elements are
/// permutations of each other.
pub proof fn lemma_same_elements_permutation<A>(a: Seq<A>, b: Seq<A>)
    requires
        a.no_duplicates(),
        b.no_duplicates(),
        forall|x: A| a.contains(x) <==> b.contains(x),
    ensures
        a.to_multiset() == b.to_multiset(),
{
    broadcast use vstd::multiset::group_multiset_axioms;

    a.lemma_multiset_has_no_duplicates();
    b.lemma_multiset_has_no_duplicates();
    assert forall|x: A| a.to_multiset().count(x) == b.to_multiset().count(x) by {
        vstd::seq_lib::to_multiset_contains(a, x);
        vstd::seq_lib::to_multiset_contains(b, x);
    }
    assert(a.to_multiset() =~= b.to_multiset());
}

/// In a priced grouping, every entry is the one that the records give its
/// day and model.
proof fn lemma_entry_determined(rs: Seq<RecordView>, p: super::pricing::PricingView, st: Seq<StatsView>, i: int)
    requires
        priced_grouping(rs, p, st),
        0 <= i < st.len(),
    ensures
        st[i] == (StatsView {
            usage: RecordView {
                date: st[i].usage.date,
                model: st[i].usage.model,
                usage: super::tally_wrap(super::key_total(rs, st[i].usage.date, st[i].usage.model)),
            },
            pricing_key: pricing_key(p, st[i].usage.model),
        }),
        super::has_key(rs, st[i].usage.date, st[i].usage.model),
{
    assert(stats_usage(st)[i] == st[i].usage);
}

/// A priced grouping has no entry twice.
proof fn lemma_priced_grouping_no_duplicates(rs: Seq<RecordView>, p: super::pricing::PricingView, st: Seq<StatsView>)
    requires
        priced_grouping(rs, p, st),
    ensures
        st.no_duplicates(),
{
    let g = stats_usage(st);
    assert forall|i: int, j: int| 0 <= i < st.len() && 0 <= j < st.len() && i != j implies st[i] != st[j] by {
        assert(g[i] == st[i].usage && g[j] == st[j].usage);
        assert(!super::same_key(g[i], g[j].date, g[j].model));
    }
}

/// Pricing grouped usage does not depend on the order of the records:
/// whatever order the records come in, the entries are the same up to
/// order, and the list of models without a price is the same.
pub proof fn lemma_aggregate_order_independent(
    rs1: Seq<RecordView>,
    rs2: Seq<RecordView>,
    p: super::pricing::PricingView,
    s1: Seq<StatsView>,
    s2: Seq<StatsView>,
    u1: Seq<Seq<char>>,
    u2: Seq<Seq<char>>,
)
    requires
        rs1.to_multiset() == rs2.to_multiset(),
        priced_grouping(rs1, p, s1),
        priced_grouping(rs2, p, s2),
        strictly_sorted(u1),
        strictly_sorted(u2),
        forall|m: Seq<char>| #[trigger] u1.contains(m) <==> unpriced_model(s1, m),
        forall|m: Seq<char>| #[trigger] u2.contains(m) <==> unpriced_model(s2, m),
    ensures
        s1.to_multiset() == s2.to_multiset(),
        u1 == u2,
{
    assert forall|x: StatsView| s1.contains(x) ==> s2.contains(x) by {
        if s1.contains(x) {
            let i = choose|i: int| 0 <= i < s1.len() && s1[i] == x;
            lemma_in_other_grouping(rs1, rs2, p, s1, s2, i);
        }
    }
    assert forall|x: StatsView| s2.contains(x) ==> s1.contains(x) by {
        if s2.contains(x) {
            let i = choose|i: int| 0 <= i < s2.len() && s2[i] == x;
            lemma_in_other_grouping(rs2, rs1, p, s2, s1, i);
        }
    }
    lemma_priced_grouping_no_duplicates(rs1, p, s1);
    lemma_priced_grouping_no_duplicates(rs2, p, s2);
    lemma_same_elements_permutation(s1, s2);
    assert forall|m: Seq<char>| u1.contains(m) <==> u2.contains(m) by {
        if unpriced_model(s1, m) {
            let k = choose|k: int| 0 <= k < s1.len() && #[trigger] s1[k].usage.model == m && s1[k].pricing_key is None;
            assert(s1.contains(s1[k]));
            let j = choose|j: int| 0 <= j < s2.len() && s2[j] == s1[k];
            assert(s2[j].usage.model == m);
        }
        if unpriced_model(s2, m) {
            let k = choose|k: int| 0 <= k < s2.len() && #[trigger] s2[k].usage.model == m && s2[k].pricing_key is None;
            assert(s2.contains(s2[k]));
            let j = choose|j: int| 0 <= j < s1.len() && s1[j] == s2[k];
            assert(s1[j].usage.model == m);
        }
    }
    lemma_strictly_sorted_unique(u1, u2);
}

/// An entry of one priced grouping is an entry of a priced grouping of the
/// same records in another order.
proof fn lemma_in_other_grouping(
    rs1: Seq<RecordView>,
    rs2: Seq<RecordView>,
    p: super::pricing::PricingView,
    s1: Seq<StatsView>,
    s2: Seq<StatsView>,
    i: int,
)
    requires
        rs1.to_multiset() == rs2.to_multiset(),
        priced_grouping(rs1, p, s1),
        priced_grouping(rs2, p, s2),
        0 <= i < s1.len(),
    ensures
        s2.contains(s1[i]),
{
    let d = s1[i].usage.date;
    let m = s1[i].usage.model;
    lemma_entry_determined(rs1, p, s1, i);
    super::lemma_has_key_permutation(rs1, rs2, d, m);
    super::lemma_key_total_permutation(rs1, rs2, d, m);
    let k = choose|k: int| 0 <= k < rs2.len() && #[trigger] super::same_key(rs2[k], d, m);
    let g2 = stats_usage(s2);
    assert(super::has_key(g2, rs2[k].date, rs2[k].model));
    let j = choose|j: int| 0 <= j < g2.len() && #[trigger] super::same_key(g2[j], rs2[k].date, rs2[k].model);
    lemma_entry_determined(rs2, p, s2, j);
    assert(g2[j] == s2[j].usage);
    assert(s2[j] == s1[i]);
}

/// Scanning and pricing together: what the cost commands start from.
pub struct CollectResult {
    pub stats: Vec<AggregatedStats>,
    pub unknown_models: Vec<String>,
    pub total_lines: usize,
    pub skipped_lines: usize,
    pub failed_files: usize,
}

/// A warning about the scan.
pub enum CollectWarning {
    /// Some lines were malformed.
    SkippedLines { total: usize, skipped: usize },
    /// Some logs could not be read.
    FailedFiles(usize),
    /// Some models have no price and were counted as free.
    UnknownModels(Vec<String>),
}

impl CollectResult {
    /// An empty result: what collecting gives when there are no logs.
    pub fn empty() -> (r: CollectResult)
        ensures
            r.stats@.len() == 0,
            r.unknown_models@.len() == 0,
            r.total_lines == 0,
            r.skipped_lines == 0,
            r.failed_files == 0,
    {
        CollectResult { stats: Vec::new(), unknown_models: Vec::new(), total_lines: 0, skipped_lines: 0, failed_files: 0 }
    }

    /// The warnings to show after a scan: malformed lines, then unread
    /// logs, then models without a price, each only when there is some.
    pub fn warnings(&self) -> (w: Vec<CollectWarning>)
        ensures
            w@.len() == (if self.skipped_lines > 0 { 1int } else { 0int }) + (if self.failed_files > 0 {
                1int
            } else {
                0int
            }) + (if self.unknown_models@.len() > 0 {
                1int
            } else {
                0int
            }),
            self.skipped_lines > 0 ==> w@[0] == (CollectWarning::SkippedLines { total: self.total_lines, skipped: self.skipped_lines }),
            self.failed_files > 0 ==> w@[if self.skipped_lines > 0 { 1int } else { 0int }] == CollectWarning::FailedFiles(self.failed_files),
            self.unknown_models@.len() > 0 ==> (w@.last() matches CollectWarning::UnknownModels(ms) && names_view(ms@) == names_view(
                self.unknown_models@,
            )),
    {
        let mut w: Vec<CollectWarning> = Vec::new();
        if self.skipped_lines > 0 {
            w.push(CollectWarning::SkippedLines { total: self.total_lines, skipped: self.skipped_lines });
        }
        if self.failed_files > 0 {
            w.push(CollectWarning::FailedFiles(self.failed_files));
        }
        if self.unknown_models.len() > 0 {
            let ms = clone_names(&self.unknown_models);
            w.push(CollectWarning::UnknownModels(ms));
        }
        w
    }

    /// The models without a price that occur in `stats`, the entries of a
    /// period: the ones to warn about for that period, in sorted order.
    pub fn warn_unknown_models(&self, stats: &Vec<AggregatedStats>) -> (r: Vec<String>)
        ensures
            names_view(r@) == names_view(self.unknown_models@).filter(|m: Seq<char>| occurs_in(stats_view(stats@), m)),
    {
        active_unknown_models(&self.unknown_models, stats)
    }
}

/// Copies of a list of strings.
pub fn clone_names(v: &Vec<String>) -> (r: Vec<String>)
    ensures
        names_view(r@) == names_view(v@),
{
    let mut r: Vec<String> = Vec::new();
    let mut i: usize = 0;
    while i < v.len()
        invariant
            i <= v.len(),
            names_view(r@) == names_view(v@).take(i as int),
        decreases v.len() - i,
    {
        let ghost prev = names_view(r@);
        r.push(v[i].clone());
        assert(names_view(r@) =~= prev.push(v@[i as int]@));
        assert(names_view(v@).take(i + 1) =~= names_view(v@).take(i as int).push(v@[i as int]@));
        i = i + 1;
    }
    assert(names_view(v@).take(v.len() as int) =~= names_view(v@));
    r
}

/// Whether some entry of `stats` is of model `m`.
pub open spec fn occurs_in(stats: Seq<StatsView>, m: Seq<char>) -> bool {
    exists|i: int| 0 <= i < stats.len() && #[trigger] stats[i].usage.model == m
}

/// Whether some entry of `stats` is of model `m`.
fn model_occurs(stats: &Vec<AggregatedStats>, m: &String) -> (r: bool)
    ensures
        r == occurs_in(stats_view(stats@), m@),
{
    let mut i: usize = 0;
    while i < stats.len()
        invariant
            i <= stats.len(),
            forall|j: int| 0 <= j < i ==> (#[trigger] stats_view(stats@)[j]).usage.model != m@,
        decreases stats.len() - i,
    {
        if stats[i].usage.model == *m {
            assert(stats_view(stats@)[i as int].usage.model == m@);
            return true;
        }
        i = i + 1;
    }
    false
}

/// The names of `unknown` that are models of some entry of `stats`, in
/// their order.
pub fn active_unknown_models(unknown: &Vec<String>, stats: &Vec<AggregatedStats>) -> (r: Vec<String>)
    ensures
        names_view(r@) == names_view(unknown@).filter(|m: Seq<char>| occurs_in(stats_view(stats@), m)),
{
    let ghost pred = |m: Seq<char>| occurs_in(stats_view(stats@), m);
    let ghost uv = names_view(unknown@);
    let mut r: Vec<String> = Vec::new();
    let mut i: usize = 0;
    assert(uv.take(0) =~= Seq::<Seq<char>>::empty());
    while i < unknown.len()
        invariant
            i <= unknown.len(),
            uv == names_view(unknown@),
            pred == (|m: Seq<char>| occurs_in(stats_view(stats@), m)),
            names_view(r@) == uv.take(i as int).filter(pred),
        decreases unknown.len() - i,
    {
        proof {
            reveal_with_fuel(Seq::filter, 1);
        }
        assert(uv.take(i + 1).drop_last() =~= uv.take(i as int));
        assert(uv.take(i + 1).last() == unknown@[i as int]@);
        if model_occurs(stats, &unknown[i]) {
            let ghost prev = names_view(r@);
            r.push(unknown[i].clone());
            assert(names_view(r@) =~= prev.push(unknown@[i as int]@));
        }
        i = i + 1;
    }
    assert(uv.take(unknown.len() as int) =~= uv);
    r
}

/// Prices the scanned usage: groups, entries and unknown models from the
/// records, with the scan's counts.
pub fn collect_stats(scan: &ScanResult, pricing: &ModelPricing) -> (r: CollectResult)
    ensures
        priced_grouping(records_view(scan.records@), pricing@, stats_view(r.stats@)),
        strictly_sorted(names_view(r.unknown_models@)),
        forall|m: Seq<char>| #[trigger] names_view(r.unknown_models@).contains(m) <==> unpriced_model(stats_view(r.stats@), m),
        r.total_lines == scan.total_lines,
        r.skipped_lines == scan.skipped_lines,
        r.failed_files == scan.failed_files,
{
    let agg = aggregate_with_cost(&scan.records, pricing);
    CollectResult {
        stats: agg.stats,
        unknown_models: agg.unknown_models,
        total_lines: scan.total_lines,
        skipped_lines: scan.skipped_lines,
        failed_files: scan.failed_files,
    }
}

} // verus!
