//! Which entry of the price table a model is billed at: its own, an
//! alias's, or that of its name without a trailing date.

use vstd::prelude::*;

use crate::text::{chars_of, push_char};

verus! {

/// The pieces of `s` between occurrences of `sep`, as `str::split` gives
/// them: one more piece than there are separators, empty pieces included.
pub open spec fn split(s: Seq<char>, sep: char) -> Seq<Seq<char>>
    decreases s.len(),
{
    if s.len() == 0 {
        seq![Seq::<char>::empty()]
    } else {
        let r = split(s.drop_last(), sep);
        if s.last() == sep {
            r.push(Seq::<char>::empty())
        } else {
            r.update(r.len() - 1, r.last().push(s.last()))
        }
    }
}

/// The pieces joined with `sep` between them, as `join` on a slice of
/// strings gives them.
pub open spec fn join(segs: Seq<Seq<char>>, sep: char) -> Seq<char>
    decreases segs.len(),
{
    if segs.len() == 0 {
        Seq::<char>::empty()
    } else if segs.len() == 1 {
        segs[0]
    } else {
        join(segs.drop_last(), sep) + seq![sep] + segs.last()
    }
}

/// `0` to `9`.
pub open spec fn is_ascii_digit(c: char) -> bool {
    '0' <= c <= '9'
}

/// A piece that reads as a date `YYYYMMDD` of the years 2000 to 2999:
/// eight ASCII digits, the first a `2`.
pub open spec fn is_date_piece(s: Seq<char>) -> bool {
    &&& s.len() == 8
    &&& forall|i: int| 0 <= i < s.len() ==> is_ascii_digit(#[trigger] s[i])
    &&& s[0] == '2'
}

/// How many of the last pieces are dates.
pub open spec fn trailing_dates(segs: Seq<Seq<char>>) -> nat
    decreases segs.len(),
{
    if segs.len() > 0 && is_date_piece(segs.last()) {
        1 + trailing_dates(segs.drop_last())
    } else {
        0
    }
}

/// A model name without its trailing date pieces, when it has some and
/// something is left: `deepseek-v4-pro-20250514` gives `deepseek-v4-pro`.
pub open spec fn normalized_model(m: Seq<char>) -> Option<Seq<char>> {
    let segs = split(m, '-');
    let end = segs.len() - trailing_dates(segs);
    if end == 0 || end == segs.len() {
        None
    } else {
        Some(join(segs.take(end), '-'))
    }
}

/// The views of a list of character vectors.
pub open spec fn pieces_view(v: Seq<Vec<char>>) -> Seq<Seq<char>> {
    v.map_values(|x: Vec<char>| x@)
}

proof fn lemma_split_nonempty(s: Seq<char>, sep: char)
    ensures
        split(s, sep).len() >= 1,
    decreases s.len(),
{
    if s.len() > 0 {
        lemma_split_nonempty(s.drop_last(), sep);
    }
}

/// The pieces of the characters `v`, split at `sep`.
pub fn split_chars(v: &Vec<char>, sep: char) -> (r: Vec<Vec<char>>)
    ensures
        pieces_view(r@) == split(v@, sep),
{
    let mut done: Vec<Vec<char>> = Vec::new();
    let mut cur: Vec<char> = Vec::new();
    let mut i: usize = 0;
    assert(v@.take(0) =~= Seq::<char>::empty());
    assert(pieces_view(done@).push(cur@) =~= split(v@.take(0), sep));
    while i < v.len()
        invariant
            i <= v.len(),
            pieces_view(done@).push(cur@) == split(v@.take(i as int), sep),
        decreases v.len() - i,
    {
        let c = v[i];
        let ghost t = v@.take(i + 1);
        assert(t.drop_last() =~= v@.take(i as int));
        assert(t.last() == c);
        proof {
            lemma_split_nonempty(v@.take(i as int), sep);
        }
        let ghost prev = pieces_view(done@).push(cur@);
        if c == sep {
            let finished = cur;
            done.push(finished);
            cur = Vec::new();
            assert(pieces_view(done@).push(cur@) =~= prev.push(Seq::<char>::empty()));
        } else {
            cur.push(c);
            assert(pieces_view(done@).push(cur@) =~= prev.update(prev.len() - 1, prev.last().push(c)));
        }
        i = i + 1;
    }
    assert(v@.take(v.len() as int) =~= v@);
    let ghost prev = pieces_view(done@).push(cur@);
    done.push(cur);
    assert(pieces_view(done@) =~= prev);
    done
}

/// Whether a piece reads as a date `YYYYMMDD` of the years 2000 to 2999.
pub fn is_date_segment(s: &Vec<char>) -> (r: bool)
    ensures
        r == is_date_piece(s@),
{
    if s.len() != 8 {
        return false;
    }
    let mut i: usize = 0;
    while i < 8
        invariant
            s.len() == 8,
            i <= 8,
            forall|j: int| 0 <= j < i ==> is_ascii_digit(#[trigger] s@[j]),
        decreases 8 - i,
    {
        if !('0' <= s[i] && s[i] <= '9') {
            assert(!is_ascii_digit(s@[i as int]));
            return false;
        }
        i = i + 1;
    }
    s[0] == '2'
}

/// Appends the characters `v` to `s`.
fn append_chars(s: &mut String, v: &Vec<char>)
    ensures
        final(s)@ == old(s)@ + v@,
{
    let mut i: usize = 0;
    while i < v.len()
        invariant
            i <= v.len(),
            s@ == old(s)@ + v@.take(i as int),
        decreases v.len() - i,
    {
        push_char(s, v[i]);
        assert(old(s)@ + v@.take(i + 1) =~= old(s)@ + v@.take(i as int) + seq![v@[i as int]]);
        i = i + 1;
    }
    assert(v@.take(v.len() as int) =~= v@);
}

/// The first `end` pieces joined with `sep`.
pub fn join_pieces(segs: &Vec<Vec<char>>, end: usize, sep: char) -> (r: String)
    requires
        end <= segs.len(),
    ensures
        r@ == join(pieces_view(segs@).take(end as int), sep),
{
    let ghost pv = pieces_view(segs@);
    let mut s = String::new();
    let mut j: usize = 0;
    assert(pv.take(0) =~= Seq::<Seq<char>>::empty());
    while j < end
        invariant
            j <= end <= segs.len(),
            pv == pieces_view(segs@),
            s@ == join(pv.take(j as int), sep),
        decreases end - j,
    {
        assert(pv.take(j + 1).drop_last() =~= pv.take(j as int));
        assert(pv.take(j + 1).last() == segs@[j as int]@);
        if j > 0 {
            push_char(&mut s, sep);
        } else {
            assert(s@ =~= Seq::<char>::empty());
        }
        append_chars(&mut s, &segs[j]);
        assert(s@ =~= join(pv.take(j + 1), sep));
        j = j + 1;
    }
    s
}

/// Strips the trailing date pieces of a model name, when it has some and
/// something is left.
pub fn normalize_model_name(model: &str) -> (r: Option<String>)
    ensures
        match normalized_model(model@) {
            Some(n) => r is Some && r->0@ == n,
            None => r is None,
        },
{
    let v = chars_of(model);
    let segs = split_chars(&v, '-');
    let ghost pv = pieces_view(segs@);
    let n = segs.len();
    let mut end = n;
    assert(pv.take(n as int) =~= pv);
    while end > 0 && is_date_segment(&segs[end - 1])
        invariant
            end <= n == segs.len(),
            pv == pieces_view(segs@),
            pv.len() - trailing_dates(pv) == end - trailing_dates(pv.take(end as int)),
        decreases end,
    {
        let ghost t = pv.take(end as int);
        assert(t.drop_last() =~= pv.take(end - 1));
        assert(t.last() == segs@[end - 1]@);
        end = end - 1;
    }
    proof {
        let t = pv.take(end as int);
        if end > 0 {
            assert(t.last() == segs@[end - 1]@);
        }
    }
    if end == 0 || end == n {
        return None;
    }
    Some(join_pieces(&segs, end, '-'))
}

/// Joining the pieces of a split gives the string back.
pub proof fn lemma_join_split(s: Seq<char>, sep: char)
    ensures
        join(split(s, sep), sep) == s,
    decreases s.len(),
{
    if s.len() > 0 {
        let r = split(s.drop_last(), sep);
        lemma_join_split(s.drop_last(), sep);
        lemma_split_nonempty(s.drop_last(), sep);
        if s.last() == sep {
            assert(r.push(Seq::<char>::empty()).drop_last() =~= r);
            assert(join(r, sep) + seq![sep] + Seq::<char>::empty() =~= s);
        } else {
            let r2 = r.update(r.len() - 1, r.last().push(s.last()));
            if r.len() == 1 {
                assert(join(r2, sep) =~= s);
            } else {
                assert(r2.drop_last() =~= r.drop_last());
                assert(join(r2, sep) =~= join(r, sep).push(s.last()));
            }
        }
    } else {
        assert(split(s, sep)[0] =~= s);
    }
}

/// Joining two non-empty lists of pieces puts one separator between them.
pub proof fn lemma_join_append(a: Seq<Seq<char>>, b: Seq<Seq<char>>, sep: char)
    requires
        a.len() >= 1,
        b.len() >= 1,
    ensures
        join(a + b, sep) == join(a, sep) + seq![sep] + join(b, sep),
    decreases b.len(),
{
    if b.len() == 1 {
        assert((a + b).drop_last() =~= a);
        assert((a + b).last() == b[0]);
    } else {
        assert((a + b).drop_last() =~= a + b.drop_last());
        assert((a + b).last() == b.last());
        lemma_join_append(a, b.drop_last(), sep);
        assert(join(a + b, sep) =~= join(a, sep) + seq![sep] + join(b, sep));
    }
}

/// No piece of a split holds the separator.
pub proof fn lemma_split_pieces_free(s: Seq<char>, sep: char)
    ensures
        forall|i: int, j: int|
            0 <= i < split(s, sep).len() && 0 <= j < split(s, sep)[i].len() ==> #[trigger] split(s, sep)[i][j]
                != sep,
    decreases s.len(),
{
    if s.len() > 0 {
        lemma_split_pieces_free(s.drop_last(), sep);
        lemma_split_nonempty(s.drop_last(), sep);
    }
}

/// Extending a string by characters other than the separator extends its
/// last piece.
proof fn lemma_split_extend(y: Seq<char>, l: Seq<char>, sep: char)
    requires
        forall|j: int| 0 <= j < l.len() ==> #[trigger] l[j] != sep,
    ensures
        split(y + l, sep) == split(y, sep).update(split(y, sep).len() - 1, split(y, sep).last() + l),
    decreases l.len(),
{
    lemma_split_nonempty(y, sep);
    if l.len() == 0 {
        assert(y + l =~= y);
        assert(split(y, sep).last() + l =~= split(y, sep).last());
        assert(split(y, sep).update(split(y, sep).len() - 1, split(y, sep).last()) =~= split(y, sep));
    } else {
        lemma_split_extend(y, l.drop_last(), sep);
        assert((y + l).drop_last() =~= y + l.drop_last());
        assert((y + l).last() == l.last());
        let r = split(y, sep);
        let r1 = split(y + l.drop_last(), sep);
        assert(l.last() == l[l.len() - 1]);
        assert(l.last() != sep);
        assert(r1 == r.update(r.len() - 1, r.last() + l.drop_last()));
        assert(r1.len() == r.len());
        assert(r1.last() == r.last() + l.drop_last());
        assert((r.last() + l.drop_last()).push(l.last()) =~= r.last() + l);
        assert(split(y + l, sep) =~= r.update(r.len() - 1, r.last() + l));
    }
}

/// Splitting a join of pieces free of the separator gives the pieces back.
pub proof fn lemma_split_join(x: Seq<Seq<char>>, sep: char)
    requires
        x.len() >= 1,
        forall|i: int, j: int| 0 <= i < x.len() && 0 <= j < x[i].len() ==> #[trigger] x[i][j] != sep,
    ensures
        split(join(x, sep), sep) == x,
    decreases x.len(),
{
    if x.len() == 1 {
        lemma_split_extend(Seq::<char>::empty(), x[0], sep);
        assert(Seq::<char>::empty() + x[0] =~= x[0]);
        assert(split(Seq::<char>::empty(), sep).last() + x[0] =~= x[0]);
        assert(split(join(x, sep), sep) =~= x);
    } else {
        let y = join(x.drop_last(), sep) + seq![sep];
        lemma_split_join(x.drop_last(), sep);
        assert(y.drop_last() =~= join(x.drop_last(), sep));
        assert(split(y, sep) == x.drop_last().push(Seq::<char>::empty()));
        lemma_split_extend(y, x.last(), sep);
        assert(Seq::<char>::empty() + x.last() =~= x.last());
        assert(split(join(x, sep), sep) =~= x);
    }
}

/// The last `trailing_dates` pieces are dates, and the piece before them,
/// if any, is not.
proof fn lemma_trailing_dates(segs: Seq<Seq<char>>)
    ensures
        trailing_dates(segs) <= segs.len(),
        forall|i: int| segs.len() - trailing_dates(segs) <= i < segs.len() ==> is_date_piece(#[trigger] segs[i]),
        segs.len() > trailing_dates(segs) ==> !is_date_piece(segs[segs.len() - trailing_dates(segs) - 1]),
    decreases segs.len(),
{
    if segs.len() > 0 && is_date_piece(segs.last()) {
        lemma_trailing_dates(segs.drop_last());
        assert forall|i: int| segs.len() - trailing_dates(segs) <= i < segs.len() implies is_date_piece(
            #[trigger] segs[i],
        ) by {
            if i < segs.len() - 1 {
                assert(segs.drop_last()[i] == segs[i]);
            }
        }
        if segs.len() > trailing_dates(segs) {
            assert(segs.drop_last()[segs.len() - trailing_dates(segs) - 1] == segs[segs.len()
                - trailing_dates(segs) - 1]);
        }
    }
}

/// Normalising only strips a suffix that starts with `-`: the normalised
/// name is a proper prefix of the model name, followed there by `-`.
pub proof fn lemma_normalized_is_prefix(m: Seq<char>)
    requires
        normalized_model(m) is Some,
    ensures
        normalized_model(m)->0.len() < m.len(),
        m.take(normalized_model(m)->0.len() as int) == normalized_model(m)->0,
        m[normalized_model(m)->0.len() as int] == '-',
{
    let segs = split(m, '-');
    lemma_trailing_dates(segs);
    let end = segs.len() - trailing_dates(segs);
    lemma_join_split(m, '-');
    assert(segs =~= segs.take(end) + segs.skip(end));
    lemma_join_append(segs.take(end), segs.skip(end), '-');
    let n = join(segs.take(end), '-');
    assert(m == n + seq!['-'] + join(segs.skip(end), '-'));
    assert(m.take(n.len() as int) =~= n);
}

/// A normalised name has no trailing date left: normalising it again
/// finds nothing to strip.
pub proof fn lemma_normalized_is_stable(m: Seq<char>)
    requires
        normalized_model(m) is Some,
    ensures
        normalized_model(normalized_model(m)->0) is None,
{
    let segs = split(m, '-');
    lemma_trailing_dates(segs);
    let end = segs.len() - trailing_dates(segs);
    let x = segs.take(end);
    lemma_split_pieces_free(m, '-');
    assert forall|i: int, j: int| 0 <= i < x.len() && 0 <= j < x[i].len() implies #[trigger] x[i][j] != '-' by {
        assert(x[i] == segs[i]);
    }
    lemma_split_join(x, '-');
    lemma_trailing_dates(segs);
    assert(x.last() == segs[end - 1]);
    assert(trailing_dates(x) == 0);
}

/// A name under which a model is also known in the price table.
pub struct Alias {
    /// The model name as it appears in the logs.
    pub from: String,
    /// The name of its entry in the price table.
    pub to: String,
}

/// The price table as the accounting needs it: the model names that have
/// a price, and the aliases. The prices themselves stay with the caller,
/// keyed by these names.
pub struct ModelPricing {
    priced: Vec<String>,
    aliases: Vec<Alias>,
}

/// What a `ModelPricing` holds, as mathematical values.
pub struct PricingView {
    pub priced: Seq<Seq<char>>,
    pub aliases: Seq<(Seq<char>, Seq<char>)>,
}

impl View for ModelPricing {
    type V = PricingView;

    closed spec fn view(&self) -> PricingView {
        PricingView {
            priced: self.priced@.map_values(|s: String| s@),
            aliases: self.aliases@.map_values(|a: Alias| (a.from@, a.to@)),
        }
    }
}

/// The entry that the first alias of `m` points to. The aliases read from
/// the price file come from a map and so name each model at most once;
/// `lemma_alias_target_distinct` says what the lookup is then.
pub open spec fn alias_target(aliases: Seq<(Seq<char>, Seq<char>)>, m: Seq<char>) -> Option<Seq<char>>
    decreases aliases.len(),
{
    if aliases.len() == 0 {
        None
    } else {
        match alias_target(aliases.drop_last(), m) {
            Some(t) => Some(t),
            None => if aliases.last().0 == m {
                Some(aliases.last().1)
            } else {
                None
            },
        }
    }
}

/// When no two aliases share a name (as when they are read from a map),
/// the alias found for `m` is its only one: `alias_target` gives `t`
/// exactly when the alias `m -> t` is in the list.
pub proof fn lemma_alias_target_distinct(al: Seq<(Seq<char>, Seq<char>)>, m: Seq<char>, t: Seq<char>)
    requires
        forall|i: int, j: int| 0 <= i < al.len() && 0 <= j < al.len() && i != j ==> al[i].0 != al[j].0,
    ensures
        alias_target(al, m) == Some(t) <==> al.contains((m, t)),
    decreases al.len(),
{
    if al.len() > 0 {
        let rest = al.drop_last();
        assert forall|i: int, j: int| 0 <= i < rest.len() && 0 <= j < rest.len() && i != j implies rest[i].0 != rest[j].0 by {
            assert(rest[i] == al[i] && rest[j] == al[j]);
        }
        lemma_alias_target_distinct(rest, m, t);
        let last = al[al.len() - 1];
        assert(al.last() == last);
        if al.contains((m, t)) {
            let k = choose|k: int| 0 <= k < al.len() && al[k] == (m, t);
            if k < rest.len() {
                assert(rest[k] == al[k]);
                assert(rest.contains((m, t)));
            }
        }
        if rest.contains((m, t)) {
            let k = choose|k: int| 0 <= k < rest.len() && rest[k] == (m, t);
            assert(al[k] == rest[k]);
            assert(al[k].0 != last.0);
        }
        if alias_target(rest, m) is Some {
            let t2 = alias_target(rest, m)->0;
            lemma_alias_target_distinct(rest, m, t2);
            let k = choose|k: int| 0 <= k < rest.len() && rest[k] == (m, t2);
            assert(al[k] == rest[k]);
        }
    }
}

/// The price-table entry that model `m` is billed at: its own name, else
/// the target of its alias when that has a price, else its name without
/// the trailing date when that has a price; none when all three fail.
pub open spec fn pricing_key(p: PricingView, m: Seq<char>) -> Option<Seq<char>> {
    if p.priced.contains(m) {
        Some(m)
    } else if alias_target(p.aliases, m) is Some && p.priced.contains(alias_target(p.aliases, m)->0) {
        alias_target(p.aliases, m)
    } else if normalized_model(m) is Some && normalized_model(m)->0 != m && p.priced.contains(
        normalized_model(m)->0,
    ) {
        normalized_model(m)
    } else {
        None
    }
}

/// A model is always billed at an entry that has a price, and a model that
/// has a price of its own is billed at it.
pub proof fn lemma_pricing_key_is_priced(p: PricingView, m: Seq<char>)
    ensures
        pricing_key(p, m) matches Some(k) ==> p.priced.contains(k),
        p.priced.contains(m) ==> pricing_key(p, m) == Some(m),
{
}

/// A model that no alias names has no alias target.
proof fn lemma_alias_target_none(al: Seq<(Seq<char>, Seq<char>)>, m: Seq<char>)
    requires
        forall|j: int| 0 <= j < al.len() ==> #[trigger] al[j].0 != m,
    ensures
        alias_target(al, m) is None,
    decreases al.len(),
{
    if al.len() > 0 {
        let rest = al.drop_last();
        assert forall|j: int| 0 <= j < rest.len() implies #[trigger] rest[j].0 != m by {
            assert(rest[j] == al[j]);
        }
        lemma_alias_target_none(rest, m);
        assert(al.last() == al[al.len() - 1]);
    }
}

/// The alias target of `m` is what the first alias naming `m` points to.
pub proof fn lemma_alias_target_first(al: Seq<(Seq<char>, Seq<char>)>, m: Seq<char>, k: int)
    requires
        0 <= k < al.len(),
        al[k].0 == m,
        forall|j: int| 0 <= j < k ==> #[trigger] al[j].0 != m,
    ensures
        alias_target(al, m) == Some(al[k].1),
    decreases al.len(),
{
    let rest = al.drop_last();
    if k < al.len() - 1 {
        assert(rest[k] == al[k]);
        assert forall|j: int| 0 <= j < k implies #[trigger] rest[j].0 != m by {
            assert(rest[j] == al[j]);
        }
        lemma_alias_target_first(rest, m, k);
    } else {
        assert forall|j: int| 0 <= j < rest.len() implies #[trigger] rest[j].0 != m by {
            assert(rest[j] == al[j]);
        }
        lemma_alias_target_none(rest, m);
        assert(al.last() == al[k]);
    }
}

/// A model without any alias has no alias target; and one with an alias
/// target has an alias naming it that points there.
pub proof fn lemma_alias_target_exists(al: Seq<(Seq<char>, Seq<char>)>, m: Seq<char>)
    ensures
        (forall|j: int| 0 <= j < al.len() ==> #[trigger] al[j].0 != m) ==> alias_target(al, m) is None,
        alias_target(al, m) is Some ==> exists|k: int|
            0 <= k < al.len() && #[trigger] al[k] == (m, alias_target(al, m)->0),
    decreases al.len(),
{
    if forall|j: int| 0 <= j < al.len() ==> #[trigger] al[j].0 != m {
        lemma_alias_target_none(al, m);
    }
    if al.len() > 0 {
        let rest = al.drop_last();
        lemma_alias_target_exists(rest, m);
        if alias_target(rest, m) is Some {
            let t = alias_target(rest, m)->0;
            let k = choose|k: int| 0 <= k < rest.len() && #[trigger] rest[k] == (m, t);
            assert(al[k] == rest[k]);
        } else if alias_target(al, m) is Some {
            assert(al[al.len() - 1] == al.last());
        }
    }
}

/// The order of the lookup, stated over the table itself. Let alias `k`
/// be the first that names `m`:
/// - a model with a price of its own is billed at it, whatever its aliases
///   and its date;
/// - otherwise, when the target of alias `k` has a price, the model is
///   billed at that target, even when its name without the date has a
///   price too: the alias comes before the date heuristic.
pub proof fn lemma_pricing_alias_first(p: PricingView, m: Seq<char>, k: int)
    requires
        0 <= k < p.aliases.len(),
        p.aliases[k].0 == m,
        forall|j: int| 0 <= j < k ==> #[trigger] p.aliases[j].0 != m,
    ensures
        p.priced.contains(m) ==> pricing_key(p, m) == Some(m),
        !p.priced.contains(m) && p.priced.contains(p.aliases[k].1) ==> pricing_key(p, m) == Some(
            p.aliases[k].1,
        ),
{
    lemma_alias_target_first(p.aliases, m, k);
}

/// Without a price of its own and without any alias, a model is billed at
/// its name without the trailing date when that differs from the name and
/// has a price, and at nothing otherwise.
pub proof fn lemma_pricing_without_alias(p: PricingView, m: Seq<char>)
    requires
        !p.priced.contains(m),
        forall|j: int| 0 <= j < p.aliases.len() ==> #[trigger] p.aliases[j].0 != m,
    ensures
        pricing_key(p, m) == (if normalized_model(m) is Some && normalized_model(m)->0 != m
            && p.priced.contains(normalized_model(m)->0) {
            normalized_model(m)
        } else {
            None
        }),
{
    lemma_alias_target_none(p.aliases, m);
}

impl ModelPricing {
    /// A table with prices for the models `priced`, and the given aliases.
    pub fn new(priced: Vec<String>, aliases: Vec<Alias>) -> (p: ModelPricing)
        ensures
            p@.priced == priced@.map_values(|s: String| s@),
            p@.aliases == aliases@.map_values(|a: Alias| (a.from@, a.to@)),
    {
        ModelPricing { priced, aliases }
    }

    fn has_price(&self, m: &str) -> (r: bool)
        ensures
            r == self@.priced.contains(m@),
    {
        let key = m.to_owned();
        let mut i: usize = 0;
        while i < self.priced.len()
            invariant
                key@ == m@,
                i <= self.priced.len(),
                forall|j: int| 0 <= j < i ==> self@.priced[j] != m@,
            decreases self.priced.len() - i,
        {
            if self.priced[i] == key {
                assert(self@.priced[i as int] == m@);
                return true;
            }
            i = i + 1;
        }
        false
    }

    fn alias_of(&self, m: &str) -> (r: Option<&String>)
        ensures
            match alias_target(self@.aliases, m@) {
                Some(t) => r is Some && r->0@ == t,
                None => r is None,
            },
    {
        let key = m.to_owned();
        let ghost al = self@.aliases;
        let mut i: usize = 0;
        assert(al.take(0) =~= Seq::<(Seq<char>, Seq<char>)>::empty());
        while i < self.aliases.len()
            invariant
                key@ == m@,
                i <= self.aliases.len(),
                al == self@.aliases,
                alias_target(al.take(i as int), m@) is None,
            decreases self.aliases.len() - i,
        {
            assert(al.take(i + 1).drop_last() =~= al.take(i as int));
            if self.aliases[i].from == key {
                assert(alias_target(al.take(i + 1), m@) == Some(self.aliases@[i as int].to@));
                proof {
                    lemma_alias_target_prefix(al, m@, i + 1);
                }
                return Some(&self.aliases[i].to);
            }
            i = i + 1;
        }
        assert(al.take(i as int) =~= al);
        None
    }

    /// The price-table entry that `model` is billed at.
    pub fn get(&self, model: &str) -> (r: Option<String>)
        ensures
            match pricing_key(self@, model@) {
                Some(k) => r is Some && r->0@ == k,
                None => r is None,
            },
    {
        if self.has_price(model) {
            return Some(model.to_owned());
        }
        if let Some(target) = self.alias_of(model) {
            if self.has_price(target.as_str()) {
                return Some(target.clone());
            }
        }
        if let Some(normalized) = normalize_model_name(model) {
            if !crate::text::str_eq(normalized.as_str(), model) {
                if self.has_price(normalized.as_str()) {
                    return Some(normalized);
                }
            }
        }
        None
    }
}

/// Once the first alias of `m` is found in a prefix, longer prefixes find
/// the same one.
proof fn lemma_alias_target_prefix(al: Seq<(Seq<char>, Seq<char>)>, m: Seq<char>, k: int)
    requires
        0 <= k <= al.len(),
        alias_target(al.take(k), m) is Some,
    ensures
        alias_target(al, m) == alias_target(al.take(k), m),
    decreases al.len() - k,
{
    if k < al.len() {
        assert(al.take(k + 1).drop_last() =~= al.take(k));
        lemma_alias_target_prefix(al, m, k + 1);
    } else {
        assert(al.take(k) =~= al);
    }
}

} // verus!
