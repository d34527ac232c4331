//! The manifest: one `name,offset` entry per line, `//` comment lines skipped.
use vstd::prelude::*;

verus! {

/// A manifest entry in the terms of the contracts: its name and raw offset.
pub type EntryView = (Seq<char>, i64);

pub open spec fn entry_view(e: (String, i64)) -> EntryView {
    (e.0@, e.1)
}

pub open spec fn entries_view(s: Seq<(String, i64)>) -> Seq<EntryView> {
    s.map_values(|e: (String, i64)| entry_view(e))
}

pub open spec fn lines_view(s: Seq<String>) -> Seq<Seq<char>> {
    s.map_values(|l: String| l@)
}

/// A line whose first two characters are `//`.
pub open spec fn is_comment(l: Seq<char>) -> bool {
    l.len() >= 2 && l[0] == '/' && l[1] == '/'
}

/// The first position at or after `i` that holds a comma, or the end.
pub open spec fn field_end(l: Seq<char>, i: int) -> int
    decreases l.len() - i,
{
    if 0 <= i < l.len() && l[i] != ',' {
        field_end(l, i + 1)
    } else {
        i
    }
}

pub open spec fn is_digit_char(c: char) -> bool {
    '0' <= c <= '9'
}

/// The value of a run of decimal digits.
pub open spec fn digits_value(t: Seq<char>) -> nat
    decreases t.len(),
{
    if t.len() == 0 {
        0
    } else {
        digits_value(t.drop_last()) * 10 + (t.last() as int - 48) as nat
    }
}

pub open spec fn all_digit_chars(t: Seq<char>) -> bool {
    forall|i: int| 0 <= i < t.len() ==> is_digit_char(#[trigger] t[i])
}

/// `t` without its leading sign, if any.
pub open spec fn unsigned_part(t: Seq<char>) -> Seq<char> {
    if t.len() > 0 && (t[0] == '-' || t[0] == '+') {
        t.skip(1)
    } else {
        t
    }
}

/// A base-10 integer with an optional sign, as `i64`'s `from_str` reads it.
pub open spec fn parse_i64(t: Seq<char>) -> Option<i64> {
    let ds = unsigned_part(t);
    let v = if t.len() > 0 && t[0] == '-' { -digits_value(ds) } else { digits_value(ds) as int };
    if ds.len() > 0 && all_digit_chars(ds) && i64::MIN <= v <= i64::MAX {
        Some(v as i64)
    } else {
        None
    }
}

/// The entry of a line that is not a comment: the text before the first
/// comma, and the integer between it and the next comma (or the end); further
/// fields are ignored.
pub open spec fn line_entry(l: Seq<char>) -> Option<EntryView> {
    let c = field_end(l, 0);
    if c >= l.len() {
        None
    } else {
        match parse_i64(l.subrange(c + 1, field_end(l, c + 1))) {
            Some(v) => Some((l.subrange(0, c), v)),
            None => None,
        }
    }
}

/// The entries of the first `n` lines, or `None` where one of them is
/// malformed.
pub open spec fn entries_upto(lines: Seq<Seq<char>>, n: int) -> Option<Seq<EntryView>>
    decreases n,
{
    if n <= 0 {
        Some(Seq::empty())
    } else {
        match entries_upto(lines, n - 1) {
            None => None,
            Some(es) => if is_comment(lines[n - 1]) {
                Some(es)
            } else {
                match line_entry(lines[n - 1]) {
                    None => None,
                    Some(e) => Some(es.push(e)),
                }
            },
        }
    }
}

proof fn lemma_digits_prefix(t: Seq<char>, k: int)
    requires
        0 <= k <= t.len(),
    ensures
        digits_value(t.subrange(0, k)) <= digits_value(t),
    decreases t.len(),
{
    if k < t.len() {
        lemma_digits_prefix(t.drop_last(), k);
        assert(t.drop_last().subrange(0, k) =~= t.subrange(0, k));
    } else {
        assert(t.subrange(0, k) =~= t);
    }
}

fn find_comma(l: &str, n: usize, from: usize) -> (r: usize)
    requires
        n == l@.len(),
        from <= n,
    ensures
        r == field_end(l@, from as int),
        from <= r <= n,
{
    let mut i: usize = from;
    while i < n && l.get_char(i) != ','
        invariant
            n == l@.len(),
            from <= i <= n,
            field_end(l@, i as int) == field_end(l@, from as int),
        decreases n - i,
    {
        i = i + 1;
    }
    i
}

/// Reads the integer in `l` from `lo` up to `hi`.
fn read_i64(l: &str, lo: usize, hi: usize) -> (r: Option<i64>)
    requires
        lo <= hi <= l@.len(),
    ensures
        r == parse_i64(l@.subrange(lo as int, hi as int)),
{
    let ghost t = l@.subrange(lo as int, hi as int);
    if lo == hi {
        return None;
    }
    let first = l.get_char(lo);
    assert(t[0] == first);
    let negative = first == '-';
    let start = if first == '-' || first == '+' {
        lo + 1
    } else {
        lo
    };
    let ghost ds = l@.subrange(start as int, hi as int);
    assert(ds =~= unsigned_part(t));
    if start == hi {
        return None;
    }
    let mut v: i64 = 0;
    let mut j: usize = start;
    while j < hi
        invariant
            lo <= start <= j <= hi <= l@.len(),
            start < hi,
            t == l@.subrange(lo as int, hi as int),
            ds == l@.subrange(start as int, hi as int),
            ds == unsigned_part(t),
            t[0] == first,
            negative == (first == '-'),
            forall|i: int| start <= i < j ==> is_digit_char(#[trigger] l@[i]),
            v == (if negative { -digits_value(l@.subrange(start as int, j as int)) } else {
                digits_value(l@.subrange(start as int, j as int)) as int
            }),
        decreases hi - j,
    {
        let c = l.get_char(j);
        if c < '0' || c > '9' {
            assert(ds[j - start] == c);
            assert(!is_digit_char(c));
            assert(!all_digit_chars(ds));
            return None;
        }
        let d = (c as u32 - 48) as i64;
        let ghost x = l@.subrange(start as int, j + 1);
        assert(x.drop_last() =~= l@.subrange(start as int, j as int));
        assert(x.last() == c);
        assert(digits_value(x) == digits_value(l@.subrange(start as int, j as int)) * 10 + (c as int - 48));
        let next = match v.checked_mul(10) {
            None => None,
            Some(w) => if negative {
                w.checked_sub(d)
            } else {
                w.checked_add(d)
            },
        };
        match next {
            None => {
                proof {
                    lemma_digits_prefix(ds, j + 1 - start);
                    assert(ds.subrange(0, j + 1 - start) =~= x);
                }
                return None;
            },
            Some(w) => {
                v = w;
            },
        }
        j = j + 1;
    }
    assert(l@.subrange(start as int, j as int) =~= ds);
    Some(v)
}

fn read_line_entry(l: &str) -> (r: Option<(String, i64)>)
    ensures
        match r {
            Some(e) => line_entry(l@) == Some(entry_view(e)),
            None => line_entry(l@) is None,
        },
{
    let n = l.unicode_len();
    let c = find_comma(l, n, 0);
    if c >= n {
        return None;
    }
    let end = find_comma(l, n, c + 1);
    match read_i64(l, c + 1, end) {
        None => None,
        Some(v) => {
            let name = l.substring_char(0, c).to_owned();
            Some((name, v))
        },
    }
}

fn is_comment_line(l: &str) -> (r: bool)
    ensures
        r == is_comment(l@),
{
    let n = l.unicode_len();
    n >= 2 && l.get_char(0) == '/' && l.get_char(1) == '/'
}

/// The lowest raw offset of a stroke record.
pub const DOMAIN_MIN: i64 = 558891008;

/// The highest raw offset of a stroke record.
pub const DOMAIN_MAX: i64 = 559079424;

pub open spec fn in_domain(offset: i64) -> bool {
    DOMAIN_MIN <= offset <= DOMAIN_MAX
}

/// The entries of `s` with raw offset `k`, in their order in `s`.
pub open spec fn with_offset(s: Seq<EntryView>, k: i64) -> Seq<EntryView> {
    s.filter(|e: EntryView| e.1 == k)
}

pub open spec fn sorted_by_offset(s: Seq<EntryView>) -> bool {
    forall|i: int, j: int| 0 <= i < j < s.len() ==> s[i].1 <= s[j].1
}

/// `out` holds the entries of `es` whose offsets lie in the domain, sorted by
/// offset, entries with equal offsets in their order in `es`.
pub open spec fn is_domain_index(es: Seq<EntryView>, out: Seq<EntryView>) -> bool {
    &&& sorted_by_offset(out)
    &&& forall|i: int| 0 <= i < out.len() ==> in_domain(#[trigger] out[i].1)
    &&& forall|k: i64| in_domain(k) ==> #[trigger] with_offset(out, k) == with_offset(es, k)
}

proof fn lemma_with_offset_push(s: Seq<EntryView>, e: EntryView, k: i64)
    ensures
        with_offset(s.push(e), k) == (if e.1 == k {
            with_offset(s, k).push(e)
        } else {
            with_offset(s, k)
        }),
{
    reveal(Seq::filter);
    assert(s.push(e).drop_last() =~= s);
}

proof fn lemma_with_offset_none(s: Seq<EntryView>, k: i64)
    requires
        forall|i: int| 0 <= i < s.len() ==> #[trigger] s[i].1 != k,
    ensures
        with_offset(s, k) == Seq::<EntryView>::empty(),
    decreases s.len(),
{
    reveal(Seq::filter);
    if s.len() > 0 {
        lemma_with_offset_none(s.drop_last(), k);
    }
}

/// Inserts `e` after every entry whose offset is not above its own.
fn insert_sorted(out: &mut Vec<(String, i64)>, e: (String, i64))
    requires
        sorted_by_offset(entries_view(old(out)@)),
    ensures
        sorted_by_offset(entries_view(final(out)@)),
        final(out)@.len() == old(out)@.len() + 1,
        forall|x: EntryView| #[trigger] entries_view(final(out)@).contains(x) ==> entries_view(
            old(out)@,
        ).contains(x) || x == entry_view(e),
        forall|k: i64| #[trigger] with_offset(entries_view(final(out)@), k) == (if e.1 == k {
            with_offset(entries_view(old(out)@), k).push(entry_view(e))
        } else {
            with_offset(entries_view(old(out)@), k)
        }),
{
    let ghost old_v = entries_view(out@);
    let mut p: usize = 0;
    while p < out.len() && out[p].1 <= e.1
        invariant
            p <= out@.len(),
            old_v == entries_view(out@),
            forall|i: int| 0 <= i < p ==> #[trigger] old_v[i].1 <= e.1,
        decreases out@.len() - p,
    {
        p = p + 1;
    }
    let ghost ev = entry_view(e);
    out.insert(p, e);
    proof {
        let a = old_v.take(p as int);
        let b = old_v.skip(p as int);
        assert(old_v =~= a + b);
        assert(entries_view(out@) =~= a + seq![ev] + b);
        assert forall|i: int| 0 <= i < b.len() implies #[trigger] b[i].1 > e.1 by {
            assert(b[i] == old_v[p + i]);
            if p < old_v.len() {
                assert(old_v[p as int].1 > e.1);
            }
        }
        assert forall|k: i64| #[trigger] with_offset(entries_view(out@), k) == (if e.1 == k {
            with_offset(old_v, k).push(ev)
        } else {
            with_offset(old_v, k)
        }) by {
            let pred = |x: EntryView| x.1 == k;
            Seq::filter_distributes_over_add(a + seq![ev], b, pred);
            Seq::filter_distributes_over_add(a, seq![ev], pred);
            Seq::filter_distributes_over_add(a, b, pred);
            lemma_with_offset_push(Seq::empty(), ev, k);
            assert(Seq::<EntryView>::empty().push(ev) =~= seq![ev]);
            reveal(Seq::filter);
            assert(with_offset(Seq::empty(), k) =~= Seq::<EntryView>::empty());
            if e.1 == k {
                lemma_with_offset_none(b, k);
                assert(with_offset(a, k) + seq![ev] + Seq::<EntryView>::empty() =~= with_offset(a, k).push(ev));
                assert(with_offset(a, k) + Seq::<EntryView>::empty() =~= with_offset(a, k));
            } else {
                assert(with_offset(a, k) + Seq::<EntryView>::empty() =~= with_offset(a, k));
            }
        }
        assert forall|x: EntryView| #[trigger] entries_view(out@).contains(x) implies old_v.contains(x) || x == ev by {
            let i = choose|i: int| 0 <= i < entries_view(out@).len() && entries_view(out@)[i] == x;
            if i < p {
                assert(old_v[i] == x);
            } else if i > p {
                assert(old_v[i - 1] == x);
            }
        }
    }
}

/// Reads the manifest lines: the entries in the domain, sorted by offset,
/// entries with equal offsets in manifest order; or the index of the first
/// line that is neither a comment nor a well-formed entry.
pub fn read_manifest(lines: &Vec<String>) -> (r: Result<Vec<(String, i64)>, usize>)
    ensures
        match r {
            Ok(out) => entries_upto(lines_view(lines@), lines@.len() as int) matches Some(es)
                && is_domain_index(es, entries_view(out@)),
            Err(i) => i < lines@.len() && entries_upto(lines_view(lines@), i as int) is Some
                && !is_comment(lines@[i as int]@) && line_entry(lines@[i as int]@) is None,
        },
{
    let ghost ls = lines_view(lines@);
    let mut out: Vec<(String, i64)> = Vec::new();
    let mut i: usize = 0;
    assert(entries_view(out@) =~= Seq::<EntryView>::empty());
    while i < lines.len()
        invariant
            i <= lines@.len(),
            ls == lines_view(lines@),
            entries_upto(ls, i as int) matches Some(es) && is_domain_index(es, entries_view(out@)),
        decreases lines@.len() - i,
    {
        let ghost es = entries_upto(ls, i as int)->Some_0;
        let line = lines[i].as_str();
        assert(ls[i as int] == line@);
        if !is_comment_line(line) {
            match read_line_entry(line) {
                None => {
                    return Err(i);
                },
                Some(e) => {
                    let ghost ev = entry_view(e);
                    let ghost before = entries_view(out@);
                    if DOMAIN_MIN <= e.1 && e.1 <= DOMAIN_MAX {
                        insert_sorted(&mut out, e);
                        assert forall|j: int| 0 <= j < out@.len() implies in_domain(
                            #[trigger] entries_view(out@)[j].1,
                        ) by {
                            assert(entries_view(out@).contains(entries_view(out@)[j]));
                            if entries_view(out@)[j] != ev {
                                let m = choose|m: int| 0 <= m < before.len() && before[m] == entries_view(out@)[j];
                                assert(in_domain(before[m].1));
                            }
                        }
                    }
                    assert forall|k: i64| in_domain(k) implies #[trigger] with_offset(entries_view(out@), k)
                        == with_offset(es.push(ev), k) by {
                        lemma_with_offset_push(es, ev, k);
                    }
                },
            }
        }
        i = i + 1;
    }
    Ok(out)
}

/// An entry whose offset lies outside the domain is left out of the index.
pub proof fn lemma_out_of_domain_excluded(es: Seq<EntryView>, out: Seq<EntryView>, name: Seq<char>, offset: i64)
    requires
        is_domain_index(es, out),
        !in_domain(offset),
    ensures
        !out.contains((name, offset)),
        with_offset(out, offset).len() == 0,
{
    if out.contains((name, offset)) {
        let i = choose|i: int| 0 <= i < out.len() && out[i] == (name, offset);
        assert(in_domain(out[i].1));
    }
    assert forall|i: int| 0 <= i < out.len() implies #[trigger] out[i].1 != offset by {
        assert(in_domain(out[i].1));
    }
    lemma_with_offset_none(out, offset);
}

} // verus!
