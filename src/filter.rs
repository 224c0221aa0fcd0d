//! Filtering the transcript with a query of terms joined by `&` (and) and
//! `|` (or): `"force & iteration | convergence"` keeps the lines that contain
//! both `force` and `iteration`, or that contain `convergence`, letters
//! compared in lowercase.

use vstd::prelude::*;
use vstd::string::*;
use crate::text::{chars_of, trim, trim_bounds};

verus! {

/// The lowercase form of a string, as `str::to_lowercase` gives it.
pub uninterp spec fn lower_of(s: Seq<char>) -> Seq<char>;

/// Relies on `str::to_lowercase`, whose result depends on the characters of
/// its argument alone.
#[verifier::external_body]
fn lowercase(s: &str) -> (r: String)
    ensures
        r@ == lower_of(s@),
{
    s.to_lowercase()
}

/// The pieces of `s` between occurrences of `sep`, as `str::split` yields
/// them; stated one character at a time from the left.
pub open spec fn split_on(s: Seq<char>, sep: char) -> Seq<Seq<char>>
    decreases s.len(),
{
    if s.len() == 0 {
        seq![seq![]]
    } else {
        let prev = split_on(s.drop_last(), sep);
        if s.last() == sep {
            prev.push(seq![])
        } else {
            prev.update(prev.len() - 1, prev.last().push(s.last()))
        }
    }
}

/// `s` without its empty elements.
pub open spec fn drop_empty<A>(s: Seq<Seq<A>>) -> Seq<Seq<A>>
    decreases s.len(),
{
    if s.len() == 0 {
        seq![]
    } else {
        let p = drop_empty(s.drop_last());
        if s.last().len() > 0 {
            p.push(s.last())
        } else {
            p
        }
    }
}

/// The terms of one `&`-clause: trimmed, lowercased, the empty ones left out.
pub open spec fn clause_terms(part: Seq<char>) -> Seq<Seq<char>> {
    drop_empty(split_on(part, '&').map_values(|t: Seq<char>| lower_of(trim(t))))
}

/// The clauses of a query, the empty ones left out.
pub open spec fn query_clauses(q: Seq<char>) -> Seq<Seq<Seq<char>>> {
    drop_empty(split_on(trim(q), '|').map_values(|part: Seq<char>| clause_terms(part)))
}

/// Whether `t` occurs in `s`.
pub open spec fn occurs_in(t: Seq<char>, s: Seq<char>) -> bool {
    exists|i: int| 0 <= i && i + t.len() <= s.len() && #[trigger] s.subrange(i, i + t.len()) == t
}

/// Whether a lowercased line contains every term of a clause.
pub open spec fn clause_holds(terms: Seq<Seq<char>>, lower_line: Seq<char>) -> bool {
    forall|k: int| 0 <= k < terms.len() ==> occurs_in(#[trigger] terms[k], lower_line)
}

/// Whether a lowercased line satisfies the clauses: it contains every term
/// of at least one clause.
pub open spec fn satisfies(clauses: Seq<Seq<Seq<char>>>, lower_line: Seq<char>) -> bool {
    exists|c: int| 0 <= c < clauses.len() && clause_holds(#[trigger] clauses[c], lower_line)
}

/// The lines that a query keeps, in order: all of them where the query is
/// blank.
pub open spec fn kept_lines(lines: Seq<Seq<char>>, q: Seq<char>) -> Seq<Seq<char>>
    decreases lines.len(),
{
    if trim(q).len() == 0 {
        lines
    } else if lines.len() == 0 {
        seq![]
    } else {
        let p = kept_lines(lines.drop_last(), q);
        if satisfies(query_clauses(q), lower_of(lines.last())) {
            p.push(lines.last())
        } else {
            p
        }
    }
}

pub open spec fn clauses_view(c: Seq<Vec<String>>) -> Seq<Seq<Seq<char>>> {
    c.map_values(|terms: Vec<String>| terms@.map_values(|t: String| t@))
}

pub open spec fn strings_view(c: Seq<String>) -> Seq<Seq<char>> {
    c.map_values(|t: String| t@)
}

proof fn lemma_split_on_nonempty(s: Seq<char>, sep: char)
    ensures
        split_on(s, sep).len() > 0,
    decreases s.len(),
{
    if s.len() > 0 {
        lemma_split_on_nonempty(s.drop_last(), sep);
    }
}

/// The bounds of the pieces of `v[lo..hi]` between occurrences of `sep`.
fn split_bounds(v: &Vec<char>, lo: usize, hi: usize, sep: char) -> (r: Vec<(usize, usize)>)
    requires
        lo <= hi <= v.len(),
    ensures
        forall|k: int| 0 <= k < r.len() ==> lo <= (#[trigger] r@[k]).0 <= r@[k].1 <= hi,
        r@.map_values(|b: (usize, usize)| v@.subrange(b.0 as int, b.1 as int)) == split_on(
            v@.subrange(lo as int, hi as int),
            sep,
        ),
{
    let mut r: Vec<(usize, usize)> = Vec::new();
    r.push((lo, lo));
    assert(v@.subrange(lo as int, lo as int) =~= seq![]);
    assert(r@.map_values(|b: (usize, usize)| v@.subrange(b.0 as int, b.1 as int)) =~= seq![
        seq![],
    ]);
    let mut i: usize = lo;
    while i < hi
        invariant
            lo <= i <= hi <= v.len(),
            r.len() > 0,
            r@.last().1 == i,
            forall|k: int| 0 <= k < r.len() ==> lo <= (#[trigger] r@[k]).0 <= r@[k].1 <= i,
            r@.map_values(|b: (usize, usize)| v@.subrange(b.0 as int, b.1 as int)) == split_on(
                v@.subrange(lo as int, i as int),
                sep,
            ),
        decreases hi - i,
    {
        let c = v[i];
        let ghost prev = r@.map_values(|b: (usize, usize)| v@.subrange(b.0 as int, b.1 as int));
        let ghost s = v@.subrange(lo as int, i + 1);
        assert(s.drop_last() =~= v@.subrange(lo as int, i as int));
        assert(s.last() == c);
        if c == sep {
            r.push((i + 1, i + 1));
            assert(v@.subrange(i + 1, i + 1) =~= seq![]);
            assert(r@.map_values(|b: (usize, usize)| v@.subrange(b.0 as int, b.1 as int))
                =~= prev.push(seq![]));
        } else {
            let (a, _b) = r.pop().unwrap();
            r.push((a, i + 1));
            assert(v@.subrange(a as int, i + 1) =~= v@.subrange(a as int, i as int).push(c));
            assert(r@.map_values(|b: (usize, usize)| v@.subrange(b.0 as int, b.1 as int))
                =~= prev.update(prev.len() - 1, prev.last().push(c)));
        }
        i = i + 1;
    }
    r
}

/// The terms of the `&`-clause `v[lo..hi]`.
fn clause_terms_of(query: &str, v: &Vec<char>, lo: usize, hi: usize) -> (r: Vec<String>)
    requires
        v@ == query@,
        lo <= hi <= v.len(),
    ensures
        strings_view(r@) == clause_terms(v@.subrange(lo as int, hi as int)),
{
    let pieces = split_bounds(v, lo, hi, '&');
    let ghost ps = pieces@.map_values(|b: (usize, usize)| v@.subrange(b.0 as int, b.1 as int));
    let ghost lowered = ps.map_values(|t: Seq<char>| lower_of(trim(t)));
    let mut r: Vec<String> = Vec::new();
    let mut k: usize = 0;
    assert(lowered.take(0) =~= seq![]);
    assert(strings_view(r@) =~= seq![]);
    while k < pieces.len()
        invariant
            v@ == query@,
            forall|j: int| 0 <= j < pieces.len() ==> lo <= (#[trigger] pieces@[j]).0 <= pieces@[j].1 <= hi,
            ps == pieces@.map_values(|b: (usize, usize)| v@.subrange(b.0 as int, b.1 as int)),
            lowered == ps.map_values(|t: Seq<char>| lower_of(trim(t))),
            hi <= v.len(),
            k <= pieces.len(),
            strings_view(r@) == drop_empty(lowered.take(k as int)),
        decreases pieces.len() - k,
    {
        let (a, b) = pieces[k];
        assert(pieces@[k as int].0 <= pieces@[k as int].1);
        let (i, j) = trim_bounds(v, a, b);
        let term = lowercase(query.substring_char(i, j));
        let ghost t = lowered.take(k + 1);
        assert(t.drop_last() =~= lowered.take(k as int));
        assert(t.last() == term@);
        let ghost before = strings_view(r@);
        if term.as_str().unicode_len() > 0 {
            r.push(term);
            assert(strings_view(r@) =~= before.push(t.last()));
        }
        k = k + 1;
    }
    assert(lowered.take(pieces.len() as int) =~= lowered);
    r
}

/// The clauses of a query: its `|`-separated parts, each split into terms.
pub fn parse_query(query: &str) -> (r: Vec<Vec<String>>)
    ensures
        clauses_view(r@) == query_clauses(query@),
{
    let v = chars_of(query);
    let (a, b) = trim_bounds(&v, 0, v.len());
    assert(v@.subrange(0, v.len() as int) =~= v@);
    let parts = split_bounds(&v, a, b, '|');
    let ghost ps = parts@.map_values(|x: (usize, usize)| v@.subrange(x.0 as int, x.1 as int));
    let ghost terms = ps.map_values(|part: Seq<char>| clause_terms(part));
    let mut r: Vec<Vec<String>> = Vec::new();
    let mut k: usize = 0;
    assert(terms.take(0) =~= seq![]);
    assert(clauses_view(r@) =~= seq![]);
    while k < parts.len()
        invariant
            v@ == query@,
            forall|j: int| 0 <= j < parts.len() ==> a <= (#[trigger] parts@[j]).0 <= parts@[j].1 <= b,
            b <= v.len(),
            ps == parts@.map_values(|x: (usize, usize)| v@.subrange(x.0 as int, x.1 as int)),
            terms == ps.map_values(|part: Seq<char>| clause_terms(part)),
            k <= parts.len(),
            clauses_view(r@) == drop_empty(terms.take(k as int)),
        decreases parts.len() - k,
    {
        let (lo, hi) = parts[k];
        assert(parts@[k as int].0 <= parts@[k as int].1);
        let clause = clause_terms_of(query, &v, lo, hi);
        let ghost t = terms.take(k + 1);
        assert(t.drop_last() =~= terms.take(k as int));
        assert(t.last() == strings_view(clause@));
        let ghost before = clauses_view(r@);
        if clause.len() > 0 {
            r.push(clause);
            assert(clauses_view(r@) =~= before.push(t.last()));
        }
        k = k + 1;
    }
    assert(terms.take(parts.len() as int) =~= terms);
    r
}

/// Whether `t` occurs in `s`.
pub fn occurs(t: &Vec<char>, s: &Vec<char>) -> (r: bool)
    ensures
        r == occurs_in(t@, s@),
{
    if t.len() > s.len() {
        return false;
    }
    if t.len() == 0 {
        assert(s@.subrange(0, 0 + t@.len() as int) =~= t@);
        return true;
    }
    let last = s.len() - t.len();
    let mut i: usize = 0;
    while i <= last
        invariant
            0 < t.len() <= s.len(),
            last == s.len() - t.len(),
            forall|j: int| 0 <= j < i ==> #[trigger] s@.subrange(j, j + t.len()) != t@,
        decreases last + 1 - i,
    {
        let mut k: usize = 0;
        let mut same = true;
        while k < t.len()
            invariant
                i <= last == s.len() - t.len(),
                k <= t.len(),
                same ==> forall|m: int| 0 <= m < k ==> s@[i + m] == t@[m],
                !same ==> s@.subrange(i as int, i + t.len()) != t@,
            decreases t.len() - k,
        {
            if same && s[i + k] != t[k] {
                same = false;
                assert(s@.subrange(i as int, i + t.len())[k as int] != t@[k as int]);
            }
            k = k + 1;
        }
        if same {
            assert(s@.subrange(i as int, i + t.len()) =~= t@);
            return true;
        }
        i = i + 1;
    }
    false
}

/// Whether a lowercased line satisfies the clauses.
pub fn satisfies_folded(clauses: &Vec<Vec<String>>, lower_line: &str) -> (r: bool)
    ensures
        r == satisfies(clauses_view(clauses@), lower_line@),
{
    let s = chars_of(lower_line);
    let ghost cv = clauses_view(clauses@);
    let mut c: usize = 0;
    while c < clauses.len()
        invariant
            s@ == lower_line@,
            cv == clauses_view(clauses@),
            c <= clauses.len(),
            forall|d: int| 0 <= d < c ==> !clause_holds(#[trigger] cv[d], s@),
        decreases clauses.len() - c,
    {
        let terms = &clauses[c];
        assert(cv[c as int] == terms@.map_values(|t: String| t@));
        let mut k: usize = 0;
        let mut all = true;
        while k < terms.len()
            invariant
                s@ == lower_line@,
                cv == clauses_view(clauses@),
                c < clauses.len(),
                *terms == clauses@[c as int],
                cv[c as int] == terms@.map_values(|t: String| t@),
                k <= terms.len(),
                all <==> forall|m: int| 0 <= m < k ==> occurs_in(#[trigger] cv[c as int][m], s@),
            decreases terms.len() - k,
        {
            let t = chars_of(terms[k].as_str());
            assert(cv[c as int][k as int] == t@);
            if !occurs(&t, &s) {
                all = false;
            }
            k = k + 1;
        }
        assert(all == clause_holds(cv[c as int], s@));
        if all {
            return true;
        }
        c = c + 1;
    }
    false
}

/// Whether a line satisfies the clauses, letters compared in lowercase.
pub fn line_matches(clauses: &Vec<Vec<String>>, line: &str) -> (r: bool)
    ensures
        r == satisfies(clauses_view(clauses@), lower_of(line@)),
{
    let lower = lowercase(line);
    satisfies_folded(clauses, lower.as_str())
}

/// The lines that a query keeps, in order.
pub fn filter_lines(lines: &Vec<String>, query: &str) -> (r: Vec<String>)
    ensures
        strings_view(r@) == kept_lines(strings_view(lines@), query@),
{
    let v = chars_of(query);
    let (a, b) = trim_bounds(&v, 0, v.len());
    assert(v@.subrange(0, v.len() as int) =~= v@);
    let ghost ls = strings_view(lines@);
    let mut r: Vec<String> = Vec::new();
    if a == b {
        let mut k: usize = 0;
        assert(strings_view(r@) =~= ls.take(0));
        while k < lines.len()
            invariant
                ls == strings_view(lines@),
                k <= lines.len(),
                strings_view(r@) == ls.take(k as int),
            decreases lines.len() - k,
        {
            let ghost before = strings_view(r@);
            r.push(lines[k].clone());
            assert(ls.take(k + 1) =~= ls.take(k as int).push(ls[k as int]));
            assert(strings_view(r@) =~= before.push(lines@[k as int]@));
            k = k + 1;
        }
        assert(ls.take(lines.len() as int) =~= ls);
        return r;
    }
    let clauses = parse_query(query);
    let mut k: usize = 0;
    assert(ls.take(0) =~= seq![]);
    assert(strings_view(r@) =~= seq![]);
    while k < lines.len()
        invariant
            trim(query@).len() > 0,
            ls == strings_view(lines@),
            clauses_view(clauses@) == query_clauses(query@),
            k <= lines.len(),
            strings_view(r@) == kept_lines(ls.take(k as int), query@),
        decreases lines.len() - k,
    {
        let ghost t = ls.take(k + 1);
        assert(t.drop_last() =~= ls.take(k as int));
        let ghost before = strings_view(r@);
        if line_matches(&clauses, lines[k].as_str()) {
            r.push(lines[k].clone());
            assert(strings_view(r@) =~= before.push(t.last()));
        }
        k = k + 1;
    }
    assert(ls.take(lines.len() as int) =~= ls);
    r
}

} // verus!
