//! The search itself: atoms are searched for exactly, and each atom hit is
//! checked against the whole pattern at the offset it implies.
use vstd::prelude::*;
use vstd::slice::slice_subrange;
use crate::atom::{find_best_atom, has_unmasked, is_run, ATOM_QUALITY_THRESHOLD};
use crate::backend::{
    kmp_first, lemma_occurs_in_suffix, lists_matches, lists_occurrences, occurs_at, strictly_increasing, AhoCorasickMultipleSearch,
    KmpMultipleSearch, MultipleSearch, ScanSingleSearch, SingleSearch,
};
use crate::masked::{
    lemma_unmasked_matches_only_value, match_at, matches_at, pattern_to_bytes, values_of, MaskedByte, Pattern,
};

verus! {

/// Where `p` matches `h` at `o`, the values of its run `[s, e)` occur in `h`
/// at `o + s`.
proof fn lemma_match_implies_atom(p: Seq<MaskedByte>, h: Seq<u8>, o: int, s: int, e: int)
    requires
        matches_at(p, h, o),
        is_run(p, s, e),
    ensures
        occurs_at(values_of(p.subrange(s, e)), h, o + s),
{
    let atom = values_of(p.subrange(s, e));
    assert forall|k: int| 0 <= k < e - s implies h.subrange(o + s, o + e)[k] == atom[k] by {
        assert(p[s + k].spec_is_unmasked());
        assert(p[s + k].matches(h[o + (s + k)]));
        lemma_unmasked_matches_only_value(p[s + k], h[o + s + k]);
    }
    assert(h.subrange(o + s, o + e) =~= atom);
}

/// Keeps, of the hits of the atom `[start, end)` of `pattern`, those at
/// which the whole pattern matches, shifted back to the pattern's start.
fn verify_candidates(
    pattern: &[MaskedByte],
    haystack: &[u8],
    start: usize,
    end: usize,
    candidates: &Vec<usize>,
) -> (r: Vec<usize>)
    requires
        is_run(pattern@, start as int, end as int),
        lists_occurrences(candidates@, values_of(pattern@.subrange(start as int, end as int)), haystack@),
    ensures
        lists_matches(r@, pattern@, haystack@),
{
    let mut r: Vec<usize> = Vec::new();
    let mut j: usize = 0;
    while j < candidates.len()
        invariant
            j <= candidates@.len(),
            strictly_increasing(candidates@),
            strictly_increasing(r@),
            forall|y: int, x: int| 0 <= y < r@.len() && j <= x < candidates@.len() ==> #[trigger] r@[y] + start < #[trigger] candidates@[x],
            forall|y: int| 0 <= y < r@.len() ==> matches_at(pattern@, haystack@, #[trigger] r@[y] as int),
            forall|x: int| 0 <= x < j && #[trigger] candidates@[x] >= start && matches_at(pattern@, haystack@, candidates@[x] - start)
                ==> r@.contains((candidates@[x] - start) as usize),
        decreases candidates@.len() - j,
    {
        let c = candidates[j];
        let ghost old_r = r@;
        if c >= start && match_at(pattern, haystack, c - start) {
            r.push(c - start);
            assert forall|y: int, x: int| 0 <= y < r@.len() && j + 1 <= x < candidates@.len() implies #[trigger] r@[y] + start < #[trigger] candidates@[x] by {
                if y < old_r.len() {
                    assert(old_r[y] + start < candidates@[x]);
                } else {
                    assert(candidates@[j as int] < candidates@[x]);
                }
            }
            assert forall|x: int| 0 <= x < j + 1 && #[trigger] candidates@[x] >= start && matches_at(pattern@, haystack@, candidates@[x] - start)
                implies r@.contains((candidates@[x] - start) as usize) by {
                if x < j {
                    let y = choose|y: int| 0 <= y < old_r.len() && old_r[y] == (candidates@[x] - start) as usize;
                    assert(r@[y] == old_r[y]);
                } else {
                    assert(r@[old_r.len() as int] == (candidates@[x] - start) as usize);
                }
            }
        } else {
            assert forall|y: int, x: int| 0 <= y < r@.len() && j + 1 <= x < candidates@.len() implies #[trigger] r@[y] + start < #[trigger] candidates@[x] by {
                assert(r@[y] + start < candidates@[x]);
            }
        }
        j = j + 1;
    }
    assert forall|o: int| #[trigger] matches_at(pattern@, haystack@, o) implies r@.contains(o as usize) by {
        lemma_match_implies_atom(pattern@, haystack@, o, start as int, end as int);
        assert(haystack@.len() == haystack.len());
        assert(candidates@.contains((o + start) as usize));
        let x = choose|x: int| 0 <= x < candidates@.len() && candidates@[x] == (o + start) as usize;
        assert(candidates@[x] - start == o);
    }
    r
}

/// Every offset at which `pattern` matches `haystack`: through its atom and
/// `multiple` where the atom is selective enough, else by `fallback`.
pub fn find_single_overlapping_inner<M: MultipleSearch, F: SingleSearch>(
    haystack: &[u8],
    pattern: &[MaskedByte],
    multiple: M,
    fallback: F,
) -> (r: Vec<usize>)
    requires
        has_unmasked(pattern@),
    ensures
        lists_matches(r@, pattern@, haystack@),
{
    // Atom scores are sums over the pattern, which must stay in range.
    if pattern.len() > usize::MAX / 20 {
        return fallback.search_single(haystack, pattern);
    }
    match find_best_atom(pattern) {
        Some((start, end, quality)) => {
            if quality < ATOM_QUALITY_THRESHOLD {
                return fallback.search_single(haystack, pattern);
            }
            let atom = pattern_to_bytes(slice_subrange(pattern, start, end));
            let mut atoms: Vec<Vec<u8>> = Vec::new();
            atoms.push(atom);
            let found = multiple.search_multiple(haystack, &atoms);
            assert(atoms@[0]@ == values_of(pattern@.subrange(start as int, end as int)));
            verify_candidates(pattern, haystack, start, end, &found[0])
        },
        None => fallback.search_single(haystack, pattern),
    }
}

/// Every offset at which `pattern` matches `haystack`, in increasing order,
/// overlapping matches included. The pattern must hold a fully compared
/// byte: one made of wildcards alone has no atom to search for.
pub fn find_overlapping(pattern: Pattern<'_>, haystack: &[u8]) -> (r: Vec<usize>)
    requires
        has_unmasked(pattern@),
    ensures
        lists_matches(r@, pattern@, haystack@),
{
    find_single_overlapping_inner(haystack, pattern, KmpMultipleSearch, ScanSingleSearch)
}

/// For each of `patterns`, every offset at which it matches `haystack`. The
/// selective atoms of all patterns are searched for together by `multiple`;
/// patterns without one are searched for by `fallback`.
pub fn find_multiple_overlapping_inner<M: MultipleSearch, F: SingleSearch>(
    haystack: &[u8],
    patterns: &[&[MaskedByte]],
    multiple: M,
    fallback: F,
) -> (r: Vec<Vec<usize>>)
    requires
        forall|i: int| 0 <= i < patterns@.len() ==> has_unmasked(#[trigger] patterns@[i]@),
    ensures
        r@.len() == patterns@.len(),
        forall|i: int| 0 <= i < patterns@.len() ==> lists_matches(#[trigger] r@[i]@, patterns@[i]@, haystack@),
{
    // For each pattern, the index of its atom in `atoms`, and the atom's
    // place in the pattern; `None` where it has no selective atom.
    let mut plan: Vec<Option<(usize, usize, usize)>> = Vec::new();
    let mut atoms: Vec<Vec<u8>> = Vec::new();
    let mut i: usize = 0;
    while i < patterns.len()
        invariant
            i <= patterns@.len(),
            plan@.len() == i,
            forall|a: int| 0 <= a < atoms@.len() ==> #[trigger] atoms@[a]@.len() > 0,
            forall|k: int| 0 <= k < i ==> (#[trigger] plan@[k] matches Some((a, s, e)) ==> {
                &&& a < atoms@.len()
                &&& is_run(patterns@[k]@, s as int, e as int)
                &&& atoms@[a as int]@ == values_of(patterns@[k]@.subrange(s as int, e as int))
            }),
        decreases patterns@.len() - i,
    {
        let pattern = patterns[i];
        let mut step: Option<(usize, usize, usize)> = None;
        // Atom scores are sums over the pattern, which must stay in range.
        if pattern.len() <= usize::MAX / 20 {
            if let Some((start, end, quality)) = find_best_atom(pattern) {
                if quality >= ATOM_QUALITY_THRESHOLD {
                    step = Some((atoms.len(), start, end));
                    atoms.push(pattern_to_bytes(slice_subrange(pattern, start, end)));
                }
            }
        }
        plan.push(step);
        i = i + 1;
    }
    let found = if atoms.len() > 0 {
        multiple.search_multiple(haystack, &atoms)
    } else {
        Vec::new()
    };
    let mut r: Vec<Vec<usize>> = Vec::new();
    let mut i: usize = 0;
    while i < patterns.len()
        invariant
            i <= patterns@.len(),
            plan@.len() == patterns@.len(),
            r@.len() == i,
            found@.len() == atoms@.len(),
            forall|a: int| 0 <= a < atoms@.len() ==> lists_occurrences(#[trigger] found@[a]@, atoms@[a]@, haystack@),
            forall|k: int| 0 <= k < patterns@.len() ==> (#[trigger] plan@[k] matches Some((a, s, e)) ==> {
                &&& a < atoms@.len()
                &&& is_run(patterns@[k]@, s as int, e as int)
                &&& atoms@[a as int]@ == values_of(patterns@[k]@.subrange(s as int, e as int))
            }),
            forall|k: int| 0 <= k < i ==> lists_matches(#[trigger] r@[k]@, patterns@[k]@, haystack@),
        decreases patterns@.len() - i,
    {
        let offsets = match plan[i] {
            Some((a, start, end)) => verify_candidates(patterns[i], haystack, start, end, &found[a]),
            None => fallback.search_single(haystack, patterns[i]),
        };
        r.push(offsets);
        i = i + 1;
    }
    r
}

/// For each of `patterns`, every offset at which it matches `haystack`, in
/// increasing order, overlapping matches included. The haystack is scanned
/// once for the atoms of all patterns. Each pattern must hold a fully
/// compared byte.
pub fn find_multiple_overlapping(patterns: &[Pattern<'_>], haystack: &[u8]) -> (r: Vec<Vec<usize>>)
    requires
        forall|i: int| 0 <= i < patterns@.len() ==> has_unmasked(#[trigger] patterns@[i]@),
    ensures
        r@.len() == patterns@.len(),
        forall|i: int| 0 <= i < patterns@.len() ==> lists_matches(#[trigger] r@[i]@, patterns@[i]@, haystack@),
{
    find_multiple_overlapping_inner(haystack, patterns, AhoCorasickMultipleSearch, ScanSingleSearch)
}

/// The first offset at which `pattern` matches `haystack`, trying every
/// offset in turn.
fn scan_first(pattern: &[MaskedByte], haystack: &[u8]) -> (r: Option<usize>)
    ensures
        r is None ==> forall|x: int| !#[trigger] matches_at(pattern@, haystack@, x),
        r matches Some(o) ==> matches_at(pattern@, haystack@, o as int),
        r matches Some(o) ==> forall|x: int| 0 <= x < o ==> !#[trigger] matches_at(pattern@, haystack@, x),
{
    let hlen = haystack.len();
    let mut o: usize = 0;
    while o <= hlen
        invariant
            hlen == haystack@.len(),
            forall|x: int| 0 <= x < o ==> !#[trigger] matches_at(pattern@, haystack@, x),
        decreases hlen + 1 - o,
    {
        if match_at(pattern, haystack, o) {
            return Some(o);
        }
        if o == hlen {
            return None;
        }
        o = o + 1;
    }
    None
}

/// The first offset at which `pattern` matches `haystack`; the search stops
/// there. The pattern must hold a fully compared byte.
pub fn find_one(pattern: Pattern<'_>, haystack: &[u8]) -> (r: Option<usize>)
    requires
        has_unmasked(pattern@),
    ensures
        r is None ==> forall|x: int| !#[trigger] matches_at(pattern@, haystack@, x),
        r matches Some(o) ==> matches_at(pattern@, haystack@, o as int),
        r matches Some(o) ==> forall|x: int| 0 <= x < o ==> !#[trigger] matches_at(pattern@, haystack@, x),
{
    // Atom scores are sums over the pattern, which must stay in range.
    if pattern.len() > usize::MAX / 20 {
        return scan_first(pattern, haystack);
    }
    let (start, end) = match find_best_atom(pattern) {
        Some((start, end, quality)) => {
            if quality < ATOM_QUALITY_THRESHOLD {
                return scan_first(pattern, haystack);
            }
            (start, end)
        },
        None => return scan_first(pattern, haystack),
    };
    let atom = pattern_to_bytes(slice_subrange(pattern, start, end));
    let ghost a = values_of(pattern@.subrange(start as int, end as int));
    let hlen = haystack.len();
    let mut from: usize = 0;
    while from <= hlen
        invariant
            hlen == haystack@.len(),
            atom@ == a,
            a == values_of(pattern@.subrange(start as int, end as int)),
            is_run(pattern@, start as int, end as int),
            forall|x: int| #[trigger] matches_at(pattern@, haystack@, x) ==> x + start >= from,
        decreases hlen + 1 - from,
    {
        let rest = slice_subrange(haystack, from, hlen);
        let needle = atom.as_slice();
        assert(needle@ == a);
        match kmp_first(needle, rest) {
            None => {
                assert forall|x: int| !#[trigger] matches_at(pattern@, haystack@, x) by {
                    if matches_at(pattern@, haystack@, x) {
                        lemma_match_implies_atom(pattern@, haystack@, x, start as int, end as int);
                        lemma_occurs_in_suffix(a, haystack@, from as int, x + start - from);
                        assert(occurs_at(needle@, rest@, x + start - from));
                    }
                }
                return None;
            },
            Some(q) => {
                proof {
                    lemma_occurs_in_suffix(a, haystack@, from as int, q as int);
                }
                let c = from + q;
                if c >= start && match_at(pattern, haystack, c - start) {
                    assert forall|x: int| 0 <= x < c - start implies !#[trigger] matches_at(pattern@, haystack@, x) by {
                        if matches_at(pattern@, haystack@, x) {
                            lemma_match_implies_atom(pattern@, haystack@, x, start as int, end as int);
                            lemma_occurs_in_suffix(a, haystack@, from as int, x + start - from);
                            assert(occurs_at(needle@, rest@, x + start - from));
                        }
                    }
                    return Some(c - start);
                }
                assert forall|x: int| #[trigger] matches_at(pattern@, haystack@, x) implies x + start >= c + 1 by {
                    lemma_match_implies_atom(pattern@, haystack@, x, start as int, end as int);
                    lemma_occurs_in_suffix(a, haystack@, from as int, x + start - from);
                }
                from = c + 1;
            },
        }
    }
    assert forall|x: int| !#[trigger] matches_at(pattern@, haystack@, x) by {
        if matches_at(pattern@, haystack@, x) {
            assert(x + pattern@.len() <= hlen);
            assert(end <= pattern@.len());
        }
    }
    None
}

/// Two strictly increasing lists with the same members are the same list.
proof fn lemma_sorted_same_members(a: Seq<usize>, b: Seq<usize>)
    requires
        strictly_increasing(a),
        strictly_increasing(b),
        forall|x: usize| a.contains(x) <==> b.contains(x),
    ensures
        a == b,
    decreases a.len(),
{
    if a.len() == 0 {
        if b.len() > 0 {
            assert(b.contains(b[0]));
        }
        assert(a =~= b);
    } else {
        assert(a.contains(a.last()));
        assert(b.len() > 0);
        assert(b.contains(b.last()));
        let j = choose|j: int| 0 <= j < b.len() && b[j] == a.last();
        let i = choose|i: int| 0 <= i < a.len() && a[i] == b.last();
        if j < b.len() - 1 {
            assert(b[j] < b[b.len() - 1]);
        }
        if i < a.len() - 1 {
            assert(a[i] < a[a.len() - 1]);
        }
        assert(a.last() == b.last());
        let a2 = a.drop_last();
        let b2 = b.drop_last();
        assert forall|x: usize| a2.contains(x) <==> b2.contains(x) by {
            if a2.contains(x) {
                let k = choose|k: int| 0 <= k < a2.len() && a2[k] == x;
                assert(a[k] < a[a.len() - 1]);
                assert(a.contains(x));
                let m = choose|m: int| 0 <= m < b.len() && b[m] == x;
                assert(m != b.len() - 1);
                assert(b2[m] == x);
            }
            if b2.contains(x) {
                let k = choose|k: int| 0 <= k < b2.len() && b2[k] == x;
                assert(b[k] < b[b.len() - 1]);
                assert(b.contains(x));
                let m = choose|m: int| 0 <= m < a.len() && a[m] == x;
                assert(m != a.len() - 1);
                assert(a2[m] == x);
            }
        }
        lemma_sorted_same_members(a2, b2);
        assert(a =~= a2.push(a.last()));
        assert(b =~= b2.push(b.last()));
    }
}

/// The offsets that a search returns are fixed by the pattern and the
/// haystack alone: searching again, with either entry point, gives the same
/// offsets in the same order.
pub proof fn lemma_search_is_deterministic(p: Seq<MaskedByte>, h: Seq<u8>, r1: Seq<usize>, r2: Seq<usize>)
    requires
        lists_matches(r1, p, h),
        lists_matches(r2, p, h),
    ensures
        r1 == r2,
{
    assert forall|x: usize| r1.contains(x) <==> r2.contains(x) by {
        if r1.contains(x) {
            let k = choose|k: int| 0 <= k < r1.len() && r1[k] == x;
            assert(matches_at(p, h, x as int));
        }
        if r2.contains(x) {
            let k = choose|k: int| 0 <= k < r2.len() && r2[k] == x;
            assert(matches_at(p, h, x as int));
        }
    }
    lemma_sorted_same_members(r1, r2);
}

} // verus!
