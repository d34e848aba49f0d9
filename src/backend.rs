//! Search backends: exact search for concrete byte strings, and whole-pattern
//! search for patterns that have no selective atom.
use vstd::prelude::*;
use vstd::slice::slice_subrange;
use crate::masked::{match_at, matches_at, MaskedByte};

verus! {

/// `needle` occurs in `hay` at offset `off`.
pub open spec fn occurs_at(needle: Seq<u8>, hay: Seq<u8>, off: int) -> bool {
    &&& 0 <= off
    &&& off + needle.len() <= hay.len()
    &&& hay.subrange(off, off + needle.len()) == needle
}

/// The offsets in `offs` increase strictly.
pub open spec fn strictly_increasing(offs: Seq<usize>) -> bool {
    forall|i: int, j: int| 0 <= i < j < offs.len() ==> #[trigger] offs[i] < #[trigger] offs[j]
}

/// `offs` lists, in increasing order, every offset at which `needle` occurs
/// in `hay`, and nothing else.
pub open spec fn lists_occurrences(offs: Seq<usize>, needle: Seq<u8>, hay: Seq<u8>) -> bool {
    &&& strictly_increasing(offs)
    &&& forall|j: int| 0 <= j < offs.len() ==> occurs_at(needle, hay, #[trigger] offs[j] as int)
    &&& forall|o: int| #[trigger] occurs_at(needle, hay, o) ==> offs.contains(o as usize)
}

/// `offs` lists, in increasing order, every offset at which the pattern `p`
/// matches `hay`, and nothing else.
pub open spec fn lists_matches(offs: Seq<usize>, p: Seq<MaskedByte>, hay: Seq<u8>) -> bool {
    &&& strictly_increasing(offs)
    &&& forall|j: int| 0 <= j < offs.len() ==> matches_at(p, hay, #[trigger] offs[j] as int)
    &&& forall|o: int| #[trigger] matches_at(p, hay, o) ==> offs.contains(o as usize)
}

/// Exact search for several concrete byte strings in one haystack, reporting
/// every occurrence, overlapping ones included.
pub trait MultipleSearch {
    /// For each of `patterns`, the offsets of its occurrences in `haystack`.
    /// None of the strings may be empty.
    fn search_multiple(&self, haystack: &[u8], patterns: &Vec<Vec<u8>>) -> (r: Vec<Vec<usize>>)
        requires
            forall|i: int| 0 <= i < patterns@.len() ==> #[trigger] patterns@[i]@.len() > 0,
        ensures
            r@.len() == patterns@.len(),
            forall|i: int| 0 <= i < patterns@.len() ==> lists_occurrences(#[trigger] r@[i]@, patterns@[i]@, haystack@),
    ;
}

/// Search for one whole masked pattern, without an atom to filter by.
pub trait SingleSearch {
    /// The offsets at which `pattern` matches `haystack`.
    fn search_single(&self, haystack: &[u8], pattern: &[MaskedByte]) -> (r: Vec<usize>)
        ensures
            lists_matches(r@, pattern@, haystack@),
    ;
}

/// Relies on `kmp::kmp_find`: the leftmost offset at which `needle` occurs in
/// `haystack`, or `None` where it occurs nowhere.
#[verifier::external_body]
pub(crate) fn kmp_first(needle: &[u8], haystack: &[u8]) -> (r: Option<usize>)
    ensures
        r is None ==> forall|o: int| !#[trigger] occurs_at(needle@, haystack@, o),
        r matches Some(p) ==> occurs_at(needle@, haystack@, p as int),
        r matches Some(p) ==> forall|o: int| 0 <= o < p ==> !#[trigger] occurs_at(needle@, haystack@, o),
{
    kmp::kmp_find(needle, haystack)
}

/// Relies on `aho_corasick::AhoCorasick::new`, whose default match semantics
/// are the standard ones, and on its `find_overlapping_iter`, which walks the
/// haystack left to right and reports every match of every pattern that ends
/// at each position. Each match comes as its pattern's index and start.
/// `None` where the automaton cannot be built.
#[verifier::external_body]
fn aho_corasick_overlapping(patterns: &Vec<Vec<u8>>, haystack: &[u8]) -> (r: Option<Vec<(usize, usize)>>)
    requires
        forall|i: int| 0 <= i < patterns@.len() ==> #[trigger] patterns@[i]@.len() > 0,
    ensures
        r matches Some(m) ==> forall|k: int| 0 <= k < m@.len() ==> (#[trigger] m@[k]).0 < patterns@.len()
            && occurs_at(patterns@[m@[k].0 as int]@, haystack@, m@[k].1 as int),
        r matches Some(m) ==> forall|i: int, o: int| 0 <= i < patterns@.len() && #[trigger] occurs_at(patterns@[i]@, haystack@, o)
            ==> exists|k: int| 0 <= k < m@.len() && #[trigger] m@[k] == (i as usize, o as usize),
        r matches Some(m) ==> forall|k1: int, k2: int| 0 <= k1 < k2 < m@.len() && (#[trigger] m@[k1]).0 == (#[trigger] m@[k2]).0
            ==> m@[k1].1 < m@[k2].1,
{
    match aho_corasick::AhoCorasick::new(patterns) {
        Ok(ac) => Some(ac.find_overlapping_iter(haystack).map(|m| (m.pattern().as_usize(), m.start())).collect()),
        Err(_) => None,
    }
}

pub(crate) proof fn lemma_occurs_in_suffix(needle: Seq<u8>, hay: Seq<u8>, start: int, o: int)
    requires
        0 <= start <= hay.len(),
        0 <= o,
    ensures
        occurs_at(needle, hay.subrange(start, hay.len() as int), o) <==> occurs_at(needle, hay, start + o),
{
    let suffix = hay.subrange(start, hay.len() as int);
    if 0 <= o && o + needle.len() <= suffix.len() {
        assert(suffix.subrange(o, o + needle.len()) =~= hay.subrange(start + o, start + o + needle.len()));
    }
}

/// Every occurrence of `needle` in `haystack`, overlapping ones included,
/// found by repeated leftmost search.
fn kmp_all(needle: &[u8], haystack: &[u8]) -> (r: Vec<usize>)
    requires
        needle@.len() > 0,
    ensures
        lists_occurrences(r@, needle@, haystack@),
{
    let mut r: Vec<usize> = Vec::new();
    let mut start: usize = 0;
    while start <= haystack.len()
        invariant
            needle@.len() > 0,
            strictly_increasing(r@),
            forall|j: int| 0 <= j < r@.len() ==> #[trigger] r@[j] < start,
            forall|j: int| 0 <= j < r@.len() ==> occurs_at(needle@, haystack@, #[trigger] r@[j] as int),
            forall|o: int| #[trigger] occurs_at(needle@, haystack@, o) && o < start ==> r@.contains(o as usize),
        decreases haystack@.len() + 1 - start,
    {
        let rest = slice_subrange(haystack, start, haystack.len());
        match kmp_first(needle, rest) {
            None => {
                assert forall|o: int| #[trigger] occurs_at(needle@, haystack@, o) implies r@.contains(o as usize) by {
                    if o >= start {
                        lemma_occurs_in_suffix(needle@, haystack@, start as int, o - start);
                    }
                }
                return r;
            },
            Some(p) => {
                proof {
                    lemma_occurs_in_suffix(needle@, haystack@, start as int, p as int);
                }
                let ghost old_r = r@;
                let found = start + p;
                r.push(found);
                assert forall|o: int| #[trigger] occurs_at(needle@, haystack@, o) && o < found + 1 implies r@.contains(o as usize) by {
                    if o < start {
                        assert(old_r.contains(o as usize));
                        let j = choose|j: int| 0 <= j < old_r.len() && old_r[j] == o as usize;
                        assert(r@[j] == old_r[j]);
                    } else if o < found {
                        lemma_occurs_in_suffix(needle@, haystack@, start as int, o - start);
                    } else {
                        assert(r@[old_r.len() as int] == o as usize);
                    }
                }
                start = found + 1;
            },
        }
    }
    assert forall|o: int| #[trigger] occurs_at(needle@, haystack@, o) implies r@.contains(o as usize) by {}
    r
}

/// Exact search that runs a Knuth-Morris-Pratt search for each string on its own.
pub struct KmpMultipleSearch;

impl MultipleSearch for KmpMultipleSearch {
    fn search_multiple(&self, haystack: &[u8], patterns: &Vec<Vec<u8>>) -> (r: Vec<Vec<usize>>) {
        let mut r: Vec<Vec<usize>> = Vec::new();
        let mut i: usize = 0;
        while i < patterns.len()
            invariant
                i <= patterns@.len(),
                r@.len() == i,
                forall|k: int| 0 <= k < patterns@.len() ==> #[trigger] patterns@[k]@.len() > 0,
                forall|k: int| 0 <= k < i ==> lists_occurrences(#[trigger] r@[k]@, patterns@[k]@, haystack@),
            decreases patterns@.len() - i,
        {
            assert(patterns@[i as int]@.len() > 0);
            r.push(kmp_all(patterns[i].as_slice(), haystack));
            i = i + 1;
        }
        r
    }
}

/// Exact search that builds one Aho-Corasick automaton over all strings and
/// scans the haystack once; for no strings it returns no lists. Where the automaton cannot be built it searches
/// string by string instead.
pub struct AhoCorasickMultipleSearch;

/// One of the first `upto` pairs of `found` is `(i, o)`.
spec fn was_found(found: Seq<(usize, usize)>, upto: int, i: int, o: usize) -> bool {
    exists|x: int| 0 <= x < upto && #[trigger] found[x] == (i as usize, o)
}

/// Sorts the `(pattern index, start)` pairs of `found` into one offset list
/// per pattern, keeping their order.
fn demultiplex(n: usize, found: &Vec<(usize, usize)>) -> (r: Vec<Vec<usize>>)
    requires
        forall|k: int| 0 <= k < found@.len() ==> (#[trigger] found@[k]).0 < n,
        forall|k1: int, k2: int| 0 <= k1 < k2 < found@.len() && (#[trigger] found@[k1]).0 == (#[trigger] found@[k2]).0
            ==> found@[k1].1 < found@[k2].1,
    ensures
        r@.len() == n,
        forall|i: int| 0 <= i < n ==> strictly_increasing(#[trigger] r@[i]@),
        forall|i: int, j: int| 0 <= i < n && 0 <= j < r@[i]@.len() ==> was_found(found@, found@.len() as int, i, #[trigger] r@[i]@[j]),
        forall|k: int| 0 <= k < found@.len() ==> r@[(#[trigger] found@[k]).0 as int]@.contains(found@[k].1),
{
    let mut r: Vec<Vec<usize>> = Vec::new();
    let mut i: usize = 0;
    while i < n
        invariant
            i <= n,
            r@.len() == i,
            forall|k: int| 0 <= k < i ==> (#[trigger] r@[k])@.len() == 0,
        decreases n - i,
    {
        r.push(Vec::new());
        i = i + 1;
    }
    let mut k: usize = 0;
    while k < found.len()
        invariant
            k <= found@.len(),
            r@.len() == n,
            forall|x: int| 0 <= x < found@.len() ==> (#[trigger] found@[x]).0 < n,
            forall|k1: int, k2: int| 0 <= k1 < k2 < found@.len() && (#[trigger] found@[k1]).0 == (#[trigger] found@[k2]).0
                ==> found@[k1].1 < found@[k2].1,
            forall|i: int| 0 <= i < n ==> strictly_increasing(#[trigger] r@[i]@),
            forall|i: int, j: int| 0 <= i < n && 0 <= j < r@[i]@.len() ==> was_found(found@, k as int, i, #[trigger] r@[i]@[j]),
            forall|x: int| 0 <= x < k ==> r@[(#[trigger] found@[x]).0 as int]@.contains(found@[x].1),
        decreases found@.len() - k,
    {
        let (pid, start) = found[k];
        let ghost old_r = r@;
        assert forall|j: int| 0 <= j < old_r[pid as int]@.len() implies #[trigger] old_r[pid as int]@[j] < start by {
            let x = choose|x: int| 0 <= x < k && #[trigger] found@[x] == (pid, old_r[pid as int]@[j]);
            assert(found@[x].0 == found@[k as int].0);
        }
        r[pid].push(start);
        assert forall|i: int| 0 <= i < n implies strictly_increasing(#[trigger] r@[i]@) by {
            if i != pid {
                assert(r@[i] == old_r[i]);
            }
        }
        assert forall|i: int, j: int| 0 <= i < n && 0 <= j < r@[i]@.len() implies was_found(found@, k + 1, i, #[trigger] r@[i]@[j]) by {
            if i != pid {
                assert(r@[i] == old_r[i]);
            } else if j < old_r[i]@.len() {
                assert(r@[i]@[j] == old_r[i]@[j]);
            } else {
                assert(found@[k as int] == (i as usize, r@[i]@[j]));
            }
        }
        assert forall|x: int| 0 <= x < k + 1 implies r@[(#[trigger] found@[x]).0 as int]@.contains(found@[x].1) by {
            let i = found@[x].0 as int;
            if x < k {
                assert(old_r[i]@.contains(found@[x].1));
                if i == pid {
                    let j = choose|j: int| 0 <= j < old_r[i]@.len() && old_r[i]@[j] == found@[x].1;
                    assert(r@[i]@[j] == old_r[i]@[j]);
                } else {
                    assert(r@[i] == old_r[i]);
                }
            } else {
                assert(r@[i]@[old_r[i]@.len() as int] == start);
            }
        }
        k = k + 1;
    }
    r
}

impl MultipleSearch for AhoCorasickMultipleSearch {
    fn search_multiple(&self, haystack: &[u8], patterns: &Vec<Vec<u8>>) -> (r: Vec<Vec<usize>>) {
        // An automaton over no strings at all is not built.
        if patterns.len() == 0 {
            return Vec::new();
        }
        match aho_corasick_overlapping(patterns, haystack) {
            None => KmpMultipleSearch.search_multiple(haystack, patterns),
            Some(found) => {
                let r = demultiplex(patterns.len(), &found);
                assert forall|i: int| 0 <= i < patterns@.len() implies lists_occurrences(#[trigger] r@[i]@, patterns@[i]@, haystack@) by {
                    assert forall|j: int| 0 <= j < r@[i]@.len() implies occurs_at(patterns@[i]@, haystack@, #[trigger] r@[i]@[j] as int) by {
                        let x = choose|x: int| 0 <= x < found@.len() && #[trigger] found@[x] == (i as usize, r@[i]@[j]);
                    }
                    assert forall|o: int| #[trigger] occurs_at(patterns@[i]@, haystack@, o) implies r@[i]@.contains(o as usize) by {
                        let x = choose|x: int| 0 <= x < found@.len() && #[trigger] found@[x] == (i as usize, o as usize);
                        assert(r@[found@[x].0 as int]@.contains(found@[x].1));
                    }
                }
                r
            },
        }
    }
}

/// Whole-pattern search that tries the pattern at every offset of the
/// haystack.
pub struct ScanSingleSearch;

impl SingleSearch for ScanSingleSearch {
    fn search_single(&self, haystack: &[u8], pattern: &[MaskedByte]) -> (r: Vec<usize>) {
        let mut r: Vec<usize> = Vec::new();
        if pattern.len() > haystack.len() {
            return r;
        }
        let hlen = haystack.len();
        let plen = pattern.len();
        let last = hlen - plen;
        let mut o: usize = 0;
        loop
            invariant
                o <= last,
                hlen == haystack@.len(),
                plen == pattern@.len(),
                last == hlen - plen,
                strictly_increasing(r@),
                forall|j: int| 0 <= j < r@.len() ==> #[trigger] r@[j] < o,
                forall|j: int| 0 <= j < r@.len() ==> matches_at(pattern@, haystack@, #[trigger] r@[j] as int),
                forall|x: int| #[trigger] matches_at(pattern@, haystack@, x) && x < o ==> r@.contains(x as usize),
            decreases last - o,
        {
            let ghost old_r = r@;
            let hit = match_at(pattern, haystack, o);
            if hit {
                r.push(o);
            }
            assert forall|x: int| #[trigger] matches_at(pattern@, haystack@, x) && x < o + 1 implies r@.contains(x as usize) by {
                if x < o {
                    let j = choose|j: int| 0 <= j < old_r.len() && old_r[j] == x as usize;
                    assert(r@[j] == old_r[j]);
                } else {
                    assert(r@[old_r.len() as int] == x as usize);
                }
            }
            if o == last {
                assert forall|x: int| #[trigger] matches_at(pattern@, haystack@, x) implies r@.contains(x as usize) by {}
                return r;
            }
            o = o + 1;
        }
    }
}

} // verus!
