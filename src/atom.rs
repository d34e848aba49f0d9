//! Choosing the atom of a pattern: its concrete run that is most selective
//! when searched for exactly.
use vstd::prelude::*;
use vstd::slice::slice_subrange;
use crate::masked::{MaskedByte, Pattern};

verus! {

/// The score of an atom.
pub type AtomQuality = usize;

/// Atoms scoring below this are not selective enough to search for.
pub const ATOM_QUALITY_THRESHOLD: AtomQuality = 40;

/// How selective one byte is: filler bytes score low, common markers
/// somewhat higher, every other byte highest.
pub open spec fn byte_quality(b: u8) -> nat {
    if b == 0x00 || b == 0xFF {
        12
    } else if b == 0x80 || b == 0x7F || b == 0x20 || b == 0xCC {
        15
    } else {
        20
    }
}

/// The score of a run of positions: the sum of its values' byte scores.
pub open spec fn quality(p: Seq<MaskedByte>) -> nat
    decreases p.len(),
{
    if p.len() == 0 {
        0
    } else {
        quality(p.drop_last()) + byte_quality(p.last().value())
    }
}

/// The score of the positions `[s, e)` of `p`.
pub open spec fn run_quality(p: Seq<MaskedByte>, s: int, e: int) -> nat {
    quality(p.subrange(s, e))
}

/// `[s, e)` is a maximal non-empty run of fully compared positions of `p`.
pub open spec fn is_run(p: Seq<MaskedByte>, s: int, e: int) -> bool {
    &&& 0 <= s < e <= p.len()
    &&& forall|k: int| s <= k < e ==> #[trigger] p[k].spec_is_unmasked()
    &&& s == 0 || !p[s - 1].spec_is_unmasked()
    &&& e == p.len() || !p[e].spec_is_unmasked()
}

/// `p` has at least one fully compared position.
pub open spec fn has_unmasked(p: Seq<MaskedByte>) -> bool {
    exists|k: int| 0 <= k < p.len() && #[trigger] p[k].spec_is_unmasked()
}

/// `[s, e)` is the best run of `p`: no run scores higher, and every run
/// before it scores lower.
pub open spec fn is_best_run(p: Seq<MaskedByte>, s: int, e: int) -> bool {
    &&& is_run(p, s, e)
    &&& forall|s2: int, e2: int| #[trigger] is_run(p, s2, e2) ==> run_quality(p, s2, e2) <= run_quality(p, s, e)
    &&& forall|s2: int, e2: int| #[trigger] is_run(p, s2, e2) && s2 < s ==> run_quality(p, s2, e2) < run_quality(p, s, e)
}

proof fn lemma_quality_bound(p: Seq<MaskedByte>)
    ensures
        quality(p) <= 20 * p.len(),
    decreases p.len(),
{
    if p.len() > 0 {
        lemma_quality_bound(p.drop_last());
    }
}

fn evaluate_byte_quality(byte: u8) -> (r: AtomQuality)
    ensures
        r == byte_quality(byte),
{
    match byte {
        0x00 | 0xFF => 12,
        0x80 | 0x7F | 0x20 | 0xCC => 15,
        _ => 20,
    }
}

/// The score of a run of positions.
fn evaluate_atom_quality(pattern: &[MaskedByte]) -> (r: AtomQuality)
    requires
        pattern@.len() <= usize::MAX / 20,
    ensures
        r == quality(pattern@),
{
    let mut q: AtomQuality = 0;
    let mut i: usize = 0;
    while i < pattern.len()
        invariant
            i <= pattern@.len(),
            pattern@.len() <= usize::MAX / 20,
            q == quality(pattern@.subrange(0, i as int)),
        decreases pattern@.len() - i,
    {
        let ghost pre = pattern@.subrange(0, i as int);
        let ghost next = pattern@.subrange(0, i + 1);
        proof {
            assert(next.drop_last() =~= pre);
            lemma_quality_bound(pre);
        }
        q = q + evaluate_byte_quality(pattern[i].byte());
        i = i + 1;
    }
    assert(pattern@.subrange(0, i as int) =~= pattern@);
    q
}

/// All maximal runs of fully compared positions, in order.
fn find_largest_sequences_of_unmasked_bytes(masked_bytes: &[MaskedByte]) -> (res: Vec<(usize, usize)>)
    ensures
        forall|j: int| 0 <= j < res@.len() ==> is_run(masked_bytes@, #[trigger] res@[j].0 as int, res@[j].1 as int),
        forall|j: int, k: int| 0 <= j < k < res@.len() ==> #[trigger] res@[j].1 < #[trigger] res@[k].0,
        forall|s: int, e: int| #[trigger] is_run(masked_bytes@, s, e) ==> exists|j: int| 0 <= j < res@.len() && #[trigger] res@[j] == (s as usize, e as usize),
        forall|k: int| 0 <= k < masked_bytes@.len() && #[trigger] masked_bytes@[k].spec_is_unmasked() ==> exists|j: int| 0 <= j < res@.len() && #[trigger] res@[j].0 <= k < res@[j].1,
{
    let ghost p = masked_bytes@;
    let mut res: Vec<(usize, usize)> = Vec::new();
    let mut start: usize = 0;
    let mut i: usize = 0;
    while i < masked_bytes.len()
        invariant
            p == masked_bytes@,
            start <= i <= p.len(),
            forall|k: int| start <= k < i ==> #[trigger] p[k].spec_is_unmasked(),
            start == 0 || !p[start - 1].spec_is_unmasked(),
            forall|j: int| 0 <= j < res@.len() ==> is_run(p, #[trigger] res@[j].0 as int, res@[j].1 as int),
            forall|j: int| 0 <= j < res@.len() ==> #[trigger] res@[j].1 < start,
            forall|j: int, k: int| 0 <= j < k < res@.len() ==> #[trigger] res@[j].1 < #[trigger] res@[k].0,
            forall|s: int, e: int| #[trigger] is_run(p, s, e) && e < i ==> exists|j: int| 0 <= j < res@.len() && #[trigger] res@[j] == (s as usize, e as usize),
            forall|k: int| 0 <= k < start && #[trigger] p[k].spec_is_unmasked() ==> exists|j: int| 0 <= j < res@.len() && #[trigger] res@[j].0 <= k < res@[j].1,
        decreases p.len() - i,
    {
        if !masked_bytes[i].is_unmasked() {
            if i != start {
                let ghost old_res = res@;
                res.push((start, i));
                assert(is_run(p, start as int, i as int));
                assert forall|s: int, e: int| #[trigger] is_run(p, s, e) && e < i + 1 implies exists|j: int| 0 <= j < res@.len() && #[trigger] res@[j] == (s as usize, e as usize) by {
                    if e < i {
                        let j = choose|j: int| 0 <= j < old_res.len() && #[trigger] old_res[j] == (s as usize, e as usize);
                        assert(res@[j] == old_res[j]);
                    } else {
                        if s < start {
                            assert(p[start - 1].spec_is_unmasked());
                        }
                        if s > start {
                            assert(p[s - 1].spec_is_unmasked());
                        }
                        assert(res@[old_res.len() as int] == (s as usize, e as usize));
                    }
                }
                assert forall|k: int| 0 <= k < i + 1 && #[trigger] p[k].spec_is_unmasked() implies exists|j: int| 0 <= j < res@.len() && #[trigger] res@[j].0 <= k < res@[j].1 by {
                    if k < start {
                        let j = choose|j: int| 0 <= j < old_res.len() && #[trigger] old_res[j].0 <= k < old_res[j].1;
                        assert(res@[j] == old_res[j]);
                    } else {
                        assert(res@[old_res.len() as int].0 <= k < res@[old_res.len() as int].1);
                    }
                }
            } else {
                assert forall|s: int, e: int| #[trigger] is_run(p, s, e) && e < i + 1 implies exists|j: int| 0 <= j < res@.len() && #[trigger] res@[j] == (s as usize, e as usize) by {
                    if e == i {
                        if s < start {
                            assert(p[start - 1].spec_is_unmasked());
                        }
                        assert(p[s].spec_is_unmasked());
                    }
                }
            }
            start = i + 1;
        } else {
            assert forall|s: int, e: int| #[trigger] is_run(p, s, e) && e < i + 1 implies exists|j: int| 0 <= j < res@.len() && #[trigger] res@[j] == (s as usize, e as usize) by {
                if e == i {
                    assert(!p[e].spec_is_unmasked());
                }
            }
        }
        i = i + 1;
    }
    if start != masked_bytes.len() {
        let ghost old_res = res@;
        res.push((start, masked_bytes.len()));
        assert(is_run(p, start as int, p.len() as int));
        assert forall|s: int, e: int| #[trigger] is_run(p, s, e) implies exists|j: int| 0 <= j < res@.len() && #[trigger] res@[j] == (s as usize, e as usize) by {
            if e < p.len() {
                let j = choose|j: int| 0 <= j < old_res.len() && #[trigger] old_res[j] == (s as usize, e as usize);
                assert(res@[j] == old_res[j]);
            } else {
                if s < start {
                    assert(p[start - 1].spec_is_unmasked());
                }
                if s > start {
                    assert(p[s - 1].spec_is_unmasked());
                }
                assert(res@[old_res.len() as int] == (s as usize, e as usize));
            }
        }
        assert forall|k: int| 0 <= k < p.len() && #[trigger] p[k].spec_is_unmasked() implies exists|j: int| 0 <= j < res@.len() && #[trigger] res@[j].0 <= k < res@[j].1 by {
            if k < start {
                let j = choose|j: int| 0 <= j < old_res.len() && #[trigger] old_res[j].0 <= k < old_res[j].1;
                assert(res@[j] == old_res[j]);
            } else {
                assert(res@[old_res.len() as int].0 <= k < res@[old_res.len() as int].1);
            }
        }
    } else {
        assert forall|s: int, e: int| #[trigger] is_run(p, s, e) implies exists|j: int| 0 <= j < res@.len() && #[trigger] res@[j] == (s as usize, e as usize) by {
            if e == p.len() {
                if s < start {
                    assert(p[start - 1].spec_is_unmasked());
                }
                assert(p[s].spec_is_unmasked());
            }
        }
    }
    res
}

/// The best atom of `pattern`, as its start, end and score; `None` when no
/// position is fully compared. Of runs that score alike the first is chosen.
pub fn find_best_atom(pattern: Pattern<'_>) -> (r: Option<(usize, usize, AtomQuality)>)
    requires
        pattern@.len() <= usize::MAX / 20,
    ensures
        r is None <==> !has_unmasked(pattern@),
        r matches Some((s, e, q)) ==> is_best_run(pattern@, s as int, e as int) && q == run_quality(pattern@, s as int, e as int),
{
    let ghost p = pattern@;
    let runs = find_largest_sequences_of_unmasked_bytes(pattern);
    let mut best: Option<(usize, usize, AtomQuality)> = None;
    let ghost mut b: int = 0;
    let mut j: usize = 0;
    while j < runs.len()
        invariant
            p == pattern@,
            p.len() <= usize::MAX / 20,
            j <= runs@.len(),
            forall|i: int| 0 <= i < runs@.len() ==> is_run(p, #[trigger] runs@[i].0 as int, runs@[i].1 as int),
            forall|i: int, k: int| 0 <= i < k < runs@.len() ==> #[trigger] runs@[i].1 < #[trigger] runs@[k].0,
            j == 0 <==> best is None,
            best matches Some((s, e, q)) ==> {
                &&& 0 <= b < j
                &&& runs@[b] == (s, e)
                &&& q == run_quality(p, s as int, e as int)
                &&& forall|i: int| 0 <= i < j ==> run_quality(p, #[trigger] runs@[i].0 as int, runs@[i].1 as int) <= q
                &&& forall|i: int| 0 <= i < b ==> run_quality(p, #[trigger] runs@[i].0 as int, runs@[i].1 as int) < q
            },
        decreases runs@.len() - j,
    {
        let (start, end) = runs[j];
        let q = evaluate_atom_quality(slice_subrange(pattern, start, end));
        let better = match best {
            None => true,
            Some((_, _, bq)) => q > bq,
        };
        if better {
            best = Some((start, end, q));
            proof {
                b = j as int;
            }
        }
        j = j + 1;
    }
    proof {
        if runs@.len() == 0 {
            if has_unmasked(p) {
                let k = choose|k: int| 0 <= k < p.len() && #[trigger] p[k].spec_is_unmasked();
                let i = choose|i: int| 0 <= i < runs@.len() && #[trigger] runs@[i].0 <= k < runs@[i].1;
            }
        } else {
            assert(p[runs@[0].0 as int].spec_is_unmasked());
        }
        if let Some((s, e, q)) = best {
            assert(is_run(p, runs@[b].0 as int, runs@[b].1 as int));
            assert forall|s2: int, e2: int| #[trigger] is_run(p, s2, e2) implies run_quality(p, s2, e2) <= q && (s2 < s ==> run_quality(p, s2, e2) < q) by {
                let i = choose|i: int| 0 <= i < runs@.len() && #[trigger] runs@[i] == (s2 as usize, e2 as usize);
                assert(runs@[i].0 as int == s2 && runs@[i].1 as int == e2);
                assert(run_quality(p, runs@[i].0 as int, runs@[i].1 as int) <= q);
                if s2 < s {
                    if i > b {
                        assert(runs@[b].1 < runs@[i].0);
                        assert(is_run(p, runs@[b].0 as int, runs@[b].1 as int));
                    }
                    assert(i != b);
                    assert(run_quality(p, runs@[i].0 as int, runs@[i].1 as int) < q);
                }
            }
        }
    }
    best
}

} // verus!
