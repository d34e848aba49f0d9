//! The masked byte, the pattern made of them, and the matching predicate.
use vstd::prelude::*;
use vstd::slice::slice_subrange;

verus! {

/// One pattern position: a byte value and the bits of it that must match.
#[derive(Clone, Copy, Debug)]
pub struct MaskedByte {
    byte: u8,
    mask: u8,
}

/// A pattern is a borrowed run of masked bytes.
pub type Pattern<'a> = &'a [MaskedByte];

impl MaskedByte {
    /// The byte value of this position.
    pub closed spec fn value(self) -> u8 {
        self.byte
    }

    /// The bits of the haystack byte that are compared.
    pub closed spec fn bits(self) -> u8 {
        self.mask
    }

    /// Every bit is compared.
    pub open spec fn spec_is_unmasked(self) -> bool {
        self.bits() == 0xFF
    }

    /// The haystack byte `h` agrees with this position on every compared bit.
    pub open spec fn matches(self, h: u8) -> bool {
        self.bits() & h == self.value() & self.bits()
    }

    /// A wildcard: it matches every byte.
    pub fn masked() -> (r: Self)
        ensures
            r.value() == 0,
            r.bits() == 0,
    {
        MaskedByte { byte: 0, mask: 0 }
    }

    /// A concrete byte: it matches `byte` alone.
    pub fn full(byte: u8) -> (r: Self)
        ensures
            r.value() == byte,
            r.bits() == 0xFF,
    {
        MaskedByte { byte, mask: 0xFF }
    }

    /// A position with an explicit value and mask.
    pub fn new(byte: u8, mask: u8) -> (r: Self)
        ensures
            r.value() == byte,
            r.bits() == mask,
    {
        MaskedByte { byte, mask }
    }

    /// Whether every bit of this position is compared.
    pub fn is_unmasked(&self) -> (r: bool)
        ensures
            r == self.spec_is_unmasked(),
    {
        self.mask == 0xFF
    }

    /// Whether the haystack byte `other` matches this position.
    pub fn match_haystack(&self, other: &u8) -> (r: bool)
        ensures
            r == self.matches(*other),
    {
        self.mask & *other == self.byte & self.mask
    }

    /// The value that this position reads, for handing to exact search.
    pub(crate) fn byte(&self) -> (r: u8)
        ensures
            r == self.value(),
    {
        self.byte
    }
}

/// A fully compared position matches exactly its own value.
pub proof fn lemma_unmasked_matches_only_value(b: MaskedByte, h: u8)
    requires
        b.spec_is_unmasked(),
    ensures
        b.matches(h) <==> h == b.value(),
{
    let v = b.value();
    assert(0xFFu8 & h == v & 0xFFu8 <==> h == v) by (bit_vector);
}

/// Every position of `p` matches the haystack byte `off` places further on.
pub open spec fn matches_window(p: Seq<MaskedByte>, h: Seq<u8>, off: int) -> bool {
    forall|k: int| 0 <= k < p.len() ==> #[trigger] p[k].matches(h[off + k])
}

/// The pattern `p` occurs in the haystack `h` at offset `off`.
pub open spec fn matches_at(p: Seq<MaskedByte>, h: Seq<u8>, off: int) -> bool {
    &&& 0 <= off
    &&& off + p.len() <= h.len()
    &&& matches_window(p, h, off)
}

/// The values that a run of positions reads.
pub open spec fn values_of(p: Seq<MaskedByte>) -> Seq<u8> {
    p.map_values(|b: MaskedByte| b.value())
}

/// Whether a pattern matches a haystack window of the same length.
pub fn match_haystack(pattern: &[MaskedByte], haystack: &[u8]) -> (r: bool)
    requires
        pattern@.len() == haystack@.len(),
    ensures
        r == matches_window(pattern@, haystack@, 0),
{
    let mut i: usize = 0;
    while i < pattern.len()
        invariant
            i <= pattern@.len(),
            pattern@.len() == haystack@.len(),
            matches_window(pattern@.subrange(0, i as int), haystack@, 0),
        decreases pattern@.len() - i,
    {
        if !pattern[i].match_haystack(&haystack[i]) {
            assert(!pattern@[i as int].matches(haystack@[0 + i]));
            return false;
        }
        assert(matches_window(pattern@.subrange(0, i + 1), haystack@, 0)) by {
            assert forall|k: int| 0 <= k < i + 1 implies #[trigger] pattern@.subrange(
                0,
                i + 1,
            )[k].matches(haystack@[0 + k]) by {
                if k < i {
                    assert(pattern@.subrange(0, i as int)[k] == pattern@[k]);
                }
            }
        }
        i = i + 1;
    }
    assert(pattern@.subrange(0, i as int) =~= pattern@);
    true
}

/// Whether `pattern` matches `haystack` at `offset`; false where the pattern
/// would run past the haystack's end.
pub fn match_at(pattern: &[MaskedByte], haystack: &[u8], offset: usize) -> (r: bool)
    ensures
        r == matches_at(pattern@, haystack@, offset as int),
{
    let hlen = haystack.len();
    let plen = pattern.len();
    if offset > hlen || plen > hlen - offset {
        return false;
    }
    let window = slice_subrange(haystack, offset, offset + plen);
    let hit = match_haystack(pattern, window);
    assert(hit <==> matches_window(pattern@, haystack@, offset as int)) by {
        assert forall|k: int| 0 <= k < plen implies window@[k] == haystack@[offset + k] by {}
        if hit {
            assert forall|k: int| 0 <= k < plen implies #[trigger] pattern@[k].matches(haystack@[offset + k]) by {
                assert(pattern@[k].matches(window@[0 + k]));
            }
        } else if matches_window(pattern@, haystack@, offset as int) {
            assert forall|k: int| 0 <= k < plen implies #[trigger] pattern@[k].matches(window@[0 + k]) by {
                assert(pattern@[k].matches(haystack@[offset + k]));
            }
        }
    }
    hit
}

/// The values of a run of positions, as bytes.
pub(crate) fn pattern_to_bytes(pat: &[MaskedByte]) -> (r: Vec<u8>)
    ensures
        r@ == values_of(pat@),
{
    let mut r: Vec<u8> = Vec::new();
    let mut i: usize = 0;
    while i < pat.len()
        invariant
            i <= pat@.len(),
            r@ == values_of(pat@.subrange(0, i as int)),
        decreases pat@.len() - i,
    {
        r.push(pat[i].byte());
        i = i + 1;
        assert(r@ =~= values_of(pat@.subrange(0, i as int)));
    }
    assert(pat@.subrange(0, i as int) =~= pat@);
    r
}

} // verus!
