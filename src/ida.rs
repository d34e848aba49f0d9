//! Reading patterns written as text: space-separated two-character tokens,
//! each two hexadecimal digits or `??`, where `?` leaves a nibble unmatched.
use vstd::prelude::*;

verus! {

/// Why a textual pattern was refused.
#[derive(Clone, Copy, Debug, PartialEq, Eq, Structural)]
pub enum IdaConvertionError {
    /// A character that is neither a hexadecimal digit nor `?`.
    InvalidByteDigit,
    /// A token that is not exactly two characters long.
    InvalidByteLength,
}

impl IdaConvertionError {
    /// A description of the error.
    pub fn message(&self) -> (r: &'static str)
        ensures
            *self == IdaConvertionError::InvalidByteDigit ==> r@ == "invalid byte digit"@,
            *self == IdaConvertionError::InvalidByteLength ==> r@ == "not all bytes have length of 2"@,
    {
        match self {
            IdaConvertionError::InvalidByteDigit => "invalid byte digit",
            IdaConvertionError::InvalidByteLength => "not all bytes have length of 2",
        }
    }
}

/// `c` is a hexadecimal digit, in either case.
pub open spec fn is_hex_digit(c: char) -> bool {
    ('0' <= c <= '9') || ('a' <= c <= 'f') || ('A' <= c <= 'F')
}

/// The value of the hexadecimal digit `c`.
pub open spec fn hex_value(c: char) -> nat {
    if '0' <= c <= '9' {
        (c as u32 - '0' as u32) as nat
    } else if 'a' <= c <= 'f' {
        (c as u32 - 'a' as u32 + 10) as nat
    } else {
        (c as u32 - 'A' as u32 + 10) as nat
    }
}

/// `c` may stand for a nibble: a hexadecimal digit or `?`.
pub open spec fn is_half(c: char) -> bool {
    c == '?' || is_hex_digit(c)
}

/// The nibble value that `c` stands for.
pub open spec fn half_value(c: char) -> nat {
    if c == '?' { 0 } else { hex_value(c) }
}

/// The nibble mask that `c` stands for: none for `?`, all four bits else.
pub open spec fn half_mask(c: char) -> nat {
    if c == '?' { 0 } else { 15 }
}

/// The value and mask of the token made of `a` and `b`.
pub open spec fn token_pair(a: char, b: char) -> (u8, u8) {
    ((16 * half_value(a) + half_value(b)) as u8, (16 * half_mask(a) + half_mask(b)) as u8)
}

/// The first token of `s`, which ends at the first space or at the end, has
/// exactly two characters.
pub open spec fn starts_with_two_chars(s: Seq<char>) -> bool {
    &&& s.len() >= 2
    &&& s[0] != ' '
    &&& s[1] != ' '
    &&& (s.len() == 2 || s[2] == ' ')
}

/// The textual pattern `s`, read token by token from the left; the first
/// token that is refused decides the error.
pub open spec fn parse_spec(s: Seq<char>) -> Result<Seq<(u8, u8)>, IdaConvertionError>
    decreases s.len(),
{
    if !starts_with_two_chars(s) {
        Err(IdaConvertionError::InvalidByteLength)
    } else if !is_half(s[0]) || !is_half(s[1]) {
        Err(IdaConvertionError::InvalidByteDigit)
    } else if s.len() == 2 {
        Ok(seq![token_pair(s[0], s[1])])
    } else {
        match parse_spec(s.subrange(3, s.len() as int)) {
            Ok(rest) => Ok(seq![token_pair(s[0], s[1])] + rest),
            Err(e) => Err(e),
        }
    }
}

/// `s` is `n` tokens, each two nibble characters, with one space between
/// neighbours and none elsewhere.
pub open spec fn is_token_sequence(s: Seq<char>, n: nat) -> bool {
    &&& n >= 1
    &&& s.len() == 3 * n - 1
    &&& forall|k: int| 0 <= k < n ==> is_half(#[trigger] s[3 * k]) && is_half(s[3 * k + 1])
    &&& forall|k: int| 0 <= k < n - 1 ==> #[trigger] s[3 * k + 2] == ' '
}

/// The parse of a well-formed token sequence succeeds with one pair per
/// token: two hexadecimal digits give their byte with mask `0xFF`, and `??`
/// gives value and mask `0`.
pub proof fn lemma_parse_round_trip(s: Seq<char>, n: nat)
    requires
        is_token_sequence(s, n),
    ensures
        parse_spec(s) is Ok,
        parse_spec(s)->Ok_0.len() == n,
        forall|k: int| 0 <= k < n ==> #[trigger] parse_spec(s)->Ok_0[k] == token_pair(s[3 * k], s[3 * k + 1]),
        forall|k: int| 0 <= k < n && is_hex_digit(s[3 * k]) && is_hex_digit(s[3 * k + 1])
            ==> #[trigger] parse_spec(s)->Ok_0[k] == ((16 * hex_value(s[3 * k]) + hex_value(s[3 * k + 1])) as u8, 0xFFu8),
        forall|k: int| 0 <= k < n && s[3 * k] == '?' && s[3 * k + 1] == '?' ==> #[trigger] parse_spec(s)->Ok_0[k] == (0u8, 0u8),
    decreases n,
{
    assert(is_half(s[3 * 0int]) && is_half(s[3 * 0int + 1]));
    if n > 1 {
        assert(s[3 * 0int + 2] == ' ');
        let rest = s.subrange(3, s.len() as int);
        assert forall|k: int| 0 <= k < n - 1 implies is_half(#[trigger] rest[3 * k]) && is_half(rest[3 * k + 1]) by {
            assert(is_half(s[3 * (k + 1)]) && is_half(s[3 * (k + 1) + 1]));
        }
        assert forall|k: int| 0 <= k < n - 2 implies #[trigger] rest[3 * k + 2] == ' ' by {
            assert(s[3 * (k + 1) + 2] == ' ');
        }
        lemma_parse_round_trip(rest, (n - 1) as nat);
        let v = parse_spec(s)->Ok_0;
        assert forall|k: int| 0 <= k < n implies #[trigger] v[k] == token_pair(s[3 * k], s[3 * k + 1]) by {
            if k > 0 {
                assert(v[k] == parse_spec(rest)->Ok_0[k - 1]);
                assert(rest[3 * (k - 1)] == s[3 * k]);
                assert(rest[3 * (k - 1) + 1] == s[3 * k + 1]);
            }
        }
    }
    let v = parse_spec(s)->Ok_0;
    assert forall|k: int| 0 <= k < n && is_hex_digit(s[3 * k]) && is_hex_digit(s[3 * k + 1])
        implies #[trigger] v[k] == ((16 * hex_value(s[3 * k]) + hex_value(s[3 * k + 1])) as u8, 0xFFu8) by {
        assert(v[k] == token_pair(s[3 * k], s[3 * k + 1]));
    }
    assert forall|k: int| 0 <= k < n && s[3 * k] == '?' && s[3 * k + 1] == '?' implies #[trigger] v[k] == (0u8, 0u8) by {
        assert(v[k] == token_pair(s[3 * k], s[3 * k + 1]));
    }
}

/// The parse succeeds only on a well-formed token sequence: every text that
/// is not one (a token of other than two characters, a stray space, a
/// character that is neither a hexadecimal digit nor `?`) is refused.
pub proof fn lemma_parse_rejects_malformed(s: Seq<char>)
    ensures
        parse_spec(s) is Ok ==> is_token_sequence(s, parse_spec(s)->Ok_0.len()),
        parse_spec(s) is Ok <==> exists|n: nat| is_token_sequence(s, n),
    decreases s.len(),
{
    if parse_spec(s) is Ok {
        let v = parse_spec(s)->Ok_0;
        if s.len() == 2 {
            assert(v.len() == 1);
            assert forall|k: int| 0 <= k < 1 implies is_half(#[trigger] s[3 * k]) && is_half(s[3 * k + 1]) by {
                assert(k == 0);
            }
        } else {
            let rest = s.subrange(3, s.len() as int);
            lemma_parse_rejects_malformed(rest);
            let w = parse_spec(rest)->Ok_0;
            assert(v.len() == w.len() + 1);
            assert forall|k: int| 0 <= k < v.len() implies is_half(#[trigger] s[3 * k]) && is_half(s[3 * k + 1]) by {
                if k > 0 {
                    assert(rest[3 * (k - 1)] == s[3 * k]);
                    assert(rest[3 * (k - 1) + 1] == s[3 * k + 1]);
                }
            }
            assert forall|k: int| 0 <= k < v.len() - 1 implies #[trigger] s[3 * k + 2] == ' ' by {
                if k > 0 {
                    assert(rest[3 * (k - 1) + 2] == s[3 * k + 2]);
                }
            }
        }
        assert(is_token_sequence(s, v.len()));
    }
    if exists|n: nat| is_token_sequence(s, n) {
        let n = choose|n: nat| is_token_sequence(s, n);
        lemma_parse_round_trip(s, n);
    }
}

/// A text whose tokens all have two characters is refused, if at all, for a
/// bad digit; a text of nibble characters and spaces alone is refused, if at
/// all, for a token's length.
pub proof fn lemma_parse_error_kind(s: Seq<char>)
    ensures
        (s.len() >= 2 && (s.len() + 1) % 3 == 0
            && (forall|k: int| 0 <= k < s.len() ==> (#[trigger] s[k] == ' ' <==> k % 3 == 2)))
            ==> parse_spec(s) != Err::<Seq<(u8, u8)>, IdaConvertionError>(IdaConvertionError::InvalidByteLength),
        (forall|k: int| 0 <= k < s.len() ==> #[trigger] is_half(s[k]) || s[k] == ' ')
            ==> parse_spec(s) != Err::<Seq<(u8, u8)>, IdaConvertionError>(IdaConvertionError::InvalidByteDigit),
    decreases s.len(),
{
    if s.len() >= 3 {
        let rest = s.subrange(3, s.len() as int);
        lemma_parse_error_kind(rest);
        if forall|k: int| 0 <= k < s.len() ==> (#[trigger] s[k] == ' ' <==> k % 3 == 2) {
            assert forall|k: int| 0 <= k < rest.len() implies (#[trigger] rest[k] == ' ' <==> k % 3 == 2) by {
                assert(rest[k] == s[k + 3]);
                assert((k + 3) % 3 == k % 3);
            }
            assert(s[2] == ' ');
            assert(s[0] != ' ' && s[1] != ' ');
        }
        if forall|k: int| 0 <= k < s.len() ==> #[trigger] is_half(s[k]) || s[k] == ' ' {
            assert forall|k: int| 0 <= k < rest.len() implies #[trigger] is_half(rest[k]) || rest[k] == ' ' by {
                assert(rest[k] == s[k + 3]);
            }
            if starts_with_two_chars(s) {
                assert(is_half(s[0]) || s[0] == ' ');
                assert(is_half(s[1]) || s[1] == ' ');
            }
        }
    } else {
        if forall|k: int| 0 <= k < s.len() ==> (#[trigger] s[k] == ' ' <==> k % 3 == 2) {
            if s.len() >= 2 && (s.len() + 1) % 3 == 0 {
                assert(s.len() == 2);
                assert(s[0] != ' ' && s[1] != ' ');
            }
        }
        if forall|k: int| 0 <= k < s.len() ==> #[trigger] is_half(s[k]) || s[k] == ' ' {
            if starts_with_two_chars(s) {
                assert(is_half(s[0]) || s[0] == ' ');
                assert(is_half(s[1]) || s[1] == ' ');
            }
        }
    }
}

/// The nibble value and mask that the character `s` stands for.
fn ida_half_to_data(s: char) -> (r: Result<(u8, u8), IdaConvertionError>)
    ensures
        is_half(s) ==> r == Ok::<(u8, u8), IdaConvertionError>((half_value(s) as u8, half_mask(s) as u8)),
        !is_half(s) ==> r == Err::<(u8, u8), IdaConvertionError>(IdaConvertionError::InvalidByteDigit),
{
    if s == '?' {
        Ok((0, 0))
    } else if '0' <= s && s <= '9' {
        Ok(((s as u32 - '0' as u32) as u8, 0xF))
    } else if 'a' <= s && s <= 'f' {
        Ok(((s as u32 - 'a' as u32 + 10) as u8, 0xF))
    } else if 'A' <= s && s <= 'F' {
        Ok(((s as u32 - 'A' as u32 + 10) as u8, 0xF))
    } else {
        Err(IdaConvertionError::InvalidByteDigit)
    }
}

/// `r` with `prefix` put before its pairs when it is `Ok`.
pub open spec fn prepend(prefix: Seq<(u8, u8)>, r: Result<Seq<(u8, u8)>, IdaConvertionError>) -> Result<Seq<(u8, u8)>, IdaConvertionError> {
    match r {
        Ok(v) => Ok(prefix + v),
        Err(e) => Err(e),
    }
}

/// Reads a textual pattern into one `(value, mask)` pair per token.
pub fn parse_ida_pattern(pattern: &str) -> (r: Result<Vec<(u8, u8)>, IdaConvertionError>)
    ensures
        match r {
            Ok(v) => parse_spec(pattern@) == Ok::<Seq<(u8, u8)>, IdaConvertionError>(v@),
            Err(e) => parse_spec(pattern@) == Err::<Seq<(u8, u8)>, IdaConvertionError>(e),
        },
{
    let n = pattern.unicode_len();
    let ghost s = pattern@;
    let mut out: Vec<(u8, u8)> = Vec::new();
    let mut i: usize = 0;
    assert(s.subrange(0, n as int) =~= s);
    assert(parse_spec(s) == prepend(out@, parse_spec(s))) by {
        if let Ok(v) = parse_spec(s) {
            assert(out@ + v =~= v);
        }
    }
    loop
        invariant
            s == pattern@,
            n == s.len(),
            i <= n,
            parse_spec(s) == prepend(out@, parse_spec(s.subrange(i as int, n as int))),
        decreases n - i,
    {
        let ghost t = s.subrange(i as int, n as int);
        if n - i < 2 {
            return Err(IdaConvertionError::InvalidByteLength);
        }
        let a = pattern.get_char(i);
        let b = pattern.get_char(i + 1);
        if a == ' ' || b == ' ' || (n - i > 2 && pattern.get_char(i + 2) != ' ') {
            return Err(IdaConvertionError::InvalidByteLength);
        }
        let (av, am) = match ida_half_to_data(a) {
            Ok(d) => d,
            Err(e) => return Err(e),
        };
        let (bv, bm) = match ida_half_to_data(b) {
            Ok(d) => d,
            Err(e) => return Err(e),
        };
        let ghost old_out = out@;
        out.push((av * 16 + bv, am * 16 + bm));
        assert(out@ == old_out + seq![token_pair(t[0], t[1])]);
        if n - i == 2 {
            assert(out@ =~= old_out + seq![token_pair(t[0], t[1])]);
            return Ok(out);
        }
        assert(t.subrange(3, t.len() as int) =~= s.subrange(i + 3, n as int));
        assert(prepend(out@, parse_spec(s.subrange(i + 3, n as int))) == prepend(old_out, parse_spec(t))) by {
            match parse_spec(s.subrange(i + 3, n as int)) {
                Ok(v) => {
                    assert(out@ + v =~= old_out + (seq![token_pair(t[0], t[1])] + v));
                },
                Err(e) => {},
            }
        }
        i = i + 3;
    }
}

} // verus!
