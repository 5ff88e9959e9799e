//! Rendering of numbers and characters as text.

use vstd::prelude::*;
use base64::Engine;

verus! {

/// The ASCII character for a digit value below 16, lowercase for 10..=15.
pub open spec fn digit_char(d: nat) -> char {
    if d < 10 {
        (48 + d) as char
    } else {
        (87 + d) as char
    }
}

/// The decimal text of `n`, with no leading zeros.
pub open spec fn decimal(n: nat) -> Seq<char>
    decreases n,
{
    if n < 10 {
        seq![digit_char(n)]
    } else {
        decimal(n / 10).push(digit_char(n % 10))
    }
}

/// The lowercase hexadecimal text of `n`, with no leading zeros.
pub open spec fn hexadecimal(n: nat) -> Seq<char>
    decreases n,
{
    if n < 16 {
        seq![digit_char(n)]
    } else {
        hexadecimal(n / 16).push(digit_char(n % 16))
    }
}

/// The character is one of `0` to `9`.
pub open spec fn is_decimal_digit(c: char) -> bool {
    48 <= (c as int) <= 57
}

/// The number that a string of decimal digits denotes.
pub open spec fn decimal_value(s: Seq<char>) -> int
    decreases s.len(),
{
    if s.len() == 0 {
        0
    } else {
        decimal_value(s.drop_last()) * 10 + ((s.last() as int) - 48)
    }
}

/// The decimal text of `n` is a non-empty string of digits that denotes `n`,
/// with no leading zero unless `n` is zero.
pub proof fn lemma_decimal_denotes(n: nat)
    ensures
        decimal(n).len() >= 1,
        forall|i: int| 0 <= i < decimal(n).len() ==> is_decimal_digit(#[trigger] decimal(n)[i]),
        decimal_value(decimal(n)) == n,
        n > 0 ==> decimal(n)[0] != '0',
    decreases n,
{
    if n >= 10 {
        lemma_decimal_denotes(n / 10);
        let d = decimal(n);
        assert(d.drop_last() =~= decimal(n / 10));
        assert(d.last() == digit_char(n % 10));
        assert((digit_char(n % 10) as int) == 48 + n % 10);
        assert forall|i: int| 0 <= i < d.len() implies is_decimal_digit(#[trigger] d[i]) by {
            if i < d.len() - 1 {
                assert(d[i] == decimal(n / 10)[i]);
            }
        }
        assert(d[0] == decimal(n / 10)[0]);
        assert(decimal_value(d) == decimal_value(d.drop_last()) * 10 + ((d.last() as int) - 48));
        assert(n == (n / 10) * 10 + n % 10);
    } else {
        assert((digit_char(n) as int) == 48 + n);
        assert(decimal(n).drop_last() =~= Seq::<char>::empty());
        assert(decimal_value(decimal(n)) == decimal_value(decimal(n).drop_last()) * 10 + ((
        decimal(n).last() as int) - 48));
    }
}

/// The value of a lowercase hexadecimal digit character.
pub open spec fn hex_digit_value(c: char) -> int {
    if (c as int) <= 57 {
        (c as int) - 48
    } else {
        (c as int) - 87
    }
}

/// The character is one of `0` to `9` or `a` to `f`.
pub open spec fn is_lower_hex_digit(c: char) -> bool {
    48 <= (c as int) <= 57 || 97 <= (c as int) <= 102
}

/// The number that a string of lowercase hexadecimal digits denotes.
pub open spec fn hexadecimal_value(s: Seq<char>) -> int
    decreases s.len(),
{
    if s.len() == 0 {
        0
    } else {
        hexadecimal_value(s.drop_last()) * 16 + hex_digit_value(s.last())
    }
}

/// The hexadecimal text of `n` is a non-empty string of lowercase hex digits
/// that denotes `n`, with no leading zero unless `n` is zero.
pub proof fn lemma_hexadecimal_denotes(n: nat)
    ensures
        hexadecimal(n).len() >= 1,
        forall|i: int|
            0 <= i < hexadecimal(n).len() ==> is_lower_hex_digit(#[trigger] hexadecimal(n)[i]),
        hexadecimal_value(hexadecimal(n)) == n,
        n > 0 ==> hexadecimal(n)[0] != '0',
    decreases n,
{
    if n >= 16 {
        lemma_hexadecimal_denotes(n / 16);
        let d = hexadecimal(n);
        assert(d.drop_last() =~= hexadecimal(n / 16));
        assert(d.last() == digit_char(n % 16));
        if n % 16 < 10 {
            assert((digit_char(n % 16) as int) == 48 + n % 16);
        } else {
            assert((digit_char(n % 16) as int) == 87 + n % 16);
        }
        assert forall|i: int| 0 <= i < d.len() implies is_lower_hex_digit(#[trigger] d[i]) by {
            if i < d.len() - 1 {
                assert(d[i] == hexadecimal(n / 16)[i]);
            }
        }
        assert(d[0] == hexadecimal(n / 16)[0]);
        assert(hexadecimal_value(d) == hexadecimal_value(d.drop_last()) * 16 + hex_digit_value(
            d.last(),
        ));
        assert(n == (n / 16) * 16 + n % 16);
    } else {
        if n < 10 {
            assert((digit_char(n) as int) == 48 + n);
        } else {
            assert((digit_char(n) as int) == 87 + n);
        }
        assert(hexadecimal(n).drop_last() =~= Seq::<char>::empty());
        assert(hexadecimal_value(hexadecimal(n)) == hexadecimal_value(hexadecimal(n).drop_last())
            * 16 + hex_digit_value(hexadecimal(n).last()));
    }
}

/// `String::push` appends one character to the end of the string.
#[verifier::external_body]
pub(crate) fn push_char(s: &mut String, c: char)
    ensures
        final(s)@ == old(s)@.push(c),
{
    s.push(c);
}

/// The character of a digit value below 16.
pub fn digit(d: u64) -> (c: char)
    requires
        d < 16,
    ensures
        c == digit_char(d as nat),
{
    if d < 10 {
        ((48 + d) as u8) as char
    } else {
        ((87 + d) as u8) as char
    }
}

/// Appends the decimal text of `n` to `s`.
pub fn push_decimal(s: &mut String, n: u64)
    ensures
        final(s)@ == old(s)@ + decimal(n as nat),
    decreases n,
{
    if n >= 10 {
        push_decimal(s, n / 10);
    }
    push_char(s, digit(n % 10));
    proof {
        assert(old(s)@ + decimal(n as nat) =~= s@);
    }
}

/// Appends the lowercase hexadecimal text of `n` to `s`.
pub fn push_hexadecimal(s: &mut String, n: u64)
    ensures
        final(s)@ == old(s)@ + hexadecimal(n as nat),
    decreases n,
{
    if n >= 16 {
        push_hexadecimal(s, n / 16);
    }
    push_char(s, digit(n % 16));
    proof {
        assert(old(s)@ + hexadecimal(n as nat) =~= s@);
    }
}

/// The character of a 6-bit value in the standard base64 alphabet of RFC 4648.
pub open spec fn base64_char(v: nat) -> char {
    if v < 26 {
        (65 + v) as char
    } else if v < 52 {
        (71 + v) as char
    } else if v < 62 {
        (v - 4) as char
    } else if v == 62 {
        '+'
    } else {
        '/'
    }
}

/// Base64 of RFC 4648 with the standard alphabet and `=` padding: each group
/// of three bytes becomes four characters, a final group of one or two bytes
/// is padded.
pub open spec fn base64_standard(b: Seq<u8>) -> Seq<char>
    decreases b.len(),
{
    if b.len() == 0 {
        seq![]
    } else if b.len() == 1 {
        seq![base64_char((b[0] / 4) as nat), base64_char(((b[0] % 4) * 16) as nat), '=', '=']
    } else if b.len() == 2 {
        seq![
            base64_char((b[0] / 4) as nat),
            base64_char(((b[0] % 4) * 16 + b[1] / 16) as nat),
            base64_char(((b[1] % 16) * 4) as nat),
            '=',
        ]
    } else {
        seq![
            base64_char((b[0] / 4) as nat),
            base64_char(((b[0] % 4) * 16 + b[1] / 16) as nat),
            base64_char(((b[1] % 16) * 4 + b[2] / 64) as nat),
            base64_char((b[2] % 64) as nat),
        ] + base64_standard(b.skip(3))
    }
}

/// Lowercase hexadecimal of each byte, two digits per byte, in order.
pub open spec fn hex_lower(b: Seq<u8>) -> Seq<char>
    decreases b.len(),
{
    if b.len() == 0 {
        seq![]
    } else {
        seq![digit_char((b[0] / 16) as nat), digit_char((b[0] % 16) as nat)] + hex_lower(
            b.drop_first(),
        )
    }
}

/// Base64 text is four characters for every started group of three bytes.
pub proof fn lemma_base64_len(b: Seq<u8>)
    ensures
        base64_standard(b).len() == 4 * ((b.len() + 2) / 3),
    decreases b.len(),
{
    if b.len() >= 3 {
        lemma_base64_len(b.skip(3));
    }
}

/// Hexadecimal text is two characters per byte.
pub proof fn lemma_hex_lower_len(b: Seq<u8>)
    ensures
        hex_lower(b).len() == 2 * b.len(),
    decreases b.len(),
{
    if b.len() > 0 {
        lemma_hex_lower_len(b.drop_first());
    }
}

/// Distinct digit values below 16 have distinct characters.
pub proof fn lemma_digit_char_injective(d: nat, e: nat)
    requires
        d < 16,
        e < 16,
        digit_char(d) == digit_char(e),
    ensures
        d == e,
{
    assert((digit_char(d) as int) == (digit_char(e) as int));
}

/// Byte strings of equal length with equal hexadecimal text are equal.
pub proof fn lemma_hex_lower_injective(a: Seq<u8>, b: Seq<u8>)
    requires
        a.len() == b.len(),
        hex_lower(a) == hex_lower(b),
    ensures
        a == b,
    decreases a.len(),
{
    if a.len() > 0 {
        let ha = hex_lower(a);
        let hb = hex_lower(b);
        assert(ha[0] == hb[0]);
        assert(ha[1] == hb[1]);
        lemma_digit_char_injective((a[0] / 16) as nat, (b[0] / 16) as nat);
        lemma_digit_char_injective((a[0] % 16) as nat, (b[0] % 16) as nat);
        assert(a[0] == b[0]);
        assert(hex_lower(a.drop_first()) =~= ha.skip(2));
        assert(hex_lower(b.drop_first()) =~= hb.skip(2));
        lemma_hex_lower_injective(a.drop_first(), b.drop_first());
        assert forall|i: int| 0 <= i < a.len() implies a[i] == b[i] by {
            if i > 0 {
                assert(a[i] == a.drop_first()[i - 1]);
                assert(b[i] == b.drop_first()[i - 1]);
            }
        }
        assert(a =~= b);
    }
}

/// Distinct 6-bit values have distinct base64 characters.
pub proof fn lemma_base64_char_injective(v: nat, w: nat)
    requires
        v < 64,
        w < 64,
        base64_char(v) == base64_char(w),
    ensures
        v == w,
{
    assert((base64_char(v) as int) == (base64_char(w) as int));
}

/// The first four characters of base64 of `a` and `b` agree only when their
/// first bytes (up to three) do.
proof fn lemma_base64_group(a: Seq<u8>, b: Seq<u8>)
    requires
        a.len() == b.len(),
        a.len() >= 1,
        base64_standard(a) == base64_standard(b),
    ensures
        forall|k: int| 0 <= k < 3 && k < a.len() ==> a[k] == b[k],
{
    let ta = base64_standard(a);
    let tb = base64_standard(b);
    assert(ta[0] == tb[0]);
    assert(ta[1] == tb[1]);
    assert(ta[0] == base64_char((a[0] / 4) as nat));
    assert(tb[0] == base64_char((b[0] / 4) as nat));
    lemma_base64_char_injective((a[0] / 4) as nat, (b[0] / 4) as nat);
    if a.len() == 1 {
        lemma_base64_char_injective(((a[0] % 4) * 16) as nat, ((b[0] % 4) * 16) as nat);
        assert(a[0] == b[0]);
    } else {
        assert(ta[1] == base64_char(((a[0] % 4) * 16 + a[1] / 16) as nat));
        assert(tb[1] == base64_char(((b[0] % 4) * 16 + b[1] / 16) as nat));
        lemma_base64_char_injective(
            ((a[0] % 4) * 16 + a[1] / 16) as nat,
            ((b[0] % 4) * 16 + b[1] / 16) as nat,
        );
        assert(a[0] % 4 == b[0] % 4);
        assert(a[1] / 16 == b[1] / 16);
        assert(a[0] == b[0]);
        assert(ta[2] == tb[2]);
        if a.len() == 2 {
            lemma_base64_char_injective(((a[1] % 16) * 4) as nat, ((b[1] % 16) * 4) as nat);
            assert(a[1] == b[1]);
        } else {
            assert(ta[2] == base64_char(((a[1] % 16) * 4 + a[2] / 64) as nat));
            assert(tb[2] == base64_char(((b[1] % 16) * 4 + b[2] / 64) as nat));
            assert(ta[3] == base64_char((a[2] % 64) as nat));
            assert(tb[3] == base64_char((b[2] % 64) as nat));
            lemma_base64_char_injective(
                ((a[1] % 16) * 4 + a[2] / 64) as nat,
                ((b[1] % 16) * 4 + b[2] / 64) as nat,
            );
            assert(a[1] % 16 == b[1] % 16);
            assert(a[2] / 64 == b[2] / 64);
            assert(a[1] == b[1]);
            assert(ta[3] == tb[3]);
            lemma_base64_char_injective((a[2] % 64) as nat, (b[2] % 64) as nat);
            assert(a[2] == b[2]);
        }
    }
}

/// Byte strings of equal length with equal base64 text are equal: the text
/// of a key determines the key.
pub proof fn lemma_base64_injective(a: Seq<u8>, b: Seq<u8>)
    requires
        a.len() == b.len(),
        base64_standard(a) == base64_standard(b),
    ensures
        a == b,
    decreases a.len(),
{
    if a.len() > 0 {
        lemma_base64_group(a, b);
        if a.len() >= 3 {
            let ta = base64_standard(a);
            let tb = base64_standard(b);
            assert(base64_standard(a.skip(3)) =~= ta.skip(4));
            assert(base64_standard(b.skip(3)) =~= tb.skip(4));
            lemma_base64_injective(a.skip(3), b.skip(3));
            assert forall|i: int| 0 <= i < a.len() implies a[i] == b[i] by {
                if i >= 3 {
                    assert(a[i] == a.skip(3)[i - 3]);
                    assert(b[i] == b.skip(3)[i - 3]);
                }
            }
        }
        assert(a =~= b);
    }
}

/// `base64::engine::general_purpose::STANDARD.encode` of a 32-byte key. The
/// crate documents that engine as RFC 4648 base64 with the standard alphabet
/// and padding, which is what the contract states; for 32 bytes it cannot
/// overflow.
#[verifier::external_body]
pub(crate) fn base64_of_key(key: &[u8; 32]) -> (r: String)
    ensures
        r@ == base64_standard(key@),
{
    base64::engine::general_purpose::STANDARD.encode(key)
}

/// `hex::encode` of a 32-byte key: two lowercase hexadecimal digits per byte,
/// in order, as the crate documents.
#[verifier::external_body]
pub(crate) fn hex_of_key(key: &[u8; 32]) -> (r: String)
    ensures
        r@ == hex_lower(key@),
{
    hex::encode(key)
}

} // verus!
