//! UTF-16 views of text and small string builders.
//!
//! The analysis works in UTF-16 code units, as an ECMA-262 engine does. This
//! module states what encoding to and decoding from UTF-16 mean, and wraps the
//! few standard-library string operations the library needs.
use vstd::prelude::*;

verus! {

/// The UTF-16 encoding of a single character.
pub open spec fn char_utf16(c: char) -> Seq<u16> {
    let v = c as u32;
    if v < 0x10000 {
        seq![v as u16]
    } else {
        let w = v - 0x10000;
        seq![(0xD800 + w / 0x400) as u16, (0xDC00 + w % 0x400) as u16]
    }
}

/// The UTF-16 encoding of a character sequence.
pub open spec fn utf16_of(s: Seq<char>) -> Seq<u16>
    decreases s.len(),
{
    if s.len() == 0 {
        seq![]
    } else {
        char_utf16(s[0]) + utf16_of(s.drop_first())
    }
}

/// `true` for a UTF-16 high (leading) surrogate.
pub open spec fn is_high_surrogate(u: u16) -> bool {
    0xD800 <= u <= 0xDBFF
}

/// `true` for a UTF-16 low (trailing) surrogate.
pub open spec fn is_low_surrogate(u: u16) -> bool {
    0xDC00 <= u <= 0xDFFF
}

/// The code point a surrogate pair stands for.
pub open spec fn surrogate_pair_value(high: u16, low: u16) -> int {
    (high - 0xD800) * 0x400 + (low - 0xDC00) + 0x10000
}

/// Decodes UTF-16, replacing each unpaired surrogate with U+FFFD.
pub open spec fn lossy_decode(u: Seq<u16>) -> Seq<char>
    decreases u.len(),
{
    if u.len() == 0 {
        seq![]
    } else if u.len() >= 2 && is_high_surrogate(u[0]) && is_low_surrogate(u[1]) {
        seq![(surrogate_pair_value(u[0], u[1]) as u32) as char] + lossy_decode(u.skip(2))
    } else if 0xD800 <= u[0] <= 0xDFFF {
        seq!['\u{FFFD}'] + lossy_decode(u.skip(1))
    } else {
        seq![(u[0] as u32) as char] + lossy_decode(u.skip(1))
    }
}

/// Encoding a string to UTF-16 and decoding it back gives the string.
pub proof fn lemma_decode_encode(s: Seq<char>)
    ensures
        lossy_decode(utf16_of(s)) == s,
    decreases s.len(),
{
    if s.len() > 0 {
        let c = s[0];
        let rest = s.drop_first();
        lemma_decode_encode(rest);
        let e = char_utf16(c);
        let r = utf16_of(rest);
        let all = utf16_of(s);
        assert(all == e + r);
        let v = c as u32;
        vstd::utf8::char_is_scalar(c);
        vstd::utf8::char_u32_cast(c, v);
        assert(vstd::utf8::is_scalar(v));
        if v < 0x10000 {
            assert(!(0xD800 <= v <= 0xDFFF));
            assert(all[0] == v as u16);
            assert(all.skip(1) =~= r);
            assert(((v as u16) as u32) == v);
            assert(((v as u16) as u32) as char == c);
            assert(lossy_decode(all) =~= seq![c] + lossy_decode(r));
        } else {
            let w = v - 0x10000;
            assert(v <= 0x10FFFF);
            assert(0 <= w / 0x400 < 0x400) by (nonlinear_arith)
                requires 0 <= w < 0x100000;
            assert(0 <= w % 0x400 < 0x400) by (nonlinear_arith)
                requires 0 <= w;
            assert((w / 0x400) * 0x400 + w % 0x400 == w) by (nonlinear_arith);
            let hi = (0xD800 + w / 0x400) as u16;
            let lo = (0xDC00 + w % 0x400) as u16;
            assert(all[0] == hi);
            assert(all[1] == lo);
            assert(surrogate_pair_value(hi, lo) == v);
            assert((surrogate_pair_value(hi, lo) as u32) as char == c);
            assert(all.skip(2) =~= r);
            assert(lossy_decode(all) =~= seq![c] + lossy_decode(r));
        }
        assert(seq![c] + rest =~= s);
    }
}

/// The UTF-16 code units of `s`.
///
/// Calls `str::encode_utf16` and collects the units. The contract states that
/// the result is the UTF-16 encoding of the string's characters.
#[verifier::external_body]
pub(crate) fn encode_utf16(s: &str) -> (res: Vec<u16>)
    ensures
        res@ == utf16_of(s@),
{
    s.encode_utf16().collect()
}

/// Decodes `units[from..to]`: each surrogate pair becomes the character it
/// encodes, every other surrogate becomes U+FFFD and every other unit the
/// character of that value.
pub(crate) fn decode_utf16_lossy(units: &[u16], from: usize, to: usize) -> (res: String)
    requires
        from <= to <= units@.len(),
    ensures
        res@ == lossy_decode(units@.subrange(from as int, to as int)),
{
    let mut out = String::new();
    let mut i = from;
    while i < to
        invariant
            from <= i <= to <= units@.len(),
            lossy_decode(units@.subrange(from as int, to as int)) == out@ + lossy_decode(units@.subrange(i as int, to as int)),
        decreases to - i,
    {
        let ghost rest = units@.subrange(i as int, to as int);
        let u = units[i];
        if 0xD800 <= u && u <= 0xDBFF && i + 1 < to && 0xDC00 <= units[i + 1] && units[i + 1] <= 0xDFFF {
            let low = units[i + 1];
            let v: u32 = (u as u32 - 0xD800) * 0x400 + (low as u32 - 0xDC00) + 0x10000;
            proof {
                assert(rest[0] == u && rest[1] == low);
                assert(surrogate_pair_value(u, low) == v);
                assert(rest.skip(2) =~= units@.subrange(i + 2, to as int));
            }
            let c = crate::code_point::char_from_u32(v);
            push_char(&mut out, c.unwrap());
            i += 2;
        } else if 0xD800 <= u && u <= 0xDFFF {
            proof {
                assert(rest[0] == u);
                assert(rest.skip(1) =~= units@.subrange(i + 1, to as int));
            }
            push_char(&mut out, '\u{FFFD}');
            i += 1;
        } else {
            proof {
                assert(rest[0] == u);
                assert(rest.skip(1) =~= units@.subrange(i + 1, to as int));
            }
            let c = crate::code_point::char_from_u32(u as u32);
            push_char(&mut out, c.unwrap());
            i += 1;
        }
    }
    proof {
        assert(units@.subrange(i as int, to as int) =~= Seq::<u16>::empty());
        assert(out@ + Seq::<char>::empty() =~= out@);
    }
    out
}

/// Encoding distributes over concatenation.
pub proof fn lemma_utf16_of_concat(a: Seq<char>, b: Seq<char>)
    ensures
        utf16_of(a + b) == utf16_of(a) + utf16_of(b),
    decreases a.len(),
{
    if a.len() == 0 {
        assert(a + b =~= b);
        assert(utf16_of(a) + utf16_of(b) =~= utf16_of(b));
    } else {
        lemma_utf16_of_concat(a.drop_first(), b);
        assert((a + b).drop_first() =~= a.drop_first() + b);
        assert((a + b)[0] == a[0]);
        assert(utf16_of(a + b) =~= char_utf16(a[0]) + utf16_of(a.drop_first() + b));
        assert(utf16_of(a) =~= char_utf16(a[0]) + utf16_of(a.drop_first()));
    }
}

/// The number of UTF-16 code units of a string.
pub open spec fn utf16_length(s: Seq<char>) -> nat {
    utf16_of(s).len()
}

/// Returns the length of `s` in UTF-16 code units.
pub fn utf16_len(s: &str) -> (res: usize)
    ensures
        res == utf16_length(s@),
{
    let units = encode_utf16(s);
    units.len()
}

/// The decimal digit character for `d < 10`.
pub open spec fn digit_char(d: nat) -> char {
    if d == 0 {
        '0'
    } else if d == 1 {
        '1'
    } else if d == 2 {
        '2'
    } else if d == 3 {
        '3'
    } else if d == 4 {
        '4'
    } else if d == 5 {
        '5'
    } else if d == 6 {
        '6'
    } else if d == 7 {
        '7'
    } else if d == 8 {
        '8'
    } else {
        '9'
    }
}

/// The decimal representation of `n`, without leading zeros.
pub open spec fn decimal_text(n: nat) -> Seq<char>
    decreases n,
{
    if n < 10 {
        seq![digit_char(n)]
    } else {
        decimal_text(n / 10).push(digit_char(n % 10))
    }
}

fn digit_to_char(d: u64) -> (res: char)
    requires
        d < 10,
    ensures
        res == digit_char(d as nat),
{
    if d == 0 {
        '0'
    } else if d == 1 {
        '1'
    } else if d == 2 {
        '2'
    } else if d == 3 {
        '3'
    } else if d == 4 {
        '4'
    } else if d == 5 {
        '5'
    } else if d == 6 {
        '6'
    } else if d == 7 {
        '7'
    } else if d == 8 {
        '8'
    } else {
        '9'
    }
}

/// Appends the decimal representation of `v` to `s`.
pub fn push_decimal(s: &mut String, v: u64)
    ensures
        final(s)@ == old(s)@ + decimal_text(v as nat),
    decreases v,
{
    if v >= 10 {
        push_decimal(s, v / 10);
    }
    let c = digit_to_char(v % 10);
    push_char(s, c);
    proof {
        if v >= 10 {
            assert(old(s)@ + decimal_text(v as nat) =~= old(s)@ + decimal_text((v / 10) as nat) + seq![c]);
        } else {
            assert(old(s)@ + decimal_text(v as nat) =~= old(s)@ + seq![c]);
        }
    }
}

/// Returns the decimal representation of `v`.
pub fn decimal_string(v: u64) -> (res: String)
    ensures
        res@ == decimal_text(v as nat),
{
    let mut s = String::new();
    push_decimal(&mut s, v);
    proof {
        assert(Seq::<char>::empty() + decimal_text(v as nat) =~= decimal_text(v as nat));
    }
    s
}

/// Appends `t` with `String::push_str`.
#[verifier::external_body]
pub(crate) fn push_str(s: &mut String, t: &str)
    ensures
        final(s)@ == old(s)@ + t@,
{
    s.push_str(t)
}

/// Appends one character with `String::push`.
#[verifier::external_body]
pub(crate) fn push_char(s: &mut String, c: char)
    ensures
        final(s)@ == old(s)@.push(c),
{
    s.push(c)
}

} // verus!
