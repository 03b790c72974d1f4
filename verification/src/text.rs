use vstd::prelude::*;
use vstd::string::StringExecFns;
use vstd::utf8::*;

verus! {

/// Calls `core::str::from_utf8`. Its documentation says that it succeeds exactly
/// when the bytes are valid UTF-8 (no overlong forms, no surrogates, nothing above
/// U+10FFFF), and that the string it gives back holds the characters they encode.
/// The contract states this over vstd's UTF-8 definitions.
#[verifier::external_body]
pub(crate) fn utf8_str(bytes: &[u8]) -> (r: Option<&str>)
    ensures
        match r {
            Some(s) => valid_utf8(bytes@) && s@ == decode_utf8(bytes@),
            None => !valid_utf8(bytes@),
        },
{
    core::str::from_utf8(bytes).ok()
}

/// The characters of ASCII bytes.
pub open spec fn ascii_chars(b: Seq<u8>) -> Seq<char> {
    b.map_values(|x: u8| x as char)
}

/// All bytes are ASCII.
pub open spec fn all_ascii(b: Seq<u8>) -> bool {
    forall|i: int| 0 <= i < b.len() ==> #[trigger] b[i] < 128
}

/// The ASCII code of the lowercase hexadecimal digit `d`.
pub open spec fn hex_digit(d: nat) -> u8 {
    if d < 10 {
        (48 + d) as u8
    } else {
        (87 + d) as u8
    }
}

/// The `width` lowest hexadecimal digits of `v`, most significant first.
pub open spec fn hex_digits(v: nat, width: nat) -> Seq<u8>
    decreases width,
{
    if width == 0 {
        seq![]
    } else {
        hex_digits(v / 16, (width - 1) as nat).push(hex_digit(v % 16))
    }
}

/// The decimal digits of `v`, most significant first, without leading zeros.
pub open spec fn dec_digits(v: nat) -> Seq<u8>
    decreases v,
{
    if v < 10 {
        seq![(48 + v) as u8]
    } else {
        dec_digits(v / 10).push((48 + v % 10) as u8)
    }
}

/// `v` in lowercase hexadecimal, zero-padded to `width` digits (`{:0width$x}`,
/// where `v` fits in `width` digits).
pub open spec fn hex_text(v: nat, width: nat) -> Seq<char> {
    ascii_chars(hex_digits(v, width))
}

/// `v` in decimal (`{}`).
pub open spec fn dec_text(v: nat) -> Seq<char> {
    ascii_chars(dec_digits(v))
}

proof fn lemma_ascii_is_utf8(b: Seq<u8>)
    requires
        all_ascii(b),
    ensures
        valid_utf8(b),
        decode_utf8(b) == ascii_chars(b),
{
    let chars = ascii_chars(b);
    assert(is_ascii_chars(chars)) by {
        assert forall|i: int| 0 <= i < chars.len() implies '\0' <= #[trigger] chars[i] <= '\u{7f}' by {
            assert(b[i] < 128);
        }
    }
    is_ascii_chars_encode_utf8(chars);
    assert forall|i: int| 0 <= i < b.len() implies #[trigger] encode_utf8(chars)[i] == b[i] by {
        assert(chars[i] == b[i] as char);
        assert(b[i] < 128);
        assert((b[i] as char) as u8 == b[i]);
        assert(chars[i] as u8 == encode_utf8(chars)[i]);
    }
    assert(encode_utf8(chars) =~= b);
    encode_utf8_valid_utf8(chars);
    encode_utf8_decode_utf8(chars);
}

/// The string of ASCII bytes.
pub fn ascii_string(bytes: &[u8]) -> (s: String)
    requires
        all_ascii(bytes@),
    ensures
        s@ == ascii_chars(bytes@),
{
    proof {
        lemma_ascii_is_utf8(bytes@);
    }
    match utf8_str(bytes) {
        Some(t) => t.to_owned(),
        None => String::new(),
    }
}

fn push_hex(out: &mut Vec<u8>, v: u32, width: usize)
    requires
        all_ascii(old(out)@),
    ensures
        final(out)@ == old(out)@ + hex_digits(v as nat, width as nat),
        all_ascii(final(out)@),
    decreases width,
{
    if width > 0 {
        push_hex(out, v / 16, width - 1);
        let d = (v % 16) as u8;
        let c: u8 = if d < 10 {
            48 + d
        } else {
            87 + d
        };
        out.push(c);
        assert(hex_digits(v as nat, width as nat) =~= hex_digits(
            (v / 16) as nat,
            (width - 1) as nat,
        ).push(c));
    } else {
        assert(old(out)@ + hex_digits(v as nat, 0) =~= old(out)@);
    }
}

fn push_dec(out: &mut Vec<u8>, v: usize)
    requires
        all_ascii(old(out)@),
    ensures
        final(out)@ == old(out)@ + dec_digits(v as nat),
        all_ascii(final(out)@),
    decreases v,
{
    if v >= 10 {
        push_dec(out, v / 10);
    }
    out.push(48 + (v % 10) as u8);
    if v >= 10 {
        assert(final(out)@ =~= old(out)@ + dec_digits(v as nat));
    } else {
        assert(final(out)@ =~= old(out)@ + dec_digits(v as nat));
    }
}

/// `v` in lowercase hexadecimal, zero-padded to `width` digits.
pub fn hex_string(v: u32, width: usize) -> (s: String)
    ensures
        s@ == hex_text(v as nat, width as nat),
{
    let mut out: Vec<u8> = Vec::new();
    push_hex(&mut out, v, width);
    assert(out@ =~= hex_digits(v as nat, width as nat));
    ascii_string(out.as_slice())
}

/// `v` in decimal.
pub fn dec_string(v: usize) -> (s: String)
    ensures
        s@ == dec_text(v as nat),
{
    let mut out: Vec<u8> = Vec::new();
    push_dec(&mut out, v);
    assert(out@ =~= dec_digits(v as nat));
    ascii_string(out.as_slice())
}

/// `s` followed by `t`.
pub fn concat(s: String, t: &str) -> (r: String)
    ensures
        r@ == s@ + t@,
{
    let mut r = s;
    r.append(t);
    r
}

} // verus!
