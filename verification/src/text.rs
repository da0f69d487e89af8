//! Text helpers for rendering raw byte names.
//!
//! Entry names are raw byte strings.  Wherever a name meets text output
//! (the snapshot listing, error messages), a name that is valid UTF-8 is
//! shown as-is and any other name is shown in an escaped ASCII form.

use vstd::prelude::*;
use vstd::utf8::{valid_utf8, decode_utf8, encode_utf8};

verus! {

/// The lowercase hexadecimal digit for a value below sixteen.
pub open spec fn hex_digit(n: u8) -> char
    recommends
        n < 16,
{
    if n < 10 {
        (48 + n) as char
    } else {
        (87 + n) as char
    }
}

/// Computes the lowercase hexadecimal digit for a value below sixteen.
pub fn hex_digit_char(n: u8) -> (c: char)
    requires
        n < 16,
    ensures
        c == hex_digit(n),
{
    if n < 10 {
        (48 + n) as char
    } else {
        (87 + n) as char
    }
}

/// How one byte appears in escaped ASCII form: the escapes `\t`, `\r`,
/// `\n`, `\'`, `\"` and `\\`, printable ASCII as itself, and everything
/// else as `\x` followed by two lowercase hexadecimal digits.
pub open spec fn escape_byte(b: u8) -> Seq<char> {
    if b == 9 {
        seq!['\\', 't']
    } else if b == 13 {
        seq!['\\', 'r']
    } else if b == 10 {
        seq!['\\', 'n']
    } else if b == 92 {
        seq!['\\', '\\']
    } else if b == 39 {
        seq!['\\', '\'']
    } else if b == 34 {
        seq!['\\', '"']
    } else if 32 <= b && b <= 126 {
        seq![b as char]
    } else {
        seq!['\\', 'x', hex_digit(b / 16), hex_digit(b % 16)]
    }
}

/// The escaped ASCII form of a byte string.
pub open spec fn escape_bytes(s: Seq<u8>) -> Seq<char>
    decreases s.len(),
{
    if s.len() == 0 {
        Seq::empty()
    } else {
        escape_byte(s.first()) + escape_bytes(s.skip(1))
    }
}

/// How a raw byte name appears in text output: decoded when it is valid
/// UTF-8, escaped otherwise.
pub open spec fn display_name(s: Seq<u8>) -> Seq<char> {
    if valid_utf8(s) {
        decode_utf8(s)
    } else {
        escape_bytes(s)
    }
}

/// Relies on `core::str::from_utf8`: decodes exactly the valid UTF-8 byte
/// strings, and `str::as_bytes` of the result returns the input bytes.
#[verifier::external_body]
pub fn bytes_as_str(bytes: &[u8]) -> (r: Option<&str>)
    ensures
        match r {
            Some(s) => encode_utf8(s@) == bytes@,
            None => !valid_utf8(bytes@),
        },
{
    core::str::from_utf8(bytes).ok()
}

/// Relies on `String::push`: appends one character.
#[verifier::external_body]
pub fn push_char(s: &mut String, c: char)
    ensures
        final(s)@ == old(s)@ + seq![c],
{
    s.push(c);
}

/// Appends the escaped ASCII form of one byte.
fn push_escaped_byte(out: &mut String, b: u8)
    ensures
        final(out)@ == old(out)@ + escape_byte(b),
{
    if b == 9 {
        push_char(out, '\\');
        push_char(out, 't');
    } else if b == 13 {
        push_char(out, '\\');
        push_char(out, 'r');
    } else if b == 10 {
        push_char(out, '\\');
        push_char(out, 'n');
    } else if b == 92 {
        push_char(out, '\\');
        push_char(out, '\\');
    } else if b == 39 {
        push_char(out, '\\');
        push_char(out, '\'');
    } else if b == 34 {
        push_char(out, '\\');
        push_char(out, '"');
    } else if 32 <= b && b <= 126 {
        push_char(out, b as char);
        proof {
            assert(old(out)@ + seq![b as char] =~= old(out)@ + escape_byte(b));
        }
    } else {
        push_char(out, '\\');
        push_char(out, 'x');
        push_char(out, hex_digit_char(b / 16));
        push_char(out, hex_digit_char(b % 16));
        proof {
            assert(old(out)@ + seq!['\\'] + seq!['x'] + seq![hex_digit(b / 16)] + seq![
                hex_digit(b % 16),
            ] =~= old(out)@ + escape_byte(b));
        }
    }
    proof {
        assert(final(out)@ =~= old(out)@ + escape_byte(b));
    }
}

/// Appends the escaped ASCII form of a byte string.
pub fn push_escaped_bytes(out: &mut String, bytes: &[u8])
    ensures
        final(out)@ == old(out)@ + escape_bytes(bytes@),
{
    let n: usize = bytes.len();
    let mut i: usize = 0;
    proof {
        assert(bytes@.skip(0) =~= bytes@);
        assert(old(out)@ + Seq::<char>::empty() =~= old(out)@);
    }
    while i < n
        invariant
            i <= n,
            n == bytes@.len(),
            out@ + escape_bytes(bytes@.skip(i as int)) == old(out)@ + escape_bytes(bytes@),
        decreases n - i,
    {
        proof {
            let rest = bytes@.skip(i as int);
            assert(rest.first() == bytes@[i as int]);
            assert(rest.skip(1) =~= bytes@.skip(i + 1));
        }
        push_escaped_byte(out, bytes[i]);
        i = i + 1;
    }
    proof {
        assert(bytes@.skip(n as int) =~= Seq::<u8>::empty());
        assert(out@ + Seq::<char>::empty() =~= out@);
    }
}

/// Appends the display form of a raw byte name.
pub fn push_display_name(out: &mut String, name: &[u8])
    ensures
        final(out)@ == old(out)@ + display_name(name@),
{
    broadcast use vstd::utf8::encode_utf8_valid_utf8, vstd::utf8::encode_utf8_decode_utf8;

    match bytes_as_str(name) {
        Some(s) => {
            out.append(s);
        },
        None => {
            push_escaped_bytes(out, name);
        },
    }
}

/// Returns the display form of a raw byte name.
pub fn display_name_string(name: &[u8]) -> (r: String)
    ensures
        r@ == display_name(name@),
{
    let mut out = String::new();
    push_display_name(&mut out, name);
    proof {
        assert(Seq::<char>::empty() + display_name(name@) =~= display_name(name@));
    }
    out
}

} // verus!
