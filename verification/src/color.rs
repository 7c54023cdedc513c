//! Colors as the configuration writes them: `#rrggbb`, two hexadecimal digits per component.
use crate::text::{chars_of, decimal, decimal_string, str_to_string, string_from_chars, string_push_str};
use vstd::prelude::*;

verus! {

/// Whether `c` is an ASCII hexadecimal digit, in either case.
pub open spec fn is_hex_digit(c: char) -> bool {
    ('0' <= c && c <= '9') || ('a' <= c && c <= 'f') || ('A' <= c && c <= 'F')
}

/// The value of a hexadecimal digit.
pub open spec fn hex_value(c: char) -> int {
    if '0' <= c && c <= '9' {
        c as int - '0' as int
    } else if 'a' <= c && c <= 'f' {
        c as int - 'a' as int + 10
    } else {
        c as int - 'A' as int + 10
    }
}

/// Whether `s` is hexadecimal: an even number of hexadecimal digits.
pub open spec fn hex_decodes(s: Seq<char>) -> bool {
    s.len() % 2 == 0 && forall|i: int| 0 <= i < s.len() ==> is_hex_digit(#[trigger] s[i])
}

/// The bytes a hexadecimal string stands for, two digits each, the high one first.
pub open spec fn hex_bytes(s: Seq<char>) -> Seq<u8> {
    Seq::new(s.len() / 2, |i: int| (hex_value(s[2 * i]) * 16 + hex_value(s[2 * i + 1])) as u8)
}

/// The display text of the error `hex::decode` gives for a string that is not hexadecimal.
pub uninterp spec fn hex_error_text(s: Seq<char>) -> Seq<char>;

/// Decodes a hexadecimal string with `hex::decode`. It succeeds exactly on an even number of
/// ASCII hexadecimal digits (any other character is a byte that is not a digit), and gives the
/// bytes they stand for; the text of its error is only named.
#[verifier::external_body]
fn hex_decode(s: &str) -> (r: Result<Vec<u8>, String>)
    ensures
        r is Ok <==> hex_decodes(s@),
        r matches Ok(v) ==> v@ == hex_bytes(s@),
        r matches Err(m) ==> m@ == hex_error_text(s@),
{
    hex::decode(s).map_err(|e| e.to_string())
}

/// What a color string stands for: its red, green and blue components, or the error.
pub open spec fn hex_color_result(value: Seq<char>) -> Result<(u8, u8, u8), Seq<char>> {
    if value.len() == 0 || value[0] != '#' {
        Err("Value must start with the # character"@)
    } else {
        let c = value.drop_first();
        if !hex_decodes(c) {
            Err("The value '"@ + c + "' is an invalid hex string: "@ + hex_error_text(c))
        } else if hex_bytes(c).len() != 3 {
            Err(
                "The value '"@ + c + "' has "@ + decimal(hex_bytes(c).len())
                    + " color components instead of 3"@,
            )
        } else {
            Ok((hex_bytes(c)[0], hex_bytes(c)[1], hex_bytes(c)[2]))
        }
    }
}

/// Parses a `#rrggbb` color string into its red, green and blue components.
///
/// # Errors
///
/// Returns an error if the string does not start with `#`, if the rest is not hexadecimal, or if
/// it does not hold exactly three components.
pub fn parse_hex_color(value: &str) -> (r: Result<(u8, u8, u8), String>)
    ensures
        match hex_color_result(value@) {
            Ok(rgb) => r == Ok::<(u8, u8, u8), String>(rgb),
            Err(m) => r matches Err(e) && e@ == m,
        },
{
    let chars = chars_of(value);
    if chars.len() == 0 || chars[0] != '#' {
        return Err(str_to_string("Value must start with the # character"));
    }
    let mut rest: Vec<char> = Vec::new();
    let mut i: usize = 1;
    while i < chars.len()
        invariant
            1 <= i <= chars.len(),
            rest@ == chars@.subrange(1, i as int),
        decreases chars.len() - i,
    {
        rest.push(chars[i]);
        proof {
            assert(chars@.subrange(1, i + 1) =~= chars@.subrange(1, i as int).push(chars@[i as int]));
        }
        i += 1;
    }
    proof {
        assert(rest@ =~= value@.drop_first());
    }
    let components = string_from_chars(&rest);
    let bytes = match hex_decode(components.as_str()) {
        Ok(b) => b,
        Err(error) => {
            let mut m = str_to_string("The value '");
            string_push_str(&mut m, components.as_str());
            string_push_str(&mut m, "' is an invalid hex string: ");
            string_push_str(&mut m, error.as_str());
            return Err(m);
        },
    };
    if bytes.len() != 3 {
        let mut m = str_to_string("The value '");
        string_push_str(&mut m, components.as_str());
        string_push_str(&mut m, "' has ");
        let n = decimal_string(bytes.len());
        string_push_str(&mut m, n.as_str());
        string_push_str(&mut m, " color components instead of 3");
        return Err(m);
    }
    Ok((bytes[0], bytes[1], bytes[2]))
}

} // verus!
