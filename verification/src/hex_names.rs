use vstd::prelude::*;

verus! {

/// The lower-case hexadecimal digit for a number below 16.
pub open spec fn hex_digit(d: int) -> char {
    seq!['0', '1', '2', '3', '4', '5', '6', '7', '8', '9', 'a', 'b', 'c', 'd', 'e', 'f'][d]
}

/// The last `width` hexadecimal digits of `value`, the highest first.
pub open spec fn hex_digits(value: int, width: nat) -> Seq<char>
    decreases width,
{
    if width == 0 {
        Seq::empty()
    } else {
        hex_digits(value / 16, (width - 1) as nat).push(hex_digit(value % 16))
    }
}

/// `prefix` followed by `input` in `width` lower-case hexadecimal digits.
pub open spec fn hex_name(prefix: Seq<char>, input: u16, width: usize) -> Seq<char> {
    prefix + hex_digits(input as int, width as nat)
}

/// Formats with std's `format!`: the prefix as it is, then the number with
/// the format `x`, filled with zeros in front up to `width` digits. The
/// contract claims that for a number of no more than `width` digits this
/// gives exactly `width` digits after the prefix.
#[verifier::external_body]
pub(crate) fn hex_id(prefix: &str, input: u16, width: usize) -> (id: String)
    requires
        width == 4 || (width == 2 && input < 256),
    ensures
        id@ == hex_name(prefix@, input, width),
{
    format!("{}{:0width$x}", prefix, input, width = width)
}

} // verus!
