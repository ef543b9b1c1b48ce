use vstd::prelude::*;

verus! {

/// The uppercase hexadecimal digits, by value.
pub open spec fn hex_digits() -> Seq<char> {
    seq!['0', '1', '2', '3', '4', '5', '6', '7', '8', '9', 'A', 'B', 'C', 'D', 'E', 'F']
}

/// The uppercase hexadecimal digit for a nibble.
pub open spec fn hex_digit(n: u8) -> char {
    hex_digits()[n as int]
}

/// Two uppercase digits per byte, most significant nibble first.
pub open spec fn hex_of(bytes: Seq<u8>) -> Seq<char>
    decreases bytes.len(),
{
    if bytes.len() == 0 {
        Seq::empty()
    } else {
        let last = bytes.last();
        hex_of(bytes.drop_last()).push(hex_digit(last / 16)).push(hex_digit(last % 16))
    }
}

/// Relies on String::push: appends the character at the end.
#[verifier::external_body]
pub(crate) fn push_char(s: &mut String, c: char)
    ensures
        final(s)@ == old(s)@.push(c),
{
    s.push(c)
}

fn nibble_char(n: u8) -> (c: char)
    requires
        n < 16,
    ensures
        c == hex_digit(n),
{
    let digits: [char; 16] = ['0', '1', '2', '3', '4', '5', '6', '7', '8', '9', 'A', 'B', 'C', 'D', 'E', 'F'];
    assert(digits@ =~= hex_digits());
    digits[n as usize]
}

/// Renders bytes as uppercase hexadecimal, two characters per byte.
pub fn as_hex(array: &[u8]) -> (r: String)
    ensures
        r@ == hex_of(array@),
{
    let mut out = String::new();
    let mut i: usize = 0;
    while i < array.len()
        invariant
            i <= array@.len(),
            out@ == hex_of(array@.subrange(0, i as int)),
        decreases array@.len() - i,
    {
        let b = array[i];
        push_char(&mut out, nibble_char(b / 16));
        push_char(&mut out, nibble_char(b % 16));
        assert(array@.subrange(0, i + 1).drop_last() =~= array@.subrange(0, i as int));
        i = i + 1;
    }
    assert(array@.subrange(0, array@.len() as int) =~= array@);
    out
}

} // verus!
