use vstd::prelude::*;
use vstd::string::StringExecFns;

verus! {

/// The character of a decimal digit.
pub open spec fn digit(d: int) -> char {
    if d == 0 {
        '0'
    } else if d == 1 {
        '1'
    } else if d == 2 {
        '2'
    } else if d == 3 {
        '3'
    } else if d == 4 {
        '4'
    } else if d == 5 {
        '5'
    } else if d == 6 {
        '6'
    } else if d == 7 {
        '7'
    } else if d == 8 {
        '8'
    } else {
        '9'
    }
}

/// A natural number in decimal, without leading zeros.
pub open spec fn decimal(n: nat) -> Seq<char>
    decreases n,
{
    if n < 10 {
        seq![digit(n as int)]
    } else {
        decimal(n / 10).push(digit((n % 10) as int))
    }
}

/// An integer in decimal, with a minus sign where it is negative.
pub open spec fn signed_decimal(v: int) -> Seq<char> {
    if v < 0 {
        seq!['-'] + decimal((-v) as nat)
    } else {
        decimal(v as nat)
    }
}

/// The first `count` of `bytes` in decimal, with a comma and a space between them.
pub open spec fn byte_items(bytes: Seq<u8>, count: int) -> Seq<char>
    decreases count,
{
    if count <= 0 {
        Seq::empty()
    } else if count == 1 {
        decimal(bytes[0] as nat)
    } else {
        byte_items(bytes, count - 1) + ", "@ + decimal(bytes[count - 1] as nat)
    }
}

/// Bytes as a bracketed list of decimal numbers.
pub open spec fn byte_list(bytes: Seq<u8>) -> Seq<char> {
    "["@ + byte_items(bytes, bytes.len() as int) + "]"@
}

/// Text with the mark of a borrowed value in front, where it is borrowed.
pub open spec fn marked(text: Seq<char>, borrowed: bool) -> Seq<char> {
    if borrowed {
        "&"@ + text
    } else {
        text
    }
}

/// What `str`'s `Debug` implementation prints for a string of these characters.
pub uninterp spec fn str_debug_text(s: Seq<char>) -> Seq<char>;

/// What `char`'s `Debug` implementation prints for this character.
pub uninterp spec fn char_debug_text(c: char) -> Seq<char>;

/// Formats text with `str`'s `Debug` implementation of the standard library:
/// the text between double quotes, with the characters escaped that it
/// escapes. The result is a function of the characters alone, and is known
/// here only by its name.
#[verifier::external_body]
pub(crate) fn quote_str(s: &str) -> (quoted: String)
    ensures
        quoted@ == str_debug_text(s@),
{
    format!("{:?}", s)
}

/// Formats a character with `char`'s `Debug` implementation of the standard
/// library: the character between single quotes, escaped where it escapes.
/// The result is a function of the character alone, and is known here only
/// by its name.
#[verifier::external_body]
pub(crate) fn quote_char(c: char) -> (quoted: String)
    ensures
        quoted@ == char_debug_text(c),
{
    format!("{:?}", c)
}

/// The one-character text of a decimal digit.
fn digit_str(d: u8) -> (text: &'static str)
    requires
        d < 10,
    ensures
        text@ == seq![digit(d as int)],
{
    proof {
        reveal_strlit("0");
        reveal_strlit("1");
        reveal_strlit("2");
        reveal_strlit("3");
        reveal_strlit("4");
        reveal_strlit("5");
        reveal_strlit("6");
        reveal_strlit("7");
        reveal_strlit("8");
        reveal_strlit("9");
    }
    if d == 0 {
        "0"
    } else if d == 1 {
        "1"
    } else if d == 2 {
        "2"
    } else if d == 3 {
        "3"
    } else if d == 4 {
        "4"
    } else if d == 5 {
        "5"
    } else if d == 6 {
        "6"
    } else if d == 7 {
        "7"
    } else if d == 8 {
        "8"
    } else {
        "9"
    }
}

/// Appends a number in decimal.
pub fn push_decimal(out: &mut String, n: u128)
    ensures
        final(out)@ == old(out)@ + decimal(n as nat),
    decreases n,
{
    if n >= 10 {
        push_decimal(out, n / 10);
    }
    let last = (n % 10) as u8;
    out.append(digit_str(last));
    assert(final(out)@ =~= old(out)@ + decimal(n as nat));
}

/// Appends a number in decimal, with a minus sign where it is negative.
pub fn push_signed_decimal(out: &mut String, v: i128)
    ensures
        final(out)@ == old(out)@ + signed_decimal(v as int),
{
    if v < 0 {
        proof {
            reveal_strlit("-");
        }
        out.append("-");
        let magnitude: u128 = ((-(v + 1)) as u128) + 1;
        push_decimal(out, magnitude);
        assert(final(out)@ =~= old(out)@ + signed_decimal(v as int));
    } else {
        push_decimal(out, v as u128);
    }
}

/// Appends bytes as a bracketed list of decimal numbers.
pub fn push_byte_list(out: &mut String, bytes: &[u8])
    ensures
        final(out)@ == old(out)@ + byte_list(bytes@),
{
    out.append("[");
    let mut i: usize = 0;
    while i < bytes.len()
        invariant
            i <= bytes.len(),
            out@ == old(out)@ + "["@ + byte_items(bytes@, i as int),
        decreases bytes.len() - i,
    {
        if i != 0 {
            out.append(", ");
        }
        push_decimal(out, bytes[i] as u128);
        i += 1;
        assert(out@ =~= old(out)@ + "["@ + byte_items(bytes@, i as int));
    }
    out.append("]");
    assert(final(out)@ =~= old(out)@ + byte_list(bytes@));
}

/// Puts the mark of a borrowed value in front of a rendering, where the value
/// is borrowed.
pub fn with_borrow_mark(text: String, borrowed: bool) -> (rendered: String)
    ensures
        rendered@ == marked(text@, borrowed),
{
    if borrowed {
        let mut rendered = String::new();
        rendered.append("&");
        rendered.append(text.as_str());
        assert(rendered@ =~= marked(text@, borrowed));
        rendered
    } else {
        text
    }
}

} // verus!
