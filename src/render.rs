//! Terminal colouring of an overlay's text.
use vstd::prelude::*;

verus! {

/// The value of `c` as a hexadecimal digit (either case), or -1.
pub open spec fn hex_value(c: char) -> int {
    if '0' <= c && c <= '9' {
        c as int - '0' as int
    } else if 'a' <= c && c <= 'f' {
        c as int - 'a' as int + 10
    } else if 'A' <= c && c <= 'F' {
        c as int - 'A' as int + 10
    } else {
        -1
    }
}

/// The decimal digit of `d`, for `d < 10`.
pub open spec fn decimal_digit(d: int) -> char {
    if d == 0 { '0' }
    else if d == 1 { '1' }
    else if d == 2 { '2' }
    else if d == 3 { '3' }
    else if d == 4 { '4' }
    else if d == 5 { '5' }
    else if d == 6 { '6' }
    else if d == 7 { '7' }
    else if d == 8 { '8' }
    else { '9' }
}

/// A cell of colour `d`: two spaces on background colour `40 + d`, or
/// `92 + d` for the bright colours from 8 on.
pub open spec fn ansi_cell(d: int) -> Seq<char> {
    seq!['\x1b', '['] + (if d < 8 {
        seq!['4', decimal_digit(d)]
    } else {
        seq!['1', '0', decimal_digit(d - 8)]
    }) + seq!['m', ' ', ' ']
}

/// The end of a line: reset the colour, then the line break.
pub open spec fn ansi_line_end() -> Seq<char> {
    seq!['\x1b', '[', '0', 'm', '\n']
}

/// The coloured form of one character of an overlay.
pub open spec fn ansi_piece(c: char) -> Seq<char> {
    if hex_value(c) >= 0 {
        ansi_cell(hex_value(c))
    } else if c == '\n' {
        ansi_line_end()
    } else {
        seq![c]
    }
}

/// The coloured form of an overlay's text, character by character.
pub open spec fn ansi_text(s: Seq<char>) -> Seq<char>
    decreases s.len(),
{
    if s.len() == 0 {
        Seq::empty()
    } else {
        ansi_text(s.drop_last()) + ansi_piece(s.last())
    }
}

/// The value of `c` as a hexadecimal digit.
fn hex_char_value(c: char) -> (r: Option<u32>)
    ensures
        r == if hex_value(c) >= 0 {
            Some(hex_value(c) as u32)
        } else {
            None::<u32>
        },
{
    if '0' <= c && c <= '9' {
        Some(c as u32 - '0' as u32)
    } else if 'a' <= c && c <= 'f' {
        Some(c as u32 - 'a' as u32 + 10)
    } else if 'A' <= c && c <= 'F' {
        Some(c as u32 - 'A' as u32 + 10)
    } else {
        None
    }
}

/// Appends the coloured cell of colour `d`.
fn push_cell(out: &mut String, d: u32)
    requires
        d < 16,
    ensures
        final(out)@ == old(out)@ + ansi_cell(d as int),
{
    proof {
        reveal_strlit("\x1b[");
        reveal_strlit("4");
        reveal_strlit("10");
        reveal_strlit("m  ");
        reveal_strlit("0");
        reveal_strlit("1");
        reveal_strlit("2");
        reveal_strlit("3");
        reveal_strlit("4");
        reveal_strlit("5");
        reveal_strlit("6");
        reveal_strlit("7");
    }
    out.append("\x1b[");
    let digit = if d < 8 {
        out.append("4");
        d
    } else {
        out.append("10");
        d - 8
    };
    let text = if digit == 0 {
        "0"
    } else if digit == 1 {
        "1"
    } else if digit == 2 {
        "2"
    } else if digit == 3 {
        "3"
    } else if digit == 4 {
        "4"
    } else if digit == 5 {
        "5"
    } else if digit == 6 {
        "6"
    } else {
        "7"
    };
    out.append(text);
    out.append("m  ");
    assert(out@ =~= old(out)@ + ansi_cell(d as int));
}

/// The overlay text with each hexadecimal digit drawn as a cell of that
/// colour, the colour reset at the end of each line, and a reset and a line
/// break at the end.
pub fn to_ansi(ipt_str: String) -> (r: String)
    ensures
        r@ == ansi_text(ipt_str@) + ansi_line_end(),
{
    let s = ipt_str.as_str();
    let n = s.unicode_len();
    let mut out = String::new();
    let mut i: usize = 0;
    while i < n
        invariant
            n == s@.len(),
            s@ == ipt_str@,
            i <= n,
            out@ == ansi_text(s@.subrange(0, i as int)),
        decreases n - i,
    {
        proof {
            reveal_strlit("\x1b[0m\n");
        }
        let c = s.get_char(i);
        match hex_char_value(c) {
            Some(d) => push_cell(&mut out, d),
            None => {
                if c == '\n' {
                    out.append("\x1b[0m\n");
                } else {
                    out.append(s.substring_char(i, i + 1));
                }
            },
        }
        proof {
            let sub = s@.subrange(0, i + 1);
            assert(sub.drop_last() =~= s@.subrange(0, i as int));
        }
        i = i + 1;
    }
    proof {
        reveal_strlit("\x1b[0m\n");
    }
    assert(s@.subrange(0, i as int) =~= s@);
    out.append("\x1b[0m\n");
    out
}

} // verus!
