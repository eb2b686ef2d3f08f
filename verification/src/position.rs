//! Byte offsets and LSP positions. The library speaks UTF-8 byte offsets;
//! the protocol speaks a line and a UTF-16 column within it.

use std::ops::Range;
use vstd::prelude::*;
use vstd::string::StringSliceAdditionalSpecFns;
use crate::semantic::{content_end, content_end_of, line_at, line_of, utf16_count, utf16_len, utf16_span, utf16_width, Lines};
use vstd::utf8::*;
use crate::text::str_get;

verus! {

/// The position of byte `byte` (clipped to the text): its line, and the
/// UTF-16 length of that line's text before it.
pub open spec fn position_of(starts: Seq<usize>, len: int, b: Seq<u8>, byte: int) -> (u32, u32) {
    let x = if byte < len {
        byte
    } else {
        len
    };
    let l = line_of(starts, x, starts.len() as int);
    (l as u32, utf16_span(b, starts[l] as int, x))
}

/// The position of byte `byte` of `text`, whose lines are `lines`
/// ([`position_of`]).
pub fn byte_to_position(text: &str, lines: &Lines, byte: usize) -> (r: (u32, u32))
    requires
        lines.wf(),
    ensures
        r == position_of(lines.starts@, lines.len as int, text.spec_bytes(), byte as int),
{
    let x = if byte < lines.len {
        byte
    } else {
        lines.len
    };
    let l = line_at(lines, x);
    (l as u32, utf16_len(text, lines.starts[l], x))
}

/// The positions of both ends of a byte span.
pub fn range_to_positions(text: &str, lines: &Lines, r: &Range<usize>) -> (p: ((u32, u32), (u32, u32)))
    requires
        lines.wf(),
    ensures
        p.0 == position_of(lines.starts@, lines.len as int, text.spec_bytes(), r.start as int),
        p.1 == position_of(lines.starts@, lines.len as int, text.spec_bytes(), r.end as int),
{
    (byte_to_position(text, lines, r.start), byte_to_position(text, lines, r.end))
}

/// The UTF-8 length of the character a byte leads (1 for any byte that
/// leads no longer one).
pub open spec fn lead_width(x: u8) -> int {
    if x >= 0xF0 {
        4
    } else if x >= 0xE0 {
        3
    } else if x >= 0xC0 {
        2
    } else {
        1
    }
}

/// Where a walk from byte `i` stops, short of `end`, after covering `col`
/// UTF-16 units: at a character it would have to split or pass, or where
/// the units are used up.
pub open spec fn walk_units(b: Seq<u8>, i: int, end: int, col: int) -> int
    decreases end - i,
{
    if i >= end || i < 0 || i >= b.len() || col <= 0 {
        i
    } else {
        let w8 = lead_width(b[i]);
        let w16 = if w8 == 4 {
            2int
        } else {
            1int
        };
        if col < w16 || i + w8 > end {
            i
        } else {
            walk_units(b, i + w8, end, col - w16)
        }
    }
}

/// The byte offset of position (`line`, `col`): none past the last line,
/// or where the line is no text of its own; else the line's start walked
/// `col` UTF-16 units on, stopping at the end of its text (before its line
/// break) and at the start of a character the column falls inside.
pub open spec fn byte_of(starts: Seq<usize>, len: int, b: Seq<u8>, line: int, col: int) -> Option<int> {
    if line >= starts.len() {
        None
    } else {
        let ls = starts[line] as int;
        let le = if line + 1 < starts.len() {
            starts[line + 1] as int
        } else {
            len
        };
        if crate::text::slice_chars(b, ls, le) is None {
            None
        } else {
            Some(walk_units(b, ls, content_end(b, ls, le), col))
        }
    }
}

/// The byte offset of position (`line`, `col`) of `text`, whose lines are
/// `lines` ([`byte_of`]).
pub fn position_to_byte(text: &str, lines: &Lines, line: u32, col: u32) -> (r: Option<usize>)
    requires
        lines.wf(),
    ensures
        match r {
            Some(x) => byte_of(lines.starts@, lines.len as int, text.spec_bytes(), line as int, col as int) == Some(
                x as int,
            ),
            None => byte_of(lines.starts@, lines.len as int, text.spec_bytes(), line as int, col as int) is None,
        },
{
    let n = lines.starts.len();
    if line as usize >= n {
        return None;
    }
    let l = line as usize;
    let ls = lines.starts[l];
    let le = if l + 1 < n {
        lines.starts[l + 1]
    } else {
        lines.len
    };
    if str_get(text, ls, le).is_none() {
        return None;
    }
    let le = content_end_of(text, ls, le);
    let b = text.as_bytes();
    let ghost bs = text.spec_bytes();
    let mut i = ls;
    let mut left = col;
    let mut done = false;
    while !done
        invariant
            b@ == bs,
            le <= bs.len(),
            i <= le,
            walk_units(bs, i as int, le as int, left as int) == walk_units(bs, ls as int, le as int, col as int),
            done ==> walk_units(bs, i as int, le as int, left as int) == i,
        decreases le - i + (if done {
            0int
        } else {
            1int
        }),
    {
        if i >= le || i >= b.len() || left == 0 {
            done = true;
        } else {
            let x = b[i];
            let w8: usize = if x >= 0xF0 {
                4
            } else if x >= 0xE0 {
                3
            } else if x >= 0xC0 {
                2
            } else {
                1
            };
            let w16: u32 = if w8 == 4 {
                2
            } else {
                1
            };
            if left < w16 || w8 > le - i {
                done = true;
            } else {
                i = i + w8;
                left = left - w16;
            }
        }
    }
    Some(i)
}


proof fn lemma_utf16_count_cons(c: char, rest: Seq<char>)
    ensures
        utf16_count(seq![c] + rest) == utf16_width(c) + utf16_count(rest),
    decreases rest.len(),
{
    if rest.len() == 0 {
        assert((seq![c] + rest).drop_last() =~= Seq::<char>::empty());
        assert(rest =~= Seq::<char>::empty());
    } else {
        assert((seq![c] + rest).drop_last() =~= seq![c] + rest.drop_last());
        lemma_utf16_count_cons(c, rest.drop_last());
    }
}

/// The first character of valid UTF-8 takes as many bytes as its leading
/// byte says, and two UTF-16 units exactly when it takes four bytes.
proof fn lemma_first_scalar_widths(bytes: Seq<u8>)
    requires
        valid_first_scalar(bytes),
    ensures
        lead_width(bytes[0]) == length_of_first_scalar(bytes),
        utf16_width(decode_first_scalar(bytes) as char) == if length_of_first_scalar(bytes) == 4 {
            2nat
        } else {
            1nat
        },
{
    let cp = decode_first_scalar(bytes);
    let b0 = bytes[0];
    if is_leading_byte_width_1(b0) {
        assert(cp <= 0x7f) by {
            assert((b0 & 0x7F) <= 0x7F) by (bit_vector);
        }
    } else if is_leading_byte_width_2(b0) {
        let b1 = bytes[1];
        let x = (b0 & 0x1F) as u32;
        let y = (b1 & 0x3f) as u32;
        assert(x <= 0x1F) by {
            assert((b0 & 0x1F) <= 0x1F) by (bit_vector);
        }
        assert(y <= 0x3F) by {
            assert((b1 & 0x3F) <= 0x3F) by (bit_vector);
        }
        assert((x << 6) | y <= 0x7FF) by (bit_vector)
            requires
                x <= 0x1F,
                y <= 0x3F,
        ;
    } else if is_leading_byte_width_3(b0) {
        let b1 = bytes[1];
        let b2 = bytes[2];
        let x = (b0 & 0x0F) as u32;
        let y = (b1 & 0x3f) as u32;
        let z = (b2 & 0x3f) as u32;
        assert(x <= 0x0F) by {
            assert((b0 & 0x0F) <= 0x0F) by (bit_vector);
        }
        assert(y <= 0x3F) by {
            assert((b1 & 0x3F) <= 0x3F) by (bit_vector);
        }
        assert(z <= 0x3F) by {
            assert((b2 & 0x3F) <= 0x3F) by (bit_vector);
        }
        assert((x << 12) | (y << 6) | z <= 0xFFFF) by (bit_vector)
            requires
                x <= 0x0F,
                y <= 0x3F,
                z <= 0x3F,
        ;
    }
}

/// Walking from `i` as many UTF-16 units as the text `i..x` holds ends at
/// `x`, when that text is valid UTF-8 and `x` lies at or before `end`.
proof fn lemma_walk_reaches(b: Seq<u8>, i: int, x: int, end: int)
    requires
        0 <= i <= x <= end,
        x <= b.len(),
        valid_utf8(b.subrange(i, x)),
    ensures
        walk_units(b, i, end, utf16_count(decode_utf8(b.subrange(i, x))) as int) == x,
    decreases x - i,
{
    let sub = b.subrange(i, x);
    if i < x {
        let w = length_of_first_scalar(sub);
        let c = decode_first_scalar(sub) as char;
        let rest = pop_first_scalar(sub);
        lemma_first_scalar_widths(sub);
        assert(sub[0] == b[i]);
        assert(decode_utf8(sub) == seq![c] + decode_utf8(rest));
        lemma_utf16_count_cons(c, decode_utf8(rest));
        assert(rest =~= b.subrange(i + w, x));
        lemma_walk_reaches(b, i + w, x, end);
    } else {
        assert(sub.len() == 0);
        assert(decode_utf8(sub) =~= Seq::<char>::empty());
    }
}

/// The line `line_of` finds holds the byte: it starts at or before it, and
/// the next line starts after it.
proof fn lemma_line_of_holds(starts: Seq<usize>, x: int, n: int)
    requires
        1 <= n <= starts.len(),
        starts[0] == 0,
        0 <= x,
        forall|i: int, j: int| 0 <= i < j < starts.len() ==> starts[i] < starts[j],
        n < starts.len() ==> x < starts[n],
    ensures
        0 <= line_of(starts, x, n) < n,
        starts[line_of(starts, x, n)] <= x,
        line_of(starts, x, n) + 1 < starts.len() ==> x < starts[line_of(starts, x, n) + 1],
    decreases n,
{
    if n > 1 && starts[n - 1] > x {
        lemma_line_of_holds(starts, x, n - 1);
    }
}

/// A position read off a byte leads back to that byte: for text that is
/// valid UTF-8 within the byte's line, a byte at a character boundary that
/// is not inside the line's break, and a column that fits in 32 bits.
pub proof fn law_position_leads_back_to_its_byte(starts: Seq<usize>, b: Seq<u8>, x: int)
    requires
        starts.len() >= 1,
        starts.len() <= u32::MAX,
        starts[0] == 0,
        forall|i: int, j: int| 0 <= i < j < starts.len() ==> starts[i] < starts[j],
        forall|i: int| 0 <= i < starts.len() ==> starts[i] <= b.len(),
        0 <= x <= b.len(),
        ({
            let l = line_of(starts, x, starts.len() as int);
            let ls = starts[l] as int;
            let le = if l + 1 < starts.len() { starts[l + 1] as int } else { b.len() as int };
            &&& crate::text::slice_chars(b, ls, le) is Some
            &&& crate::text::slice_chars(b, ls, x) is Some
            &&& valid_utf8(b.subrange(ls, x))
            &&& x <= content_end(b, ls, le)
            &&& utf16_count(decode_utf8(b.subrange(ls, x))) < 0x1_0000_0000
        }),
    ensures
        byte_of(starts, b.len() as int, b, position_of(starts, b.len() as int, b, x).0 as int,
            position_of(starts, b.len() as int, b, x).1 as int) == Some(x),
{
    let n = starts.len() as int;
    lemma_line_of_holds(starts, x, n);
    let l = line_of(starts, x, n);
    let ls = starts[l] as int;
    let le = if l + 1 < n { starts[l + 1] as int } else { b.len() as int };
    let ce = content_end(b, ls, le);
    let cnt = utf16_count(decode_utf8(b.subrange(ls, x)));
    assert(position_of(starts, b.len() as int, b, x).0 as int == l);
    assert(position_of(starts, b.len() as int, b, x).1 as int == cnt);
    assert(ce <= le);
    lemma_walk_reaches(b, ls, x, ce);
}

} // verus!
