//! Boards written as text: seven lines in which `#` is a peg, `.` is an empty
//! hole and a space is padding.

use crate::bits::{
    lemma_append_bit, lemma_packed_low_bits, lemma_single_bit_doubles, low_bits, packed,
};
use crate::coord::row_start;
use crate::position::Position;
use vstd::prelude::*;
use vstd::string::StringExecFns;

verus! {

/// A character that may stand in a board: a peg, a hole or padding.
pub open spec fn board_char(c: char) -> bool {
    c == '#' || c == '.' || c == ' '
}

/// The text holds nothing but pegs, holes and spaces.
pub open spec fn ascii_clean(text: Seq<char>) -> bool {
    forall|i: int| 0 <= i < text.len() ==> board_char(#[trigger] text[i])
}

/// The holes that the text names, in the order in which it names them: `true`
/// for each `#`, `false` for each `.`, nothing for any other character.
pub open spec fn ascii_holes(text: Seq<char>) -> Seq<bool>
    decreases text.len(),
{
    if text.len() == 0 {
        Seq::empty()
    } else {
        let before = ascii_holes(text.drop_last());
        if text.last() == '#' {
            before.push(true)
        } else if text.last() == '.' {
            before.push(false)
        } else {
            before
        }
    }
}

/// The first `n` of the lines, one after the other.
pub open spec fn lines_text(lines: Seq<&str>, n: int) -> Seq<char>
    decreases n,
{
    if n <= 0 {
        Seq::empty()
    } else {
        lines_text(lines, n - 1) + lines[n - 1]@
    }
}

/// The seven lines of a board, one after the other.
pub open spec fn board_text(lines: [&str; 7]) -> Seq<char> {
    lines_text(lines@, 7)
}

/// The lines describe a board: they hold no character but `#`, `.` and
/// space, and name exactly 33 holes.
pub open spec fn valid_ascii(lines: [&str; 7]) -> bool {
    ascii_clean(board_text(lines)) && ascii_holes(board_text(lines)).len() == 33
}

/// The holes of two texts read one after the other.
pub proof fn lemma_ascii_holes_concat(a: Seq<char>, b: Seq<char>)
    ensures
        ascii_holes(a + b) == ascii_holes(a) + ascii_holes(b),
        ascii_holes(a + b).len() == ascii_holes(a).len() + ascii_holes(b).len(),
    decreases b.len(),
{
    if b.len() == 0 {
        assert(a + b =~= a);
        assert(ascii_holes(a) + ascii_holes(b) =~= ascii_holes(a));
    } else {
        lemma_ascii_holes_concat(a, b.drop_last());
        assert((a + b).drop_last() =~= a + b.drop_last());
        assert((a + b).last() == b.last());
        let front = ascii_holes(a) + ascii_holes(b.drop_last());
        assert(front.push(true) =~= ascii_holes(a) + ascii_holes(b.drop_last()).push(true));
        assert(front.push(false) =~= ascii_holes(a) + ascii_holes(b.drop_last()).push(false));
    }
}

/// A text names at most as many holes as it has characters, and a longer
/// text names no fewer holes than its beginning.
pub proof fn lemma_ascii_holes_prefix(text: Seq<char>, n: int)
    requires
        0 <= n <= text.len(),
    ensures
        ascii_holes(text.take(n)).len() <= ascii_holes(text).len(),
    decreases text.len() - n,
{
    if n < text.len() {
        lemma_ascii_holes_prefix(text, n + 1);
        assert(text.take(n + 1).drop_last() =~= text.take(n));
    } else {
        assert(text.take(n) =~= text);
    }
}

/// A text made of two is clean exactly if both are.
pub proof fn lemma_ascii_clean_concat(a: Seq<char>, b: Seq<char>)
    ensures
        ascii_clean(a + b) <==> ascii_clean(a) && ascii_clean(b),
{
    if ascii_clean(a + b) {
        assert forall|i: int| 0 <= i < a.len() implies board_char(#[trigger] a[i]) by {
            assert((a + b)[i] == a[i]);
        }
        assert forall|i: int| 0 <= i < b.len() implies board_char(#[trigger] b[i]) by {
            assert((a + b)[a.len() + i] == b[i]);
        }
    }
}

/// Lines that do not form a clean text of at most 33 holes up to line `j`
/// do not form one up to a later line `k` either.
proof fn lemma_lines_text_grows(lines: Seq<&str>, j: int, k: int)
    requires
        0 <= j <= k,
    ensures
        ascii_holes(lines_text(lines, j)).len() <= ascii_holes(lines_text(lines, k)).len(),
        ascii_clean(lines_text(lines, k)) ==> ascii_clean(lines_text(lines, j)),
    decreases k - j,
{
    if j < k {
        lemma_lines_text_grows(lines, j, k - 1);
        lemma_ascii_holes_concat(lines_text(lines, k - 1), lines[k - 1]@);
        lemma_ascii_clean_concat(lines_text(lines, k - 1), lines[k - 1]@);
    }
}

/// Reads one more line: the pegs of `line` are added to `position` above the
/// `count` holes that were read before. Nothing is returned if the line holds
/// a foreign character or names a hole beyond the 33rd.
fn scan_line(line: &str, Ghost(before): Ghost<Seq<bool>>, position: u64, count: u8) -> (r: Option<
    (u64, u8),
>)
    requires
        before.len() == count,
        count <= 33,
        position == packed(before),
        position < (1u64 << (count as u64)),
    ensures
        r is Some <==> ascii_clean(line@) && count + ascii_holes(line@).len() <= 33,
        r matches Some((p, n)) ==> {
            &&& n == count + ascii_holes(line@).len()
            &&& p == packed(before + ascii_holes(line@))
            &&& p < (1u64 << (n as u64))
        },
{
    let mut word = position;
    let mut n = count;
    let ghost mut seen: Seq<bool> = before;
    for c in it: line.chars()
        invariant
            it.seq() == line@,
            ascii_clean(line@.take(it.index() as int)),
            seen == before + ascii_holes(line@.take(it.index() as int)),
            before.len() == count,
            seen.len() == n,
            n <= 33,
            word == packed(seen),
            word < (1u64 << (n as u64)),
    {
        let ghost i = it.index() as int;
        proof {
            assert(line@.take(i + 1).drop_last() =~= line@.take(i));
            assert(line@.take(i + 1).last() == c);
            lemma_ascii_holes_prefix(line@, i + 1);
        }
        if c == '#' || c == '.' {
            if n >= 33 {
                return None;
            }
            proof {
                lemma_append_bit(word, n as u64);
                if c == '#' {
                    seen = seen.push(true);
                } else {
                    seen = seen.push(false);
                }
                assert(seen.drop_last() =~= before + ascii_holes(line@.take(i)));
                assert(seen =~= before + ascii_holes(line@.take(i + 1)));
            }
            if c == '#' {
                word = word | (1u64 << n);
            }
            n += 1;
        } else if c != ' ' {
            proof {
                assert(line@[i] == c);
            }
            return None;
        }
        proof {
            assert(seen =~= before + ascii_holes(line@.take(i + 1)));
            assert forall|j: int| 0 <= j < i + 1 implies board_char(
                #[trigger] line@.take(i + 1)[j],
            ) by {
                if j < i {
                    assert(line@.take(i)[j] == line@[j]);
                }
            }
        }
    }
    proof {
        assert(line@.take(line@.len() as int) =~= line@);
    }
    Some((word, n))
}

/// The character that stands for hole number `i` of a position.
pub open spec fn hole_char(pos: Position, i: int) -> char {
    if pos.0 & (1u64 << (i as u64)) != 0 {
        '#'
    } else {
        '.'
    }
}

/// The characters of `count` holes in a row, from hole number `first` on.
pub open spec fn hole_chars(pos: Position, first: int, count: int) -> Seq<char> {
    Seq::new(count as nat, |j: int| hole_char(pos, first + j))
}

/// The number of holes in row `r` of the board, counted from 0 at the top.
pub open spec fn row_width(r: int) -> int {
    if 2 <= r <= 4 {
        7
    } else {
        3
    }
}

/// Row `r` of a position as text: its holes, in the short rows with two
/// spaces before and after them, and the end of the line.
pub open spec fn row_text(pos: Position, r: int) -> Seq<char> {
    let holes = hole_chars(pos, row_start(r - 3), row_width(r));
    if 2 <= r <= 4 {
        holes + seq!['\n']
    } else {
        seq![' ', ' '] + holes + seq![' ', ' ', '\n']
    }
}

/// The first `n` rows of a position as text.
pub open spec fn rows_text(pos: Position, n: int) -> Seq<char>
    decreases n,
{
    if n <= 0 {
        Seq::empty()
    } else {
        rows_text(pos, n - 1) + row_text(pos, n - 1)
    }
}

/// The holes that the characters of some holes in a row name are these
/// holes.
proof fn lemma_holes_of_hole_chars(pos: Position, first: int, count: int)
    requires
        0 <= count,
    ensures
        ascii_holes(hole_chars(pos, first, count)) == Seq::new(
            count as nat,
            |j: int| pos.0 & (1u64 << ((first + j) as u64)) != 0,
        ),
    decreases count,
{
    let holes = Seq::new(count as nat, |j: int| pos.0 & (1u64 << ((first + j) as u64)) != 0);
    if count > 0 {
        lemma_holes_of_hole_chars(pos, first, count - 1);
        assert(hole_chars(pos, first, count).drop_last() =~= hole_chars(pos, first, count - 1));
        let fewer = Seq::new(
            (count - 1) as nat,
            |j: int| pos.0 & (1u64 << ((first + j) as u64)) != 0,
        );
        assert(holes =~= fewer.push(pos.0 & (1u64 << ((first + count - 1) as u64)) != 0));
    } else {
        assert(holes =~= Seq::<bool>::empty());
    }
}

/// The holes that the text of the first `n` rows names are the holes of
/// these rows.
proof fn lemma_holes_of_rows(pos: Position, n: int)
    requires
        0 <= n <= 7,
    ensures
        ascii_holes(rows_text(pos, n)) == low_bits(pos.0, row_start(n - 3)),
    decreases n,
{
    if n > 0 {
        let r = n - 1;
        lemma_holes_of_rows(pos, r);
        let first = row_start(r - 3);
        let chars = hole_chars(pos, first, row_width(r));
        lemma_holes_of_hole_chars(pos, first, row_width(r));
        let pad = seq![' ', ' '];
        let tail = seq![' ', ' ', '\n'];
        let end = seq!['\n'];
        assert(ascii_holes(pad) == Seq::<bool>::empty()) by {
            assert(pad.drop_last() =~= seq![' ']);
            assert(seq![' '].drop_last() =~= Seq::<char>::empty());
            reveal_with_fuel(ascii_holes, 3);
        }
        assert(ascii_holes(end) == Seq::<bool>::empty()) by {
            assert(end.drop_last() =~= Seq::<char>::empty());
            reveal_with_fuel(ascii_holes, 2);
        }
        assert(ascii_holes(tail) == Seq::<bool>::empty()) by {
            assert(tail.drop_last() =~= pad);
        }
        lemma_ascii_holes_concat(pad, chars);
        lemma_ascii_holes_concat(pad + chars, tail);
        lemma_ascii_holes_concat(chars, end);
        lemma_ascii_holes_concat(rows_text(pos, r), row_text(pos, r));
        assert(ascii_holes(row_text(pos, r)) =~= ascii_holes(chars));
        assert(low_bits(pos.0, first) + ascii_holes(chars) =~= low_bits(pos.0, row_start(n - 3)));
    } else {
        assert(low_bits(pos.0, 0) =~= Seq::<bool>::empty());
    }
}

/// The text of a position names the 33 holes of the position: read as a
/// board, it gives the position back, without any bits above the board.
pub proof fn lemma_ascii_names_position(pos: Position)
    ensures
        ascii_holes(pos.spec_ascii()).len() == 33,
        packed(ascii_holes(pos.spec_ascii())) == pos.0 & 0x1_ffff_ffff,
{
    lemma_holes_of_rows(pos, 7);
    lemma_packed_low_bits(pos.0, 33);
    assert((((1u64 << 33) - 1) as u64) == 0x1_ffff_ffff) by (bit_vector);
}

impl Position {
    /// The position as text: seven lines, each with its line end.
    pub open spec fn spec_ascii(self) -> Seq<char> {
        rows_text(self, 7)
    }

    /// The position as text of seven lines, with `#` for a peg and `.` for
    /// an empty hole.
    pub fn to_ascii(&self) -> (r: String)
        ensures
            r@ == self.spec_ascii(),
    {
        let pos = self.0;
        let mut out = String::new();
        let mut mask: u64 = 1;
        let mut row: u8 = 0;
        proof {
            reveal_strlit("  ");
            reveal_strlit("#");
            reveal_strlit(".");
            reveal_strlit("\n");
            assert(1u64 << 0u64 == 1) by (bit_vector);
        }
        while row < 7
            invariant
                0 <= row <= 7,
                pos == self.0,
                mask == 1u64 << (row_start(row - 3) as u64),
                out@ == rows_text(*self, row as int),
                "  "@ == seq![' ', ' '],
                "#"@ == seq!['#'],
                "."@ == seq!['.'],
                "\n"@ == seq!['\n'],
            decreases 7 - row,
        {
            let short = row < 2 || row > 4;
            let width: u8 = if short {
                3
            } else {
                7
            };
            let ghost first = row_start(row - 3);
            let ghost before = out@;
            if short {
                out.append("  ");
            }
            let ghost lead = out@;
            let mut i: u8 = 0;
            while i < width
                invariant
                    0 <= i <= width,
                    width == row_width(row as int),
                    0 <= row < 7,
                    first == row_start(row - 3),
                    pos == self.0,
                    mask == 1u64 << ((first + i) as u64),
                    out@ == lead + hole_chars(*self, first, i as int),
                    "#"@ == seq!['#'],
                    "."@ == seq!['.'],
                decreases width - i,
            {
                proof {
                    lemma_single_bit_doubles((first + i) as u64);
                    assert(hole_chars(*self, first, i + 1) =~= hole_chars(*self, first, i as int).push(
                        hole_char(*self, first + i),
                    ));
                }
                if pos & mask > 0 {
                    out.append("#");
                } else {
                    out.append(".");
                }
                mask = mask * 2;
                i += 1;
                assert(out@ =~= lead + hole_chars(*self, first, i as int));
            }
            if short {
                out.append("  ");
            }
            out.append("\n");
            proof {
                assert(out@ =~= before + row_text(*self, row as int));
            }
            row += 1;
        }
        out
    }

    /// The position that seven lines of text describe, read row by row from
    /// the top left hole, if they describe a board.
    pub fn try_from_ascii(lines: [&str; 7]) -> (r: Option<Position>)
        ensures
            r == if valid_ascii(lines) {
                Some(Position(packed(ascii_holes(board_text(lines)))))
            } else {
                None
            },
            r matches Some(p) ==> p.wf(),
    {
        let mut word: u64 = 0;
        let mut n: u8 = 0;
        let mut i: usize = 0;
        proof {
            assert(1u64 << 0u64 == 1) by (bit_vector);
        }
        while i < 7
            invariant
                0 <= i <= 7,
                n <= 33,
                ascii_clean(lines_text(lines@, i as int)),
                n == ascii_holes(lines_text(lines@, i as int)).len(),
                word == packed(ascii_holes(lines_text(lines@, i as int))),
                word < (1u64 << (n as u64)),
            decreases 7 - i,
        {
            let ghost before = ascii_holes(lines_text(lines@, i as int));
            proof {
                lemma_ascii_holes_concat(lines_text(lines@, i as int), lines@[i as int]@);
                lemma_ascii_clean_concat(lines_text(lines@, i as int), lines@[i as int]@);
                lemma_lines_text_grows(lines@, i + 1, 7);
            }
            match scan_line(lines[i], Ghost(before), word, n) {
                Some((w, m)) => {
                    word = w;
                    n = m;
                },
                None => {
                    return None;
                },
            }
            i += 1;
        }
        if n < 33 {
            return None;
        }
        proof {
            assert(1u64 << 33u64 == 0x2_0000_0000) by (bit_vector);
        }
        Some(Position(word))
    }

    /// The position whose pegs and holes the text names in their order: `#`
    /// for a peg and `.` for an empty hole. Every other character is passed
    /// over, and the text may name any number of holes up to 64.
    pub fn parse(s: &str) -> (r: Position)
        requires
            ascii_holes(s@).len() <= 64,
        ensures
            r == Position(packed(ascii_holes(s@))),
    {
        let mut p: u64 = 0;
        let mut pow: u32 = 0;
        for c in it: s.chars()
            invariant
                it.seq() == s@,
                ascii_holes(s@).len() <= 64,
                pow == ascii_holes(s@.take(it.index() as int)).len(),
                pow <= 64,
                p == packed(ascii_holes(s@.take(it.index() as int))),
        {
            let ghost i = it.index() as int;
            proof {
                assert(s@.take(i + 1).drop_last() =~= s@.take(i));
                assert(s@.take(i + 1).last() == c);
                lemma_ascii_holes_prefix(s@, i + 1);
                let seen = ascii_holes(s@.take(i + 1));
                if c == '#' || c == '.' {
                    assert(seen.drop_last() =~= ascii_holes(s@.take(i)));
                }
            }
            if c == '.' {
                pow += 1;
            } else if c == '#' {
                p = p | (1u64 << pow);
                pow += 1;
            }
        }
        proof {
            assert(s@.take(s@.len() as int) =~= s@);
        }
        Position(p)
    }

    /// The position that seven lines of text describe. The lines must
    /// describe a board.
    pub fn from_ascii(lines: [&str; 7]) -> (r: Position)
        requires
            valid_ascii(lines),
        ensures
            r == Position(packed(ascii_holes(board_text(lines)))),
            r.wf(),
    {
        Position::try_from_ascii(lines).unwrap()
    }
}

} // verus!
