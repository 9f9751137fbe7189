//! Text pattern import.
//!
//! A pattern file is a character grid: one repeated character marks live
//! cells, another marks background.  The importer takes the first two
//! distinct characters it sees and declares the one standing later in a
//! fixed character-density order to be the live mark; a file with fewer
//! than two distinct characters yields an empty population.  Rows and
//! columns map directly to cell coordinates, with `\r\n` line endings
//! treated like `\n`.

use vstd::prelude::*;
use vstd::std_specs::iter::IteratorSpec;
use crate::cell::Cell;

verus! {

/// Printable characters ordered by how much ink they take, sparsest
/// first; the live mark of a pattern is the denser of its two characters.
pub const GRID_CHAR_ORDER: &'static str = " `.-':_,^=;><+!rc*/z?sLTv)J7(|Fi{C}fI31tlu[neoZ5Yxjya]2ESwqkP6h9d4VpOGbUAKXHm8RD#$Bg0MNWQ%&@";

/// The position of the first occurrence of `c` in `s`, or -1 when `c`
/// does not occur; -1 orders an absent character before all present ones.
pub open spec fn rank_in(s: Seq<char>, c: char) -> int
    decreases s.len(),
{
    if s.len() == 0 {
        -1
    } else if s[0] == c {
        0
    } else {
        let r = rank_in(s.skip(1), c);
        if r < 0 {
            -1
        } else {
            r + 1
        }
    }
}

/// A character's place in the density order.
pub open spec fn order_rank(c: char) -> int {
    rank_in(GRID_CHAR_ORDER@, c)
}

/// The first character of `cs` that differs from `a`, if any.
pub open spec fn second_distinct(cs: Seq<char>, a: char) -> Option<char>
    decreases cs.len(),
{
    if cs.len() == 0 {
        None
    } else if cs[0] != a {
        Some(cs[0])
    } else {
        second_distinct(cs.skip(1), a)
    }
}

/// Of the two candidate characters, the one standing later in the
/// density order marks live cells; on a tie the first-seen one does.
pub open spec fn pick_live(a: char, b: char) -> char {
    if order_rank(a) < order_rank(b) {
        b
    } else {
        a
    }
}

/// The character that marks live cells of `cs`, if `cs` holds at least
/// two distinct characters.
pub open spec fn spec_live_char(cs: Seq<char>) -> Option<char> {
    if cs.len() == 0 {
        None
    } else {
        match second_distinct(cs, cs[0]) {
            None => None,
            Some(b) => Some(pick_live(cs[0], b)),
        }
    }
}

/// The cells of the grid `cs`, read from position (`row`, `col`):
/// a newline starts the next row, a carriage return directly before a
/// newline is invisible, and every other character fills one column —
/// a cell where it is the live mark.
pub open spec fn spec_grid(cs: Seq<char>, live: char, row: int, col: int) -> Seq<Cell>
    decreases cs.len(),
{
    if cs.len() == 0 {
        Seq::<Cell>::empty()
    } else if cs[0] == '\n' {
        spec_grid(cs.skip(1), live, row + 1, 0)
    } else if cs[0] == '\r' && cs.len() >= 2 && cs[1] == '\n' {
        spec_grid(cs.skip(1), live, row, col)
    } else if cs[0] == live {
        seq![(col as i32, row as i32)] + spec_grid(cs.skip(1), live, row, col + 1)
    } else {
        spec_grid(cs.skip(1), live, row, col + 1)
    }
}

/// What a pattern text denotes: nothing without two distinct characters,
/// else the grid cells of its live mark.
pub open spec fn spec_cells_from_text(cs: Seq<char>) -> Seq<Cell> {
    match spec_live_char(cs) {
        None => Seq::<Cell>::empty(),
        Some(live) => spec_grid(cs, live, 0, 0),
    }
}

/// Collects a text's characters.
#[verifier::loop_isolation(false)]
fn text_chars(s: &str) -> (v: Vec<char>)
    ensures
        v@ == s@,
{
    let mut v: Vec<char> = Vec::new();
    for ch in it: s.chars()
        invariant
            it.seq() == s@,
            v@ == s@.take(it.index()),
    {
        v.push(ch);
        proof {
            assert(v@ =~= s@.take(it.index() + 1));
        }
    }
    proof {
        assert(v@ =~= s@);
    }
    v
}

/// A rank is -1 or a position, never anything below.
proof fn lemma_rank_lower(s: Seq<char>, c: char)
    ensures
        rank_in(s, c) >= -1,
    decreases s.len(),
{
    if s.len() != 0 && s[0] != c {
        lemma_rank_lower(s.skip(1), c);
    }
}

/// Finds the first occurrence of `c`, scanning front to back.
#[verifier::loop_isolation(false)]
fn rank_of(order: &Vec<char>, c: char) -> (r: Option<usize>)
    ensures
        match r {
            Some(i) => rank_in(order@, c) == i as int,
            None => rank_in(order@, c) == -1,
        },
{
    proof {
        assert(order@.skip(0) =~= order@);
        lemma_rank_lower(order@, c);
    }
    for j in 0..order.len()
        invariant
            rank_in(order@, c) == (if rank_in(order@.skip(j as int), c) < 0 {
                -1int
            } else {
                j + rank_in(order@.skip(j as int), c)
            }),
    {
        if order[j] == c {
            proof {
                assert(order@.skip(j as int)[0] == c);
            }
            return Some(j);
        }
        proof {
            assert(order@.skip(j as int)[0] != c);
            assert(order@.skip(j as int).skip(1) =~= order@.skip(j + 1));
            lemma_rank_lower(order@.skip(j + 1), c);
        }
    }
    proof {
        assert(order@.skip(order@.len() as int).len() == 0);
    }
    None
}

/// Finds the first character that differs from `a`, scanning front to
/// back.
#[verifier::loop_isolation(false)]
fn find_second(chars: &Vec<char>, a: char) -> (r: Option<char>)
    ensures
        r == second_distinct(chars@, a),
{
    proof {
        assert(chars@.skip(0) =~= chars@);
    }
    for j in 0..chars.len()
        invariant
            second_distinct(chars@, a) == second_distinct(chars@.skip(j as int), a),
    {
        if chars[j] != a {
            proof {
                assert(chars@.skip(j as int)[0] == chars@[j as int]);
            }
            return Some(chars[j]);
        }
        proof {
            assert(chars@.skip(j as int)[0] == a);
            assert(chars@.skip(j as int).skip(1) =~= chars@.skip(j + 1));
        }
    }
    proof {
        assert(chars@.skip(chars@.len() as int).len() == 0);
    }
    None
}

/// Reads a pattern text into cells: the grid positions of its live mark,
/// row by row.  A text with fewer than two distinct characters — or an
/// unreadable file, which the caller hands over as an empty text —
/// yields an empty population.
#[verifier::loop_isolation(false)]
pub fn cells_from_text(text: &str) -> (cells: Vec<Cell>)
    requires
        text@.len() <= i32::MAX as int,
    ensures
        cells@ == spec_cells_from_text(text@),
{
    let chars = text_chars(text);
    if chars.len() == 0 {
        return Vec::new();
    }
    let a = chars[0];
    let second = find_second(&chars, a);
    let b = match second {
        None => {
            return Vec::new();
        },
        Some(b) => b,
    };
    let order = text_chars(GRID_CHAR_ORDER);
    let ra = rank_of(&order, a);
    let rb = rank_of(&order, b);
    let live = match (ra, rb) {
        (None, None) => a,
        (None, Some(_)) => b,
        (Some(_), None) => a,
        (Some(ia), Some(ib)) => if ia < ib {
            b
        } else {
            a
        },
    };
    proof {
        assert(live == pick_live(a, b));
        assert(spec_cells_from_text(text@) == spec_grid(chars@, live, 0, 0));
    }
    let mut cells: Vec<Cell> = Vec::new();
    let mut row: i32 = 0;
    let mut col: i32 = 0;
    let n = chars.len();
    let ghost full = spec_grid(chars@, live, 0, 0);
    proof {
        assert(chars@.skip(0) =~= chars@);
        assert(cells@ + spec_grid(chars@, live, 0, 0) =~= full);
    }
    for idx in 0..n
        invariant
            0 <= row as int <= idx as int,
            0 <= col as int <= idx as int,
            full == cells@ + spec_grid(chars@.skip(idx as int), live, row as int, col as int),
    {
        let c = chars[idx];
        proof {
            assert(chars@.skip(idx as int)[0] == c);
            assert(chars@.skip(idx as int).skip(1) =~= chars@.skip(idx + 1));
            if idx + 1 < n {
                assert(chars@.skip(idx as int)[1] == chars@[idx + 1]);
            }
        }
        if c == '\n' {
            row = row + 1;
            col = 0;
        } else if c == '\r' && idx + 1 < n && chars[idx + 1] == '\n' {
            // invisible: part of a `\r\n` line ending
        } else {
            if c == live {
                cells.push((col, row));
                proof {
                    assert(cells@ + spec_grid(
                        chars@.skip(idx + 1),
                        live,
                        row as int,
                        col as int + 1,
                    ) =~= full);
                }
            }
            col = col + 1;
        }
    }
    proof {
        assert(chars@.skip(n as int).len() == 0);
        assert(cells@ + spec_grid(chars@.skip(n as int), live, row as int, col as int) =~= cells@);
    }
    cells
}

} // verus!
