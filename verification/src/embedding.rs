//! Drawing a two-dimensional embedding of the fleet as text. Coordinates are
//! floating-point; once they are scaled onto a grid of character cells, the
//! canvas itself is drawn here.

use vstd::prelude::*;

verus! {

/// The character that marks agent `idx`: `A` to `Z` for the first 26
/// agents, `#` for the rest.
pub open spec fn marker(idx: int) -> char {
    if 0 <= idx < 26 {
        ((65 + idx) as u8) as char
    } else {
        '#'
    }
}

/// The last agent placed on cell `(x, y)`, if any.
pub open spec fn painted(cells: Seq<(usize, usize)>, x: int, y: int) -> Option<int>
    decreases cells.len(),
{
    if cells.len() == 0 {
        None
    } else if cells.last().0 == x && cells.last().1 == y {
        Some(cells.len() - 1)
    } else {
        painted(cells.drop_last(), x, y)
    }
}

/// The character drawn at column `x`, grid row `y`.
pub open spec fn drawn(cells: Seq<(usize, usize)>, x: int, y: int) -> char {
    match painted(cells, x, y) {
        Some(idx) => marker(idx),
        None => ' ',
    }
}

/// The agent found on a cell is the last agent placed on that cell, and no
/// agent is found on a cell where none was placed.
pub proof fn lemma_painted_placed(cells: Seq<(usize, usize)>, x: int, y: int)
    ensures
        painted(cells, x, y) matches Some(idx) ==> {
            &&& 0 <= idx < cells.len()
            &&& cells[idx].0 == x && cells[idx].1 == y
            &&& forall|l: int| idx < l < cells.len() ==> !((#[trigger] cells[l]).0 == x && cells[l].1 == y)
        },
        painted(cells, x, y) is None ==> forall|l: int| 0 <= l < cells.len() ==> !((#[trigger] cells[l]).0 == x && cells[l].1 == y),
    decreases cells.len(),
{
    if cells.len() > 0 {
        let init = cells.drop_last();
        lemma_painted_placed(init, x, y);
        let last = cells[cells.len() - 1];
        if !(last.0 == x && last.1 == y) {
            assert(painted(cells, x, y) == painted(init, x, y));
            if painted(init, x, y) is Some {
                let idx = painted(init, x, y).unwrap();
                assert(cells[idx] == init[idx]);
                assert forall|l: int| idx < l < cells.len() implies !((#[trigger] cells[l]).0 == x && cells[l].1 == y) by {
                    if l < init.len() {
                        assert(init[l] == cells[l]);
                    }
                }
            } else {
                assert forall|l: int| 0 <= l < cells.len() implies !((#[trigger] cells[l]).0 == x && cells[l].1 == y) by {
                    if l < init.len() {
                        assert(init[l] == cells[l]);
                    }
                }
            }
        }
    }
}

/// The marker of agent `idx`.
fn marker_of(idx: usize) -> (c: char)
    ensures
        c == marker(idx as int),
{
    if idx < 26 {
        let b: u8 = 65u8 + idx as u8;
        b as char
    } else {
        '#'
    }
}

/// Draws agents on a `width` × `height` canvas: agent `idx` sits at cell
/// `cells[idx] = (x, y)`, with `y` counted upwards from the bottom row, and a
/// later agent covers an earlier one on the same cell. Row 0 of the result is
/// the top row. Every cell is blank or shows the marker of some agent, and the
/// last agent's marker always shows.
pub fn render_canvas(cells: &Vec<(usize, usize)>, width: usize, height: usize) -> (canvas: Vec<Vec<char>>)
    requires
        forall|i: int| 0 <= i < cells@.len() ==> (#[trigger] cells@[i]).0 < width && cells@[i].1 < height,
    ensures
        canvas@.len() == height,
        forall|r: int| 0 <= r < height ==> (#[trigger] canvas@[r])@.len() == width,
        forall|r: int, x: int|
            0 <= r < height && 0 <= x < width ==> #[trigger] canvas@[r]@[x] == drawn(cells@, x, height - 1 - r),
        forall|r: int, x: int|
            0 <= r < height && 0 <= x < width ==> #[trigger] canvas@[r]@[x] == ' ' || exists|i: int|
                0 <= i < cells@.len() && canvas@[r]@[x] == marker(i),
        cells@.len() > 0 ==> canvas@[height - 1 - cells@.last().1]@[cells@.last().0 as int] == marker(
            cells@.len() - 1,
        ),
        forall|r: int, x: int|
            0 <= r < height && 0 <= x < width && (forall|l: int|
                0 <= l < cells@.len() ==> !((#[trigger] cells@[l]).0 == x && cells@[l].1 == height - 1 - r))
                ==> #[trigger] canvas@[r]@[x] == ' ',
        forall|r: int, x: int, k: int|
            0 <= r < height && 0 <= x < width && 0 <= k < cells@.len() && (#[trigger] cells@[k]).0 == x && cells@[k].1
                == height - 1 - r && (forall|l: int|
                k < l < cells@.len() ==> !((#[trigger] cells@[l]).0 == x && cells@[l].1 == height - 1 - r))
                ==> #[trigger] canvas@[r]@[x] == marker(k),
{
    let mut canvas: Vec<Vec<char>> = Vec::new();
    let mut r: usize = 0;
    while r < height
        invariant
            r <= height,
            canvas@.len() == r,
            forall|a: int| 0 <= a < r ==> (#[trigger] canvas@[a])@ == Seq::new(width as nat, |x: int| ' '),
        decreases height - r,
    {
        let mut row: Vec<char> = Vec::new();
        let mut x: usize = 0;
        while x < width
            invariant
                x <= width,
                row@ == Seq::new(x as nat, |b: int| ' '),
            decreases width - x,
        {
            row.push(' ');
            x = x + 1;
            assert(row@ =~= Seq::new(x as nat, |b: int| ' '));
        }
        canvas.push(row);
        r = r + 1;
    }
    let mut idx: usize = 0;
    while idx < cells.len()
        invariant
            idx <= cells@.len(),
            canvas@.len() == height,
            forall|i: int| 0 <= i < cells@.len() ==> (#[trigger] cells@[i]).0 < width && cells@[i].1 < height,
            forall|a: int| 0 <= a < height ==> (#[trigger] canvas@[a])@.len() == width,
            forall|a: int, x: int|
                0 <= a < height && 0 <= x < width ==> #[trigger] canvas@[a]@[x] == drawn(
                    cells@.take(idx as int),
                    x,
                    height - 1 - a,
                ),
        decreases cells@.len() - idx,
    {
        let (x, y) = cells[idx];
        let ch = marker_of(idx);
        let ghost before = canvas@;
        let mut row: Vec<char> = Vec::new();
        std::mem::swap(&mut row, &mut canvas[height - 1 - y]);
        row.set(x, ch);
        std::mem::swap(&mut row, &mut canvas[height - 1 - y]);
        proof {
            let t = cells@.take(idx + 1);
            assert(t.drop_last() =~= cells@.take(idx as int));
            assert(t.last() == (x, y));
            assert forall|a: int| 0 <= a < height implies (#[trigger] canvas@[a])@.len() == width by {
                if a != height - 1 - y {
                    assert(canvas@[a] == before[a]);
                }
            }
            assert forall|a: int, c: int| 0 <= a < height && 0 <= c < width implies #[trigger] canvas@[a]@[c]
                == drawn(t, c, height - 1 - a) by {
                if a != height - 1 - y {
                    assert(canvas@[a] == before[a]);
                }
            }
        }
        idx = idx + 1;
    }
    assert(cells@.take(cells@.len() as int) =~= cells@);
    proof {
        assert forall|r: int, x: int| 0 <= r < height && 0 <= x < width implies #[trigger] canvas@[r]@[x] == ' '
            || exists|i: int| 0 <= i < cells@.len() && canvas@[r]@[x] == marker(i) by {
            lemma_painted_placed(cells@, x, height - 1 - r);
        }
        assert forall|r: int, x: int|
            0 <= r < height && 0 <= x < width && (forall|l: int|
                0 <= l < cells@.len() ==> !((#[trigger] cells@[l]).0 == x && cells@[l].1 == height - 1 - r))
                implies #[trigger] canvas@[r]@[x] == ' ' by {
            lemma_painted_placed(cells@, x, height - 1 - r);
            if painted(cells@, x, height - 1 - r) is Some {
                let idx = painted(cells@, x, height - 1 - r).unwrap();
                assert(cells@[idx].0 == x);
            }
        }
        assert forall|r: int, x: int, k: int|
            0 <= r < height && 0 <= x < width && 0 <= k < cells@.len() && (#[trigger] cells@[k]).0 == x && cells@[k].1
                == height - 1 - r && (forall|l: int|
                k < l < cells@.len() ==> !((#[trigger] cells@[l]).0 == x && cells@[l].1 == height - 1 - r))
                implies #[trigger] canvas@[r]@[x] == marker(k) by {
            lemma_painted_placed(cells@, x, height - 1 - r);
            if painted(cells@, x, height - 1 - r) is Some {
                let idx = painted(cells@, x, height - 1 - r).unwrap();
                assert(cells@[idx].0 == x);
                if idx < k {
                    assert(cells@[k].0 == x);
                } else if idx > k {
                    assert(cells@[idx].0 == x);
                }
            } else {
                assert(cells@[k].0 == x);
            }
        }
        if cells@.len() > 0 {
            let last = cells@.last();
            assert(cells@[cells@.len() - 1] == last);
            assert(painted(cells@, last.0 as int, last.1 as int) == Some((cells@.len() - 1) as int));
        }
    }
    canvas
}

} // verus!
