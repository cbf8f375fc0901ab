//! The maze: a grid of characters read from text, its finish line, and which
//! of its cells are walls.

use vstd::prelude::*;

verus! {

/// Side of a maze cell in world units.
pub const CELL_SIZE: usize = 100;

/// Finish line used when the maze has no goal cell.
pub const DEFAULT_FINISH: (u128, u128) = (1300, 1300);

/// Number of characters before the first line break of `t` (all of `t` when
/// it has none).
pub open spec fn line_end(t: Seq<char>) -> nat
    decreases t.len(),
{
    if t.len() == 0 {
        0
    } else if t[0] == '\n' {
        0
    } else {
        1 + line_end(t.drop_first())
    }
}

pub proof fn lemma_line_end_bound(t: Seq<char>)
    ensures
        line_end(t) <= t.len(),
    decreases t.len(),
{
    if t.len() > 0 && t[0] != '\n' {
        lemma_line_end_bound(t.drop_first());
    }
}

/// A line without its carriage return, if it ended in one.
pub open spec fn strip_cr(line: Seq<char>) -> Seq<char> {
    if line.len() > 0 && line.last() == '\r' {
        line.drop_last()
    } else {
        line
    }
}

/// The lines of a text: the pieces between line breaks, each line that ends
/// in a line break losing a carriage return before it; a text that ends in a
/// line break has no empty line after it.
pub open spec fn text_lines(t: Seq<char>) -> Seq<Seq<char>>
    decreases t.len(),
{
    if t.len() == 0 {
        seq![]
    } else {
        let k = line_end(t);
        if k < t.len() {
            seq![strip_cr(t.take(k as int))] + text_lines(t.skip(k + 1int))
        } else {
            seq![t]
        }
    }
}

/// The line break at `k` is the first one of `t`.
proof fn lemma_line_end_at(t: Seq<char>, k: int)
    requires
        0 <= k < t.len(),
        t[k] == '\n',
        forall|j: int| 0 <= j < k ==> t[j] != '\n',
    ensures
        line_end(t) == k,
    decreases k,
{
    if k > 0 {
        lemma_line_end_at(t.drop_first(), k - 1);
    }
}

/// A text without line breaks is one line.
proof fn lemma_line_end_none(t: Seq<char>)
    requires
        forall|j: int| 0 <= j < t.len() ==> t[j] != '\n',
    ensures
        line_end(t) == t.len(),
    decreases t.len(),
{
    if t.len() > 0 {
        lemma_line_end_none(t.drop_first());
    }
}

/// No line of a text holds a line break, and every line but possibly the last
/// is followed by one in the text.
pub proof fn lemma_lines_hold_no_breaks(t: Seq<char>)
    ensures
        forall|r: int, j: int|
            0 <= r < text_lines(t).len() && 0 <= j < text_lines(t)[r].len() ==> #[trigger] text_lines(
                t,
            )[r][j] != '\n',
        text_lines(t).len() <= t.len(),
    decreases t.len(),
{
    if t.len() > 0 {
        let k = line_end(t);
        lemma_line_end_bound(t);
        lemma_line_end_prefix(t);
        if k < t.len() {
            let rest = t.skip(k + 1int);
            lemma_lines_hold_no_breaks(rest);
            let first = strip_cr(t.take(k as int));
            assert(text_lines(t) == seq![first] + text_lines(rest));
            assert forall|r: int, j: int|
                0 <= r < text_lines(t).len() && 0 <= j < text_lines(t)[r].len() implies #[trigger] text_lines(
                t,
            )[r][j] != '\n' by {
                if r == 0 {
                    assert(text_lines(t)[r] == first);
                    assert(first[j] == t[j]);
                } else {
                    assert(text_lines(t)[r] == text_lines(rest)[r - 1]);
                }
            }
        }
    }
}

/// The first `line_end(t)` characters of `t` are not line breaks.
proof fn lemma_line_end_prefix(t: Seq<char>)
    ensures
        forall|j: int| 0 <= j < line_end(t) ==> t[j] != '\n',
    decreases t.len(),
{
    if t.len() > 0 && t[0] != '\n' {
        lemma_line_end_prefix(t.drop_first());
        lemma_line_end_bound(t);
        assert forall|j: int| 0 <= j < line_end(t) implies t[j] != '\n' by {
            if j > 0 {
                assert(t[j] == t.drop_first()[j - 1]);
            }
        }
    }
}

/// `line_end` stops at a line break when it stops before the end.
proof fn lemma_line_end_is_break(t: Seq<char>)
    ensures
        line_end(t) < t.len() ==> t[line_end(t) as int] == '\n',
    decreases t.len(),
{
    if t.len() > 0 && t[0] != '\n' {
        lemma_line_end_is_break(t.drop_first());
    }
}

/// `row` stands in `text` at offset `o` as a whole line: a line starts there
/// (at the beginning of the text or after a line break), and right after the
/// row the text ends, or a line break follows, or a carriage return and a
/// line break follow.
pub open spec fn is_line_at(text: Seq<char>, row: Seq<char>, o: int) -> bool {
    let e = o + row.len();
    &&& 0 <= o
    &&& e <= text.len()
    &&& text.subrange(o, e) == row
    &&& (o == 0 || text[o - 1] == '\n')
    &&& (e == text.len() || text[e] == '\n' || (text[e] == '\r' && e + 1 < text.len() && text[e + 1]
        == '\n'))
}

/// Each row stands in `text` as a whole line at its offset in `offs`, and
/// the offsets increase from one row to the next.
pub open spec fn lines_at(text: Seq<char>, rows: Seq<Seq<char>>, offs: Seq<int>) -> bool {
    &&& offs.len() == rows.len()
    &&& forall|r: int| 0 <= r < offs.len() ==> is_line_at(text, rows[r], #[trigger] offs[r])
    &&& forall|r1: int, r2: int| 0 <= r1 < r2 < offs.len() ==> offs[r1] < offs[r2]
}

/// Number of line breaks in a text.
pub open spec fn breaks(t: Seq<char>) -> nat
    decreases t.len(),
{
    if t.len() == 0 {
        0
    } else {
        breaks(t.drop_last()) + if t.last() == '\n' {
            1nat
        } else {
            0nat
        }
    }
}

proof fn lemma_breaks_add(a: Seq<char>, b: Seq<char>)
    ensures
        breaks(a + b) == breaks(a) + breaks(b),
    decreases b.len(),
{
    if b.len() == 0 {
        assert(a + b =~= a);
    } else {
        assert((a + b).drop_last() =~= a + b.drop_last());
        assert((a + b).last() == b.last());
        lemma_breaks_add(a, b.drop_last());
    }
}

proof fn lemma_breaks_none(t: Seq<char>)
    requires
        forall|j: int| 0 <= j < t.len() ==> t[j] != '\n',
    ensures
        breaks(t) == 0,
    decreases t.len(),
{
    if t.len() > 0 {
        lemma_breaks_none(t.drop_last());
    }
}

/// A text has one line per line break, plus one for a last line that no line
/// break ends.
pub proof fn lemma_line_count(t: Seq<char>)
    ensures
        text_lines(t).len() == breaks(t) + if t.len() > 0 && t.last() != '\n' {
            1nat
        } else {
            0nat
        },
    decreases t.len(),
{
    if t.len() > 0 {
        let k = line_end(t);
        lemma_line_end_bound(t);
        lemma_line_end_prefix(t);
        lemma_line_end_is_break(t);
        if k < t.len() {
            let rest = t.skip(k + 1int);
            lemma_line_count(rest);
            let pre = t.take(k as int);
            lemma_breaks_none(pre);
            assert(t =~= pre + (seq![t[k as int]] + rest));
            lemma_breaks_add(pre, seq![t[k as int]] + rest);
            lemma_breaks_add(seq![t[k as int]], rest);
            let one = seq![t[k as int]];
            assert(one.drop_last() =~= Seq::<char>::empty());
            assert(breaks(one.drop_last()) == 0);
            assert(one.last() == '\n');
            assert(breaks(one) == 1);
            if rest.len() > 0 {
                assert(rest.last() == t.last());
            }
        } else {
            lemma_breaks_none(t);
        }
    }
}

/// The rows of a text are its lines, in order: each stands in the text as a
/// whole line, at offsets that increase from one row to the next.
pub proof fn lemma_rows_are_lines(t: Seq<char>) -> (offs: Seq<int>)
    ensures
        lines_at(t, text_lines(t), offs),
        offs.len() == text_lines(t).len(),
        forall|r: int| 0 <= r < offs.len() ==> is_line_at(t, text_lines(t)[r], #[trigger] offs[r]),
        forall|r1: int, r2: int| 0 <= r1 < r2 < offs.len() ==> offs[r1] < offs[r2],
    decreases t.len(),
{
    if t.len() == 0 {
        seq![]
    } else {
        let k = line_end(t);
        lemma_line_end_bound(t);
        lemma_line_end_prefix(t);
        lemma_line_end_is_break(t);
        if k < t.len() {
            let rest = t.skip(k + 1int);
            let ro = lemma_rows_are_lines(rest);
            let d = k + 1;
            let offs = seq![0int] + ro.map_values(|o: int| o + d);
            let first = strip_cr(t.take(k as int));
            assert(text_lines(t) == seq![first] + text_lines(rest));
            assert forall|r: int| 0 <= r < offs.len() implies is_line_at(
                t,
                text_lines(t)[r],
                #[trigger] offs[r],
            ) by {
                if r == 0 {
                    assert(text_lines(t)[0] == first);
                    assert(t.subrange(0, first.len() as int) =~= first);
                } else {
                    let row = text_lines(rest)[r - 1];
                    assert(text_lines(t)[r] == row);
                    let o = ro[r - 1];
                    assert(is_line_at(rest, row, o));
                    assert(offs[r] == o + d);
                    assert(t.subrange(o + d, o + d + row.len()) =~= rest.subrange(
                        o,
                        o + row.len(),
                    ));
                    if o > 0 {
                        assert(t[o + d - 1] == rest[o - 1]);
                    }
                    let e = o + row.len();
                    if e < rest.len() {
                        assert(t[e + d] == rest[e]);
                        if e + 1 < rest.len() {
                            assert(t[e + d + 1] == rest[e + 1]);
                        }
                    }
                }
            }
            assert forall|r1: int, r2: int| 0 <= r1 < r2 < offs.len() implies offs[r1]
                < offs[r2] by {
                if r1 > 0 {
                    assert(ro[r1 - 1] < ro[r2 - 1]);
                } else {
                    assert(is_line_at(rest, text_lines(rest)[r2 - 1], ro[r2 - 1]));
                }
            }
            offs
        } else {
            let offs = seq![0int];
            assert(t.subrange(0, t.len() as int) =~= t);
            offs
        }
    }
}

/// The rows of a maze as sequences of cells.
pub open spec fn grid(maze: &Vec<Vec<char>>) -> Seq<Seq<char>> {
    maze@.map_values(|row: Vec<char>| row@)
}

/// Cell (j, i), row j and column i, holds the goal.
pub open spec fn is_goal(maze: Seq<Seq<char>>, j: int, i: int) -> bool {
    0 <= j < maze.len() && 0 <= i < maze[j].len() && maze[j][i] == 'g'
}

pub open spec fn has_goal(maze: Seq<Seq<char>>) -> bool {
    exists|j: int, i: int| is_goal(maze, j, i)
}

/// Cell (j, i) is the goal that comes last in reading order.
pub open spec fn is_last_goal(maze: Seq<Seq<char>>, j: int, i: int) -> bool {
    &&& is_goal(maze, j, i)
    &&& forall|j2: int, i2: int| #[trigger]
        is_goal(maze, j2, i2) ==> j2 < j || (j2 == j && i2 <= i)
}

/// World position of the centre of cell (j, i), as (x, y).
pub open spec fn cell_center(j: int, i: int) -> (int, int) {
    (i * 100 + 50, j * 100 + 50)
}

/// The finish line of a maze: the centre of its last goal cell, or the
/// default position when it has none.
pub open spec fn finish_of(maze: Seq<Seq<char>>, finish: (u128, u128)) -> bool {
    if has_goal(maze) {
        exists|j: int, i: int|
            #[trigger] is_last_goal(maze, j, i) && finish.0 == cell_center(j, i).0 && finish.1
                == cell_center(j, i).1
    } else {
        finish == DEFAULT_FINISH
    }
}

/// Splits `text` into its lines, as `text_lines` describes.
fn split_lines(text: &Vec<char>) -> (rows: Vec<Vec<char>>)
    ensures
        grid(&rows) == text_lines(text@),
{
    let n = text.len();
    let mut rows: Vec<Vec<char>> = Vec::new();
    let mut cur: Vec<char> = Vec::new();
    let mut s: usize = 0;
    let mut i: usize = 0;
    assert(text@.skip(0) =~= text@);
    assert(grid(&rows) + text_lines(text@) =~= text_lines(text@));
    while i < n
        invariant
            n == text@.len(),
            s <= i <= n,
            cur@ == text@.subrange(s as int, i as int),
            forall|j: int| s <= j < i ==> text@[j] != '\n',
            text_lines(text@) == grid(&rows) + text_lines(text@.skip(s as int)),
        decreases n - i,
    {
        let ch = text[i];
        if ch == '\n' {
            proof {
                let rest = text@.skip(s as int);
                lemma_line_end_at(rest, i - s);
                assert(rest.take(i - s) =~= cur@);
                assert(rest.skip(i - s + 1) =~= text@.skip(i + 1));
            }
            let ghost before = grid(&rows);
            let len = cur.len();
            if len > 0 && cur[len - 1] == '\r' {
                cur.pop();
            }
            let ghost line = cur@;
            assert(line == strip_cr(text@.subrange(s as int, i as int)));
            rows.push(cur);
            proof {
                assert(grid(&rows) =~= before.push(line));
                assert(before.push(line) =~= before + seq![line]);
            }
            cur = Vec::new();
            s = i + 1;
            assert(cur@ =~= text@.subrange(s as int, (i + 1) as int));
        } else {
            cur.push(ch);
            assert(cur@ =~= text@.subrange(s as int, (i + 1) as int));
        }
        i = i + 1;
    }
    let ghost rest = text@.skip(s as int);
    if s < n {
        proof {
            lemma_line_end_none(rest);
            assert(rest =~= cur@);
        }
        let ghost before = grid(&rows);
        rows.push(cur);
        proof {
            assert(grid(&rows) =~= before + seq![rest]);
        }
    } else {
        assert(rest.len() == 0);
        assert(grid(&rows) =~= grid(&rows) + text_lines(rest));
    }
    rows
}

/// Finds the finish line of `maze`, as `finish_of` describes.
fn find_finish(maze: &Vec<Vec<char>>) -> (finish: (u128, u128))
    ensures
        finish_of(grid(maze), finish),
{
    let ghost m = grid(maze);
    let mut found: Option<(usize, usize)> = None;
    let n_rows = maze.len();
    let mut j: usize = 0;
    while j < n_rows
        invariant
            n_rows == m.len(),
            m == grid(maze),
            j <= n_rows,
            found is None ==> forall|j2: int, i2: int| is_goal(m, j2, i2) ==> j2 >= j,
            found matches Some(f) ==> {
                &&& is_goal(m, f.0 as int, f.1 as int)
                &&& forall|j2: int, i2: int|
                    is_goal(m, j2, i2) && j2 < j ==> j2 < f.0 || (j2 == f.0 && i2 <= f.1)
                &&& f.0 < j
            },
        decreases n_rows - j,
    {
        let row = &maze[j];
        assert(row@ == m[j as int]);
        let n_cols = row.len();
        let mut i: usize = 0;
        while i < n_cols
            invariant
                n_rows == m.len(),
                m == grid(maze),
                j < n_rows,
                n_cols == m[j as int].len(),
                row@ == m[j as int],
                i <= n_cols,
                found is None ==> forall|j2: int, i2: int|
                    is_goal(m, j2, i2) ==> j2 > j || (j2 == j && i2 >= i),
                found matches Some(f) ==> {
                    &&& is_goal(m, f.0 as int, f.1 as int)
                    &&& forall|j2: int, i2: int|
                        is_goal(m, j2, i2) && (j2 < j || (j2 == j && i2 < i)) ==> j2 < f.0 || (
                        j2 == f.0 && i2 <= f.1)
                    &&& f.0 < j || (f.0 == j && f.1 < i)
                },
            decreases n_cols - i,
        {
            if row[i] == 'g' {
                found = Some((j, i));
            }
            i = i + 1;
        }
        j = j + 1;
    }
    match found {
        Some(f) => {
            let x: u128 = f.1 as u128 * 100 + 50;
            let y: u128 = f.0 as u128 * 100 + 50;
            proof {
                assert(is_last_goal(m, f.0 as int, f.1 as int));
            }
            (x, y)
        },
        None => {
            proof {
                assert(!has_goal(m));
            }
            DEFAULT_FINISH
        },
    }
}

/// Reads a maze from the text of a maze file: one row of cells per line,
/// and the finish line at the centre of the last goal cell ('g') in reading
/// order, or at the default position when there is none.
pub fn load_maze(text: &Vec<char>) -> (res: (Vec<Vec<char>>, (u128, u128)))
    ensures
        grid(&res.0) == text_lines(text@),
        finish_of(grid(&res.0), res.1),
        exists|offs: Seq<int>| #[trigger] lines_at(text@, grid(&res.0), offs),
        res.0@.len() == breaks(text@) + if text@.len() > 0 && text@.last() != '\n' {
            1nat
        } else {
            0nat
        },
{
    let maze = split_lines(text);
    let finish = find_finish(&maze);
    proof {
        let offs = lemma_rows_are_lines(text@);
        lemma_line_count(text@);
        assert(lines_at(text@, grid(&maze), offs));
    }
    (maze, finish)
}

/// Characters that block movement. The goal is not one of them.
pub open spec fn is_wall_cell(cell: char) -> bool {
    cell == '+' || cell == '-' || cell == '|'
}

/// Whether world position (x, y) is blocked: it lies in a wall cell, or
/// outside the maze.
pub open spec fn blocked(maze: Seq<Seq<char>>, x: int, y: int) -> bool {
    let i = x / 100;
    let j = y / 100;
    if j < maze.len() && i < maze[j].len() {
        is_wall_cell(maze[j][i])
    } else {
        true
    }
}

/// The goal never blocks: a position in the goal cell is free.
pub proof fn lemma_goal_is_free(maze: Seq<Seq<char>>, x: int, y: int)
    requires
        0 <= x,
        0 <= y,
        is_goal(maze, y / 100, x / 100),
    ensures
        !blocked(maze, x, y),
{
}

/// A position inside the maze is blocked exactly when its cell is one of the
/// wall characters '+', '-' and '|' (so floor ' ' and the goal 'g' are free),
/// and every position outside the maze is blocked.
pub proof fn lemma_blocked_cells(maze: Seq<Seq<char>>, x: int, y: int)
    requires
        0 <= x,
        0 <= y,
    ensures
        (y / 100 < maze.len() && x / 100 < maze[y / 100].len()) ==> (blocked(maze, x, y) <==> (
        maze[y / 100][x / 100] == '+' || maze[y / 100][x / 100] == '-' || maze[y / 100][x / 100]
            == '|')),
        !(y / 100 < maze.len() && x / 100 < maze[y / 100].len()) ==> blocked(maze, x, y),
{
}

/// Whether world position (x, y) is blocked; positions outside the maze
/// are.
pub fn is_wall(maze: &Vec<Vec<char>>, x: usize, y: usize) -> (wall: bool)
    ensures
        wall == blocked(grid(maze), x as int, y as int),
        (y / 100 < maze@.len() && x / 100 < maze@[(y / 100) as int]@.len()) ==> (wall <==> (
        maze@[(y / 100) as int]@[(x / 100) as int] == '+' || maze@[(y / 100) as int]@[(x / 100) as int]
            == '-' || maze@[(y / 100) as int]@[(x / 100) as int] == '|')),
        !(y / 100 < maze@.len() && x / 100 < maze@[(y / 100) as int]@.len()) ==> wall,
{
    let i = x / CELL_SIZE;
    let j = y / CELL_SIZE;
    if j >= maze.len() || i >= maze[j].len() {
        return true;
    }
    let cell = maze[j][i];
    cell == '+' || cell == '-' || cell == '|'
}

} // verus!
