//! Maze cells and the minimap, drawn into a framebuffer.

use vstd::prelude::*;

use crate::framebuffer::{
    in_rect, lemma_fill_empty, lemma_fill_rect_pixels, lemma_fill_union, lemma_pixel_is_fill,
    lemma_set_color_reads_back,
    Framebuffer, FramebufferView,
};
use crate::maze::grid;
use crate::line::{
    draw_line, lemma_line_shape, lemma_with_points_covers, lemma_with_points_shape, line_points,
    same_order,
};

verus! {

/// Colour of a floor cell on the minimap.
pub const FLOOR_CELL_COLOR: u32 = 0x717171;

/// Colour of anything that is neither a wall nor textured.
pub const UNTEXTURED_COLOR: u32 = 0x000000;

/// Backdrop behind the minimap's cells.
pub const MINIMAP_BACKGROUND: u32 = 0x80000000;

/// Minimap marker of the player.
pub const PLAYER_MARKER: u32 = 0x00A6FF;

/// Minimap marker of a monster.
pub const MONSTER_MARKER: u32 = 0xFF0000;

/// Minimap marker of the finish line.
pub const FINISH_MARKER: u32 = 0x00FF00;

/// Colour of the player's view direction on the minimap.
pub const VIEW_DIRECTION_COLOR: u32 = 0xFFFF00;

/// Cells drawn with the wall texture: the three wall characters and the goal.
pub open spec fn is_textured_cell(cell: char) -> bool {
    cell == '+' || cell == '-' || cell == '|' || cell == 'g'
}

fn textured_cell(cell: char) -> (b: bool)
    ensures
        b == is_textured_cell(cell),
{
    cell == '+' || cell == '-' || cell == '|' || cell == 'g'
}

/// Colour of a wall column pixel: `wall_texel`, the wall texture's colour at
/// the texture coordinates being drawn, for textured cells; black otherwise.
pub fn cell_to_texture_color(cell: char, wall_texel: u32) -> (color: u32)
    ensures
        color == (if is_textured_cell(cell) { wall_texel } else { UNTEXTURED_COLOR }),
{
    if textured_cell(cell) {
        wall_texel
    } else {
        UNTEXTURED_COLOR
    }
}

/// Minimap colour of a cell, given the wall texture's colour at its origin.
pub open spec fn minimap_cell_color(cell: char, wall_color: u32) -> u32 {
    if is_textured_cell(cell) {
        wall_color
    } else {
        FLOOR_CELL_COLOR
    }
}

/// The picture after a block is painted pixel by pixel, setting the drawing
/// colour before each pixel: the `w` x `h` rectangle at (x, y) in `color`,
/// which also becomes the drawing colour unless the rectangle is empty.
pub open spec fn block_painted(
    v: FramebufferView,
    x: int,
    y: int,
    w: int,
    h: int,
    color: u32,
) -> FramebufferView {
    let filled = v.fill_rect(x, y, w, h, color);
    if w > 0 && h > 0 {
        filled.with_current_color(color)
    } else {
        filled
    }
}

/// The picture after `draw_cell`: the `block_size` square at (xo, yo) in the
/// cell's colour.
pub open spec fn cell_drawn(
    v: FramebufferView,
    xo: int,
    yo: int,
    block_size: int,
    cell: char,
    wall_color: u32,
) -> FramebufferView {
    block_painted(v, xo, yo, block_size, block_size, minimap_cell_color(cell, wall_color))
}

/// Paints the `w` x `h` rectangle at (x0, y0) column by column, setting the
/// drawing colour to `color` before each pixel.
fn paint_block(framebuffer: &mut Framebuffer, x0: usize, y0: usize, w: usize, h: usize, color: u32)
    requires
        old(framebuffer)@.wf(),
        x0 + w <= usize::MAX,
        w > 0 ==> y0 + h <= usize::MAX,
    ensures
        final(framebuffer)@.wf(),
        final(framebuffer)@ == block_painted(
            old(framebuffer)@,
            x0 as int,
            y0 as int,
            w as int,
            h as int,
            color,
        ),
{
    let ghost orig = framebuffer@;
    let ghost hh = h as int;
    proof {
        lemma_fill_empty(orig, x0 as int, y0 as int, 0, hh, color);
    }
    let end_x = x0 + w;
    for x in x0..end_x
        invariant
            framebuffer@.wf(),
            orig.wf(),
            orig == old(framebuffer)@,
            hh == h,
            end_x == x0 + w,
            w > 0 ==> y0 + h <= usize::MAX,
            framebuffer@ == (if x == x0 || h == 0 {
                orig.fill_rect(x0 as int, y0 as int, x - x0, hh, color)
            } else {
                orig.fill_rect(x0 as int, y0 as int, x - x0, hh, color).with_current_color(color)
            }),
    {
        let ghost col_start = orig.fill_rect(x0 as int, y0 as int, x - x0, hh, color);
        let ghost start_color = framebuffer@.current_color;
        proof {
            lemma_fill_empty(col_start, x as int, y0 as int, 1, 0, color);
        }
        let end_y = y0 + h;
        for y in y0..end_y
            invariant
                framebuffer@.wf(),
                orig.wf(),
                x0 <= x < end_x,
                end_x == x0 + w,
                end_y == y0 + h,
                hh == h,
                col_start == orig.fill_rect(x0 as int, y0 as int, x - x0, hh, color),
                framebuffer@.buffer == col_start.fill_rect(
                    x as int,
                    y0 as int,
                    1,
                    y - y0,
                    color,
                ).buffer,
                framebuffer@.width == orig.width,
                framebuffer@.height == orig.height,
                framebuffer@.current_color == (if y == y0 {
                    start_color
                } else {
                    color
                }),
        {
            framebuffer.set_current_color(color);
            proof {
                let cur = col_start.fill_rect(x as int, y0 as int, 1, y - y0, color);
                lemma_pixel_is_fill(cur, x as int, y as int, color);
                lemma_fill_union(
                    col_start,
                    x as int,
                    y0 as int,
                    1,
                    y - y0,
                    x as int,
                    y as int,
                    1,
                    1,
                    x as int,
                    y0 as int,
                    1,
                    y + 1 - y0,
                    color,
                );
            }
            framebuffer.point(x, y);
        }
        proof {
            lemma_fill_union(
                orig,
                x0 as int,
                y0 as int,
                x - x0,
                hh,
                x as int,
                y0 as int,
                1,
                hh,
                x0 as int,
                y0 as int,
                x + 1 - x0,
                hh,
                color,
            );
        }
    }
}

/// Draws one maze cell as a `block_size` square whose top-left corner is
/// (xo, yo), column by column. `wall_color` is the wall texture's colour at
/// its origin.
pub fn draw_cell(
    framebuffer: &mut Framebuffer,
    xo: usize,
    yo: usize,
    block_size: usize,
    cell: char,
    wall_color: u32,
)
    requires
        old(framebuffer)@.wf(),
        xo + block_size <= usize::MAX,
        block_size > 0 ==> yo + block_size <= usize::MAX,
    ensures
        final(framebuffer)@.wf(),
        final(framebuffer)@ == cell_drawn(
            old(framebuffer)@,
            xo as int,
            yo as int,
            block_size as int,
            cell,
            wall_color,
        ),
        forall|px: int, py: int|
            old(framebuffer)@.in_bounds(px, py) ==> #[trigger] final(framebuffer)@.pixel(px, py)
                == if xo <= px < xo + block_size && yo <= py < yo + block_size {
                if cell == '+' || cell == '-' || cell == '|' || cell == 'g' {
                    wall_color
                } else {
                    0x717171
                }
            } else {
                old(framebuffer)@.pixel(px, py)
            },
{
    let color = if textured_cell(cell) {
        wall_color
    } else {
        FLOOR_CELL_COLOR
    };
    paint_block(framebuffer, xo, yo, block_size, block_size, color);
    proof {
        let v = old(framebuffer)@;
        let r = cell_drawn(v, xo as int, yo as int, block_size as int, cell, wall_color);
        lemma_cell_colors(v, xo as int, yo as int, block_size as int, cell, wall_color);
        assert forall|px: int, py: int| v.in_bounds(px, py) implies #[trigger] framebuffer@.pixel(
            px,
            py,
        ) == r.pixel(px, py) by {}
    }
}

/// A drawn cell is a square of the wall colour for the wall characters '+',
/// '-', '|' and the goal 'g', and of the floor colour for any other cell; the
/// pixels outside its square keep their colour.
pub proof fn lemma_cell_colors(
    v: FramebufferView,
    xo: int,
    yo: int,
    block_size: int,
    cell: char,
    wall_color: u32,
)
    requires
        v.wf(),
    ensures
        forall|px: int, py: int|
            v.in_bounds(px, py) ==> #[trigger] cell_drawn(
                v,
                xo,
                yo,
                block_size,
                cell,
                wall_color,
            ).pixel(px, py) == if xo <= px < xo + block_size && yo <= py < yo + block_size {
                if cell == '+' || cell == '-' || cell == '|' || cell == 'g' {
                    wall_color
                } else {
                    0x717171
                }
            } else {
                v.pixel(px, py)
            },
{
    lemma_cell_drawn_pixels(v, xo, yo, block_size, cell, wall_color);
}

/// The picture after the cells of `row` are drawn left to right, the row's
/// top-left corner being (xo, yo).
pub open spec fn row_cells_drawn(
    v: FramebufferView,
    row: Seq<char>,
    xo: int,
    yo: int,
    block_size: int,
    wall_color: u32,
) -> FramebufferView
    decreases row.len(),
{
    if row.len() == 0 {
        v
    } else {
        let i = row.len() - 1;
        cell_drawn(
            row_cells_drawn(v, row.drop_last(), xo, yo, block_size, wall_color),
            xo + i * block_size,
            yo,
            block_size,
            row.last(),
            wall_color,
        )
    }
}

/// The picture after the rows of `rows` are drawn top to bottom, the first
/// row's top-left corner being (xo, yo).
pub open spec fn maze_cells_drawn(
    v: FramebufferView,
    rows: Seq<Seq<char>>,
    xo: int,
    yo: int,
    block_size: int,
    wall_color: u32,
) -> FramebufferView
    decreases rows.len(),
{
    if rows.len() == 0 {
        v
    } else {
        let j = rows.len() - 1;
        row_cells_drawn(
            maze_cells_drawn(v, rows.drop_last(), xo, yo, block_size, wall_color),
            rows.last(),
            xo,
            yo + j * block_size,
            block_size,
            wall_color,
        )
    }
}

/// The picture after a point is drawn in `color`, which becomes the drawing
/// colour.
pub open spec fn marker_drawn(v: FramebufferView, x: int, y: int, color: u32) -> FramebufferView {
    v.with_current_color(color).with_pixel(x, y, color)
}

/// The picture after one monster marker per position in `monsters` (relative
/// to (xo, yo)) is drawn, in order.
pub open spec fn monsters_drawn(
    v: FramebufferView,
    xo: int,
    yo: int,
    monsters: Seq<(usize, usize)>,
) -> FramebufferView
    decreases monsters.len(),
{
    if monsters.len() == 0 {
        v
    } else {
        let m = monsters.last();
        marker_drawn(
            monsters_drawn(v, xo, yo, monsters.drop_last()),
            xo + m.0,
            yo + m.1,
            MONSTER_MARKER,
        )
    }
}

/// Everything `render_minimap` draws, in order: the backdrop, the maze cells,
/// the player, the monsters, the finish line and the view direction.
pub open spec fn minimap_drawn(
    v: FramebufferView,
    maze: Seq<Seq<char>>,
    minimap_x: int,
    minimap_y: int,
    block_size: int,
    wall_color: u32,
    player: (usize, usize),
    monsters: Seq<(usize, usize)>,
    finish: (usize, usize),
    view: (usize, usize),
) -> FramebufferView {
    let backdrop = block_painted(
        v,
        minimap_x,
        minimap_y,
        maze[0].len() * block_size,
        maze.len() * block_size,
        MINIMAP_BACKGROUND,
    );
    let cells = maze_cells_drawn(backdrop, maze, minimap_x, minimap_y, block_size, wall_color);
    let px = minimap_x + player.0;
    let py = minimap_y + player.1;
    let with_player = marker_drawn(cells, px, py, PLAYER_MARKER);
    let with_monsters = monsters_drawn(with_player, minimap_x, minimap_y, monsters);
    let with_finish = marker_drawn(
        with_monsters,
        minimap_x + finish.0,
        minimap_y + finish.1,
        FINISH_MARKER,
    );
    with_finish.with_current_color(VIEW_DIRECTION_COLOR).with_points(
        line_points(px as usize, py as usize, (px + view.0) as usize, (py + view.1) as usize),
        VIEW_DIRECTION_COLOR,
    )
}

/// The coordinates the minimap computes for the maze fit in `usize`: the
/// right edge of every row, the bottom edge of every row that has cells, and
/// the bottom of the backdrop when it is not empty.
pub open spec fn maze_fits(maze: Seq<Seq<char>>, xo: int, yo: int, block_size: int) -> bool {
    &&& forall|j: int|
        0 <= j < maze.len() ==> xo + #[trigger] maze[j].len() * block_size <= usize::MAX
    &&& forall|j: int|
        0 <= j < maze.len() && #[trigger] maze[j].len() > 0 ==> yo + (j + 1) * block_size
            <= usize::MAX
    &&& maze[0].len() * block_size > 0 ==> yo + maze.len() * block_size <= usize::MAX
}

/// Draws the minimap whose top-left corner is (minimap_x, minimap_y): a
/// backdrop, each maze cell as a `block_size` square, markers for the player,
/// the monsters and the finish line, and a line from the player towards
/// where it looks. `player`, `monsters` and `finish` are positions on the
/// minimap relative to its corner; `view` is the offset of the end of the view
/// line from the player; `wall_color` is the wall texture's colour at its
/// origin.
pub fn render_minimap(
    framebuffer: &mut Framebuffer,
    maze: &Vec<Vec<char>>,
    minimap_x: usize,
    minimap_y: usize,
    block_size: usize,
    wall_color: u32,
    player: (usize, usize),
    monsters: &Vec<(usize, usize)>,
    finish: (usize, usize),
    view: (usize, usize),
)
    requires
        old(framebuffer)@.wf(),
        maze@.len() > 0,
        maze_fits(grid(maze), minimap_x as int, minimap_y as int, block_size as int),
        minimap_x + player.0 + view.0 <= usize::MAX,
        minimap_y + player.1 + view.1 <= usize::MAX,
        minimap_x + finish.0 <= usize::MAX,
        minimap_y + finish.1 <= usize::MAX,
        forall|k: int|
            0 <= k < monsters@.len() ==> minimap_x + (#[trigger] monsters@[k]).0 <= usize::MAX
                && minimap_y + monsters@[k].1 <= usize::MAX,
        same_order((minimap_x + player.0) as usize, (minimap_x + player.0 + view.0) as usize),
        same_order((minimap_y + player.1) as usize, (minimap_y + player.1 + view.1) as usize),
    ensures
        final(framebuffer)@.wf(),
        final(framebuffer)@ == minimap_drawn(
            old(framebuffer)@,
            grid(maze),
            minimap_x as int,
            minimap_y as int,
            block_size as int,
            wall_color,
            player,
            monsters@,
            finish,
            view,
        ),
        forall|k: int|
            0 <= k < monsters@.len() && old(framebuffer)@.in_bounds(
                minimap_x + (#[trigger] monsters@[k]).0,
                minimap_y + monsters@[k].1,
            ) && (minimap_x + monsters@[k].0, minimap_y + monsters@[k].1) != (minimap_x
                + finish.0, minimap_y + finish.1) && !drawn_at(
                view_line(minimap_x as int, minimap_y as int, player, view),
                (minimap_x + monsters@[k].0, minimap_y + monsters@[k].1),
            ) ==> final(framebuffer)@.pixel(minimap_x + monsters@[k].0, minimap_y + monsters@[k].1)
                == MONSTER_MARKER,
        old(framebuffer)@.in_bounds(minimap_x + finish.0, minimap_y + finish.1) && !drawn_at(
            view_line(minimap_x as int, minimap_y as int, player, view),
            (minimap_x + finish.0, minimap_y + finish.1),
        ) ==> final(framebuffer)@.pixel(minimap_x + finish.0, minimap_y + finish.1)
            == FINISH_MARKER,
        minimap_x + player.0 + view.0 <= i32::MAX && minimap_y + player.1 + view.1 <= i32::MAX
            ==> {
            &&& old(framebuffer)@.in_bounds(minimap_x + player.0, minimap_y + player.1)
                ==> final(framebuffer)@.pixel(minimap_x + player.0, minimap_y + player.1)
                == VIEW_DIRECTION_COLOR
            &&& old(framebuffer)@.in_bounds(
                minimap_x + player.0 + view.0,
                minimap_y + player.1 + view.1,
            ) ==> final(framebuffer)@.pixel(
                minimap_x + player.0 + view.0,
                minimap_y + player.1 + view.1,
            ) == VIEW_DIRECTION_COLOR
        },
{
    let ghost rows = grid(maze);
    let ghost orig = framebuffer@;
    let bs = block_size;
    proof {
        assert(rows[0].len() == maze@[0]@.len());
        assert(minimap_x + rows[0].len() * bs <= usize::MAX);
        vstd::arithmetic::mul::lemma_mul_nonnegative(rows[0].len() as int, bs as int);
        vstd::arithmetic::mul::lemma_mul_nonnegative(rows.len() as int, bs as int);
    }
    let width = maze[0].len() * bs;
    let height = if width > 0 {
        maze.len() * bs
    } else {
        0
    };
    paint_block(framebuffer, minimap_x, minimap_y, width, height, MINIMAP_BACKGROUND);
    let ghost backdrop = framebuffer@;
    proof {
        if width == 0 {
            lemma_fill_empty(orig, minimap_x as int, minimap_y as int, 0, 0, MINIMAP_BACKGROUND);
            lemma_fill_empty(
                orig,
                minimap_x as int,
                minimap_y as int,
                0,
                rows.len() * bs,
                MINIMAP_BACKGROUND,
            );
        }
        assert(backdrop == block_painted(
            orig,
            minimap_x as int,
            minimap_y as int,
            rows[0].len() * bs,
            rows.len() * bs,
            MINIMAP_BACKGROUND,
        ));
    }

    let n_rows = maze.len();
    let mut j: usize = 0;
    while j < n_rows
        invariant
            framebuffer@.wf(),
            n_rows == maze@.len(),
            rows == grid(maze),
            j <= n_rows,
            maze_fits(rows, minimap_x as int, minimap_y as int, bs as int),
            framebuffer@ == maze_cells_drawn(
                backdrop,
                rows.take(j as int),
                minimap_x as int,
                minimap_y as int,
                bs as int,
                wall_color,
            ),
        decreases n_rows - j,
    {
        let row = &maze[j];
        let n_cols = row.len();
        let ghost row_start = framebuffer@;
        proof {
            assert(rows[j as int] == row@);
            assert(minimap_x + n_cols * bs <= usize::MAX);
        }
        if n_cols > 0 {
            proof {
                assert(minimap_y + (j + 1) * bs <= usize::MAX);
                vstd::arithmetic::mul::lemma_mul_is_distributive_add_other_way(
                    bs as int,
                    j as int,
                    1,
                );
                vstd::arithmetic::mul::lemma_mul_nonnegative(j as int, bs as int);
            }
            let yo = minimap_y + j * bs;
            let mut i: usize = 0;
            while i < n_cols
                invariant
                    framebuffer@.wf(),
                    n_cols == row@.len(),
                    i <= n_cols,
                    minimap_x + n_cols * bs <= usize::MAX,
                    yo + bs <= usize::MAX,
                    yo == minimap_y + j * bs,
                    framebuffer@ == row_cells_drawn(
                        row_start,
                        row@.take(i as int),
                        minimap_x as int,
                        yo as int,
                        bs as int,
                        wall_color,
                    ),
                decreases n_cols - i,
            {
                proof {
                    vstd::arithmetic::mul::lemma_mul_inequality(
                        i as int + 1,
                        n_cols as int,
                        bs as int,
                    );
                    vstd::arithmetic::mul::lemma_mul_is_distributive_add_other_way(
                        bs as int,
                        i as int,
                        1,
                    );
                    vstd::arithmetic::mul::lemma_mul_nonnegative(i as int, bs as int);
                }
                let xo = minimap_x + i * bs;
                draw_cell(framebuffer, xo, yo, bs, row[i], wall_color);
                proof {
                    let t = row@.take(i + 1);
                    assert(t.drop_last() =~= row@.take(i as int));
                    assert(t.last() == row@[i as int]);
                }
                i = i + 1;
            }
            proof {
                assert(row@.take(n_cols as int) =~= row@);
            }
        } else {
            assert(row@ =~= seq![]);
        }
        proof {
            let t = rows.take(j + 1);
            assert(t.drop_last() =~= rows.take(j as int));
            assert(t.last() == rows[j as int]);
        }
        j = j + 1;
    }
    proof {
        assert(rows.take(n_rows as int) =~= rows);
    }

    let player_x = minimap_x + player.0;
    let player_y = minimap_y + player.1;
    framebuffer.set_current_color(PLAYER_MARKER);
    framebuffer.point(player_x, player_y);

    let ghost with_player = framebuffer@;
    let n_monsters = monsters.len();
    let mut k: usize = 0;
    while k < n_monsters
        invariant
            framebuffer@.wf(),
            n_monsters == monsters@.len(),
            k <= n_monsters,
            forall|k: int|
                0 <= k < monsters@.len() ==> minimap_x + (#[trigger] monsters@[k]).0
                    <= usize::MAX && minimap_y + monsters@[k].1 <= usize::MAX,
            framebuffer@ == monsters_drawn(
                with_player,
                minimap_x as int,
                minimap_y as int,
                monsters@.take(k as int),
            ),
        decreases n_monsters - k,
    {
        let m = monsters[k];
        proof {
            assert(monsters@[k as int] == m);
        }
        framebuffer.set_current_color(MONSTER_MARKER);
        framebuffer.point(minimap_x + m.0, minimap_y + m.1);
        proof {
            let t = monsters@.take(k + 1);
            assert(t.drop_last() =~= monsters@.take(k as int));
            assert(t.last() == m);
        }
        k = k + 1;
    }
    proof {
        assert(monsters@.take(n_monsters as int) =~= monsters@);
    }

    framebuffer.set_current_color(FINISH_MARKER);
    framebuffer.point(minimap_x + finish.0, minimap_y + finish.1);

    let view_x = player_x + view.0;
    let view_y = player_y + view.1;
    framebuffer.set_current_color(VIEW_DIRECTION_COLOR);
    draw_line(framebuffer, player_x, player_y, view_x, view_y);
    proof {
        assert forall|k: int|
            0 <= k < monsters@.len() && orig.in_bounds(
                minimap_x + (#[trigger] monsters@[k]).0,
                minimap_y + monsters@[k].1,
            ) && (minimap_x + monsters@[k].0, minimap_y + monsters@[k].1) != (minimap_x
                + finish.0, minimap_y + finish.1) && !drawn_at(
                view_line(minimap_x as int, minimap_y as int, player, view),
                (minimap_x + monsters@[k].0, minimap_y + monsters@[k].1),
            ) implies framebuffer@.pixel(minimap_x + monsters@[k].0, minimap_y + monsters@[k].1)
            == MONSTER_MARKER by {
            lemma_minimap_marks_monsters(
                orig,
                rows,
                minimap_x as int,
                minimap_y as int,
                bs as int,
                wall_color,
                player,
                monsters@,
                finish,
                view,
                k,
            );
        }
        if orig.in_bounds(minimap_x + finish.0, minimap_y + finish.1) && !drawn_at(
            view_line(minimap_x as int, minimap_y as int, player, view),
            (minimap_x + finish.0, minimap_y + finish.1),
        ) {
            lemma_minimap_marks_finish(
                orig,
                rows,
                minimap_x as int,
                minimap_y as int,
                bs as int,
                wall_color,
                player,
                monsters@,
                finish,
                view,
            );
        }
        if minimap_x + player.0 + view.0 <= i32::MAX && minimap_y + player.1 + view.1 <= i32::MAX {
            if orig.in_bounds(minimap_x + player.0, minimap_y + player.1) {
                lemma_minimap_marks_player(
                    orig,
                    rows,
                    minimap_x as int,
                    minimap_y as int,
                    bs as int,
                    wall_color,
                    player,
                    monsters@,
                    finish,
                    view,
                );
            }
            if orig.in_bounds(minimap_x + player.0 + view.0, minimap_y + player.1 + view.1) {
                lemma_minimap_view_reaches_end(
                    orig,
                    rows,
                    minimap_x as int,
                    minimap_y as int,
                    bs as int,
                    wall_color,
                    player,
                    monsters@,
                    finish,
                    view,
                );
            }
        }
    }
}

/// The maze cell whose square covers pixel (px, py) when the cells are drawn
/// as `block_size` squares from (xo, yo), if any.
pub open spec fn cell_under(
    rows: Seq<Seq<char>>,
    xo: int,
    yo: int,
    block_size: int,
    px: int,
    py: int,
) -> Option<char> {
    if block_size > 0 && px >= xo && py >= yo {
        let i = (px - xo) / block_size;
        let j = (py - yo) / block_size;
        if j < rows.len() && i < rows[j].len() {
            Some(rows[j][i])
        } else {
            None
        }
    } else {
        None
    }
}

/// Where a non-negative offset `d` falls among blocks of size `bs`.
proof fn lemma_block_of(d: int, bs: int, k: int)
    requires
        d >= 0,
        bs > 0,
    ensures
        (d / bs < k) <==> (d < k * bs),
        (d / bs == k) <==> (k * bs <= d < k * bs + bs),
{
    vstd::arithmetic::div_mod::lemma_fundamental_div_mod(d, bs);
    vstd::arithmetic::div_mod::lemma_mod_bound(d, bs);
    let q = d / bs;
    let r = d % bs;
    vstd::arithmetic::mul::lemma_mul_is_commutative(bs, q);
    if q < k {
        assert(q * bs + bs <= k * bs) by (nonlinear_arith)
            requires
                q < k,
                bs > 0,
        ;
    }
    if q > k {
        assert(k * bs + bs <= q * bs) by (nonlinear_arith)
            requires
                q > k,
                bs > 0,
        ;
    }
}

/// Drawing a cell keeps the picture's shape, and changes exactly the pixels
/// of its square.
proof fn lemma_cell_drawn_pixels(
    v: FramebufferView,
    xo: int,
    yo: int,
    block_size: int,
    cell: char,
    wall_color: u32,
)
    requires
        v.wf(),
    ensures
        ({
            let r = cell_drawn(v, xo, yo, block_size, cell, wall_color);
            &&& r.wf()
            &&& r.width == v.width
            &&& r.height == v.height
            &&& forall|px: int, py: int|
                v.in_bounds(px, py) ==> #[trigger] r.pixel(px, py) == (if in_rect(
                    px,
                    py,
                    xo,
                    yo,
                    block_size,
                    block_size,
                ) {
                    minimap_cell_color(cell, wall_color)
                } else {
                    v.pixel(px, py)
                })
        }),
{
    let color = minimap_cell_color(cell, wall_color);
    let f = v.fill_rect(xo, yo, block_size, block_size, color);
    lemma_fill_rect_pixels(v, xo, yo, block_size, block_size, color);
    let r = cell_drawn(v, xo, yo, block_size, cell, wall_color);
    assert(r.buffer == f.buffer);
    assert forall|px: int, py: int| v.in_bounds(px, py) implies #[trigger] r.pixel(px, py) == (
    if in_rect(px, py, xo, yo, block_size, block_size) {
        color
    } else {
        v.pixel(px, py)
    }) by {
        assert(r.pixel(px, py) == f.pixel(px, py));
    }
}

/// Drawing a row of cells gives each pixel under one of its squares the
/// colour of that cell and leaves every other pixel as it was.
proof fn lemma_row_cells_pixels(
    v: FramebufferView,
    row: Seq<char>,
    xo: int,
    yo: int,
    block_size: int,
    wall_color: u32,
)
    requires
        v.wf(),
    ensures
        ({
            let r = row_cells_drawn(v, row, xo, yo, block_size, wall_color);
            &&& r.wf()
            &&& r.width == v.width
            &&& r.height == v.height
            &&& forall|px: int, py: int|
                v.in_bounds(px, py) ==> #[trigger] r.pixel(px, py) == (if block_size > 0 && yo
                    <= py < yo + block_size && px >= xo && (px - xo) / block_size < row.len() {
                    minimap_cell_color(row[(px - xo) / block_size], wall_color)
                } else {
                    v.pixel(px, py)
                })
        }),
    decreases row.len(),
{
    if row.len() > 0 {
        let n = row.len() - 1;
        let prev = row_cells_drawn(v, row.drop_last(), xo, yo, block_size, wall_color);
        lemma_row_cells_pixels(v, row.drop_last(), xo, yo, block_size, wall_color);
        lemma_cell_drawn_pixels(prev, xo + n * block_size, yo, block_size, row.last(), wall_color);
        let r = row_cells_drawn(v, row, xo, yo, block_size, wall_color);
        assert forall|px: int, py: int| v.in_bounds(px, py) implies #[trigger] r.pixel(px, py) == (
        if block_size > 0 && yo <= py < yo + block_size && px >= xo && (px - xo) / block_size
            < row.len() {
            minimap_cell_color(row[(px - xo) / block_size], wall_color)
        } else {
            v.pixel(px, py)
        }) by {
            assert(prev.in_bounds(px, py));
            if block_size > 0 && px >= xo {
                lemma_block_of(px - xo, block_size, n);
                lemma_block_of(px - xo, block_size, n + 1);
                vstd::arithmetic::mul::lemma_mul_is_distributive_add_other_way(block_size, n, 1);
            } else if block_size > 0 {
                vstd::arithmetic::mul::lemma_mul_nonnegative(n, block_size);
            } else {
                assert(!in_rect(px, py, xo + n * block_size, yo, block_size, block_size));
            }
        }
    }
}

/// Drawing the cells of a maze gives each pixel under a cell's square the
/// colour of that cell, and leaves every other pixel as it was.
pub proof fn lemma_maze_cells_pixels(
    v: FramebufferView,
    rows: Seq<Seq<char>>,
    xo: int,
    yo: int,
    block_size: int,
    wall_color: u32,
)
    requires
        v.wf(),
    ensures
        ({
            let r = maze_cells_drawn(v, rows, xo, yo, block_size, wall_color);
            &&& r.wf()
            &&& r.width == v.width
            &&& r.height == v.height
            &&& forall|px: int, py: int|
                v.in_bounds(px, py) ==> #[trigger] r.pixel(px, py) == match cell_under(
                    rows,
                    xo,
                    yo,
                    block_size,
                    px,
                    py,
                ) {
                    Some(cell) => minimap_cell_color(cell, wall_color),
                    None => v.pixel(px, py),
                }
        }),
    decreases rows.len(),
{
    if rows.len() > 0 {
        let n = rows.len() - 1;
        let init = rows.drop_last();
        let prev = maze_cells_drawn(v, init, xo, yo, block_size, wall_color);
        lemma_maze_cells_pixels(v, init, xo, yo, block_size, wall_color);
        lemma_row_cells_pixels(prev, rows.last(), xo, yo + n * block_size, block_size, wall_color);
        let r = maze_cells_drawn(v, rows, xo, yo, block_size, wall_color);
        assert forall|px: int, py: int| v.in_bounds(px, py) implies #[trigger] r.pixel(px, py)
            == match cell_under(rows, xo, yo, block_size, px, py) {
            Some(cell) => minimap_cell_color(cell, wall_color),
            None => v.pixel(px, py),
        } by {
            assert(prev.in_bounds(px, py));
            if block_size > 0 && py >= yo {
                lemma_block_of(py - yo, block_size, n);
                lemma_block_of(py - yo, block_size, n + 1);
                vstd::arithmetic::mul::lemma_mul_is_distributive_add_other_way(block_size, n, 1);
                let j = (py - yo) / block_size;
                if j < n {
                    assert(rows[j] == init[j]);
                }
            } else if block_size > 0 {
                vstd::arithmetic::mul::lemma_mul_nonnegative(n, block_size);
            }
        }
    }
}

/// Drawing monster markers keeps the picture well formed and its size.
proof fn lemma_monsters_drawn_shape(v: FramebufferView, xo: int, yo: int, monsters: Seq<(usize, usize)>)
    requires
        v.wf(),
    ensures
        monsters_drawn(v, xo, yo, monsters).wf(),
        monsters_drawn(v, xo, yo, monsters).width == v.width,
        monsters_drawn(v, xo, yo, monsters).height == v.height,
    decreases monsters.len(),
{
    if monsters.len() > 0 {
        let m = monsters.last();
        let prev = monsters_drawn(v, xo, yo, monsters.drop_last());
        lemma_monsters_drawn_shape(v, xo, yo, monsters.drop_last());
        lemma_set_color_reads_back(prev.with_current_color(MONSTER_MARKER), xo + m.0, yo + m.1, MONSTER_MARKER);
    }
}

/// The minimap always shows where the player is: its view line starts at the
/// player and is drawn last, so the player's pixel ends up in the view
/// direction colour (when it lies in the picture and its coordinates fit in
/// 31 bits, as the line algorithm needs).
pub proof fn lemma_minimap_marks_player(
    v: FramebufferView,
    maze: Seq<Seq<char>>,
    minimap_x: int,
    minimap_y: int,
    block_size: int,
    wall_color: u32,
    player: (usize, usize),
    monsters: Seq<(usize, usize)>,
    finish: (usize, usize),
    view: (usize, usize),
)
    requires
        v.wf(),
        0 <= minimap_x,
        0 <= minimap_y,
        minimap_x + player.0 + view.0 <= i32::MAX,
        minimap_y + player.1 + view.1 <= i32::MAX,
        v.in_bounds(minimap_x + player.0, minimap_y + player.1),
    ensures
        minimap_drawn(
            v,
            maze,
            minimap_x,
            minimap_y,
            block_size,
            wall_color,
            player,
            monsters,
            finish,
            view,
        ).pixel(minimap_x + player.0, minimap_y + player.1) == VIEW_DIRECTION_COLOR,
{
    let px = minimap_x + player.0;
    let py = minimap_y + player.1;
    let backdrop = block_painted(
        v,
        minimap_x,
        minimap_y,
        maze[0].len() * block_size,
        maze.len() * block_size,
        MINIMAP_BACKGROUND,
    );
    lemma_fill_rect_pixels(
        v,
        minimap_x,
        minimap_y,
        maze[0].len() * block_size,
        maze.len() * block_size,
        MINIMAP_BACKGROUND,
    );
    let cells = maze_cells_drawn(backdrop, maze, minimap_x, minimap_y, block_size, wall_color);
    lemma_maze_cells_pixels(backdrop, maze, minimap_x, minimap_y, block_size, wall_color);
    let with_player = marker_drawn(cells, px, py, PLAYER_MARKER);
    lemma_set_color_reads_back(cells.with_current_color(PLAYER_MARKER), px, py, PLAYER_MARKER);
    let with_monsters = monsters_drawn(with_player, minimap_x, minimap_y, monsters);
    lemma_monsters_drawn_shape(with_player, minimap_x, minimap_y, monsters);
    let with_finish = marker_drawn(
        with_monsters,
        minimap_x + finish.0,
        minimap_y + finish.1,
        FINISH_MARKER,
    );
    lemma_set_color_reads_back(
        with_monsters.with_current_color(FINISH_MARKER),
        minimap_x + finish.0,
        minimap_y + finish.1,
        FINISH_MARKER,
    );
    let last = with_finish.with_current_color(VIEW_DIRECTION_COLOR);
    let x1 = px as usize;
    let y1 = py as usize;
    let x2 = (px + view.0) as usize;
    let y2 = (py + view.1) as usize;
    lemma_line_shape(x1, y1, x2, y2);
    let pts = line_points(x1, y1, x2, y2);
    assert(pts[0] == (px, py));
    lemma_with_points_covers(last, pts, VIEW_DIRECTION_COLOR, 0);
}

/// Some point of `pts`, converted to `usize` as the drawing does, falls on
/// pixel q.
pub open spec fn drawn_at(pts: Seq<(int, int)>, q: (int, int)) -> bool {
    exists|i: int|
        0 <= i < pts.len() && (((#[trigger] pts[i]).0 as usize) as int, (pts[i].1 as usize) as int)
            == q
}

/// Drawing points leaves every pixel that none of them falls on as it was.
proof fn lemma_with_points_elsewhere(v: FramebufferView, pts: Seq<(int, int)>, color: u32, q: (int, int))
    requires
        v.wf(),
        v.in_bounds(q.0, q.1),
        !drawn_at(pts, q),
    ensures
        v.with_points(pts, color).pixel(q.0, q.1) == v.pixel(q.0, q.1),
    decreases pts.len(),
{
    if pts.len() > 0 {
        let p = pts.last();
        let init = pts.drop_last();
        assert(!drawn_at(init, q)) by {
            if drawn_at(init, q) {
                let i = choose|i: int|
                    0 <= i < init.len() && (((#[trigger] init[i]).0 as usize) as int, (
                    init[i].1 as usize) as int) == q;
                assert(pts[i] == init[i]);
            }
        }
        lemma_with_points_elsewhere(v, init, color, q);
        lemma_with_points_shape(v, init, color);
        let before = v.with_points(init, color);
        lemma_set_color_reads_back(before, (p.0 as usize) as int, (p.1 as usize) as int, color);
        assert(pts[pts.len() - 1] == p);
        assert(((p.0 as usize) as int, (p.1 as usize) as int) != q);
    }
}

/// After the monster markers are drawn, every monster whose position lies in
/// the picture shows the monster marker.
proof fn lemma_monsters_marked(
    v: FramebufferView,
    xo: int,
    yo: int,
    monsters: Seq<(usize, usize)>,
    k: int,
)
    requires
        v.wf(),
        0 <= k < monsters.len(),
        v.in_bounds(xo + monsters[k].0, yo + monsters[k].1),
    ensures
        monsters_drawn(v, xo, yo, monsters).pixel(xo + monsters[k].0, yo + monsters[k].1)
            == MONSTER_MARKER,
    decreases monsters.len(),
{
    let m = monsters.last();
    let init = monsters.drop_last();
    let prev = monsters_drawn(v, xo, yo, init);
    lemma_monsters_drawn_shape(v, xo, yo, init);
    lemma_set_color_reads_back(prev.with_current_color(MONSTER_MARKER), xo + m.0, yo + m.1, MONSTER_MARKER);
    if k < monsters.len() - 1 {
        assert(init[k] == monsters[k]);
        lemma_monsters_marked(v, xo, yo, init, k);
    }
}

/// The points of the minimap's view line, from the player to the player
/// moved by the view offset.
pub open spec fn view_line(
    minimap_x: int,
    minimap_y: int,
    player: (usize, usize),
    view: (usize, usize),
) -> Seq<(int, int)> {
    line_points(
        (minimap_x + player.0) as usize,
        (minimap_y + player.1) as usize,
        (minimap_x + player.0 + view.0) as usize,
        (minimap_y + player.1 + view.1) as usize,
    )
}

/// Every monster shows on the minimap: its pixel holds the monster marker
/// unless the finish marker or the view line, drawn after the monsters, covers
/// it.
pub proof fn lemma_minimap_marks_monsters(
    v: FramebufferView,
    maze: Seq<Seq<char>>,
    minimap_x: int,
    minimap_y: int,
    block_size: int,
    wall_color: u32,
    player: (usize, usize),
    monsters: Seq<(usize, usize)>,
    finish: (usize, usize),
    view: (usize, usize),
    k: int,
)
    requires
        v.wf(),
        0 <= k < monsters.len(),
        v.in_bounds(minimap_x + monsters[k].0, minimap_y + monsters[k].1),
        (minimap_x + monsters[k].0, minimap_y + monsters[k].1) != (minimap_x + finish.0, minimap_y
            + finish.1),
        !drawn_at(
            view_line(minimap_x, minimap_y, player, view),
            (minimap_x + monsters[k].0, minimap_y + monsters[k].1),
        ),
    ensures
        minimap_drawn(
            v,
            maze,
            minimap_x,
            minimap_y,
            block_size,
            wall_color,
            player,
            monsters,
            finish,
            view,
        ).pixel(minimap_x + monsters[k].0, minimap_y + monsters[k].1) == MONSTER_MARKER,
{
    let q = (minimap_x + monsters[k].0, minimap_y + monsters[k].1);
    let px = minimap_x + player.0;
    let py = minimap_y + player.1;
    let backdrop = block_painted(
        v,
        minimap_x,
        minimap_y,
        maze[0].len() * block_size,
        maze.len() * block_size,
        MINIMAP_BACKGROUND,
    );
    lemma_fill_rect_pixels(
        v,
        minimap_x,
        minimap_y,
        maze[0].len() * block_size,
        maze.len() * block_size,
        MINIMAP_BACKGROUND,
    );
    let cells = maze_cells_drawn(backdrop, maze, minimap_x, minimap_y, block_size, wall_color);
    lemma_maze_cells_pixels(backdrop, maze, minimap_x, minimap_y, block_size, wall_color);
    let with_player = marker_drawn(cells, px, py, PLAYER_MARKER);
    lemma_set_color_reads_back(cells.with_current_color(PLAYER_MARKER), px, py, PLAYER_MARKER);
    let with_monsters = monsters_drawn(with_player, minimap_x, minimap_y, monsters);
    lemma_monsters_drawn_shape(with_player, minimap_x, minimap_y, monsters);
    lemma_monsters_marked(with_player, minimap_x, minimap_y, monsters, k);
    let fx = minimap_x + finish.0;
    let fy = minimap_y + finish.1;
    let with_finish = marker_drawn(with_monsters, fx, fy, FINISH_MARKER);
    lemma_set_color_reads_back(with_monsters.with_current_color(FINISH_MARKER), fx, fy, FINISH_MARKER);
    assert(with_finish.pixel(q.0, q.1) == MONSTER_MARKER);
    let last = with_finish.with_current_color(VIEW_DIRECTION_COLOR);
    lemma_with_points_elsewhere(last, view_line(minimap_x, minimap_y, player, view), VIEW_DIRECTION_COLOR, q);
}

/// The finish line shows on the minimap: its pixel holds the finish marker
/// unless the view line, drawn after it, covers it.
pub proof fn lemma_minimap_marks_finish(
    v: FramebufferView,
    maze: Seq<Seq<char>>,
    minimap_x: int,
    minimap_y: int,
    block_size: int,
    wall_color: u32,
    player: (usize, usize),
    monsters: Seq<(usize, usize)>,
    finish: (usize, usize),
    view: (usize, usize),
)
    requires
        v.wf(),
        v.in_bounds(minimap_x + finish.0, minimap_y + finish.1),
        !drawn_at(
            view_line(minimap_x, minimap_y, player, view),
            (minimap_x + finish.0, minimap_y + finish.1),
        ),
    ensures
        minimap_drawn(
            v,
            maze,
            minimap_x,
            minimap_y,
            block_size,
            wall_color,
            player,
            monsters,
            finish,
            view,
        ).pixel(minimap_x + finish.0, minimap_y + finish.1) == FINISH_MARKER,
{
    let q = (minimap_x + finish.0, minimap_y + finish.1);
    let px = minimap_x + player.0;
    let py = minimap_y + player.1;
    let backdrop = block_painted(
        v,
        minimap_x,
        minimap_y,
        maze[0].len() * block_size,
        maze.len() * block_size,
        MINIMAP_BACKGROUND,
    );
    lemma_fill_rect_pixels(
        v,
        minimap_x,
        minimap_y,
        maze[0].len() * block_size,
        maze.len() * block_size,
        MINIMAP_BACKGROUND,
    );
    let cells = maze_cells_drawn(backdrop, maze, minimap_x, minimap_y, block_size, wall_color);
    lemma_maze_cells_pixels(backdrop, maze, minimap_x, minimap_y, block_size, wall_color);
    let with_player = marker_drawn(cells, px, py, PLAYER_MARKER);
    lemma_set_color_reads_back(cells.with_current_color(PLAYER_MARKER), px, py, PLAYER_MARKER);
    let with_monsters = monsters_drawn(with_player, minimap_x, minimap_y, monsters);
    lemma_monsters_drawn_shape(with_player, minimap_x, minimap_y, monsters);
    let fx = minimap_x + finish.0;
    let fy = minimap_y + finish.1;
    let with_finish = marker_drawn(with_monsters, fx, fy, FINISH_MARKER);
    lemma_set_color_reads_back(with_monsters.with_current_color(FINISH_MARKER), fx, fy, FINISH_MARKER);
    assert(with_finish.pixel(q.0, q.1) == FINISH_MARKER);
    let last = with_finish.with_current_color(VIEW_DIRECTION_COLOR);
    lemma_with_points_elsewhere(last, view_line(minimap_x, minimap_y, player, view), VIEW_DIRECTION_COLOR, q);
}

/// The view line reaches the point the player looks at: the pixel at the
/// player moved by the view offset holds the view direction colour (when it
/// lies in the picture and its coordinates fit in 31 bits, as the line
/// algorithm needs).
pub proof fn lemma_minimap_view_reaches_end(
    v: FramebufferView,
    maze: Seq<Seq<char>>,
    minimap_x: int,
    minimap_y: int,
    block_size: int,
    wall_color: u32,
    player: (usize, usize),
    monsters: Seq<(usize, usize)>,
    finish: (usize, usize),
    view: (usize, usize),
)
    requires
        v.wf(),
        0 <= minimap_x,
        0 <= minimap_y,
        minimap_x + player.0 + view.0 <= i32::MAX,
        minimap_y + player.1 + view.1 <= i32::MAX,
        v.in_bounds(minimap_x + player.0 + view.0, minimap_y + player.1 + view.1),
    ensures
        minimap_drawn(
            v,
            maze,
            minimap_x,
            minimap_y,
            block_size,
            wall_color,
            player,
            monsters,
            finish,
            view,
        ).pixel(minimap_x + player.0 + view.0, minimap_y + player.1 + view.1)
            == VIEW_DIRECTION_COLOR,
{
    let px = minimap_x + player.0;
    let py = minimap_y + player.1;
    let backdrop = block_painted(
        v,
        minimap_x,
        minimap_y,
        maze[0].len() * block_size,
        maze.len() * block_size,
        MINIMAP_BACKGROUND,
    );
    lemma_fill_rect_pixels(
        v,
        minimap_x,
        minimap_y,
        maze[0].len() * block_size,
        maze.len() * block_size,
        MINIMAP_BACKGROUND,
    );
    let cells = maze_cells_drawn(backdrop, maze, minimap_x, minimap_y, block_size, wall_color);
    lemma_maze_cells_pixels(backdrop, maze, minimap_x, minimap_y, block_size, wall_color);
    let with_player = marker_drawn(cells, px, py, PLAYER_MARKER);
    lemma_set_color_reads_back(cells.with_current_color(PLAYER_MARKER), px, py, PLAYER_MARKER);
    let with_monsters = monsters_drawn(with_player, minimap_x, minimap_y, monsters);
    lemma_monsters_drawn_shape(with_player, minimap_x, minimap_y, monsters);
    let with_finish = marker_drawn(
        with_monsters,
        minimap_x + finish.0,
        minimap_y + finish.1,
        FINISH_MARKER,
    );
    lemma_set_color_reads_back(
        with_monsters.with_current_color(FINISH_MARKER),
        minimap_x + finish.0,
        minimap_y + finish.1,
        FINISH_MARKER,
    );
    let last = with_finish.with_current_color(VIEW_DIRECTION_COLOR);
    let x1 = px as usize;
    let y1 = py as usize;
    let x2 = (px + view.0) as usize;
    let y2 = (py + view.1) as usize;
    lemma_line_shape(x1, y1, x2, y2);
    let pts = line_points(x1, y1, x2, y2);
    assert(pts[pts.len() - 1] == (px + view.0, py + view.1));
    lemma_with_points_covers(last, pts, VIEW_DIRECTION_COLOR, pts.len() - 1);
}

} // verus!
