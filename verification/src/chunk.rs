//! The cells of a square piece of terrain, and the blocks that fill it.

use vstd::prelude::*;

verus! {

/// One block of terrain: where it stands, as x, y and height, and the name
/// of its texture.
#[derive(Debug)]
pub struct Tile {
    pub pos: [i64; 3],
    pub texture_name: String,
}

/// A square piece of terrain around a position.
#[derive(Debug)]
pub struct Chunk {
    pub pos: [i64; 2],
    pub tiles: Vec<Tile>,
}

impl Clone for Tile {
    fn clone(&self) -> (copy: Self)
        ensures
            copy == *self,
    {
        Tile { pos: self.pos, texture_name: self.texture_name.clone() }
    }
}

impl Clone for Chunk {
    fn clone(&self) -> (copy: Self)
        ensures
            copy.pos == self.pos,
            copy.tiles@ == self.tiles@,
    {
        let mut tiles: Vec<Tile> = Vec::new();
        let mut i: usize = 0;
        while i < self.tiles.len()
            invariant
                i <= self.tiles@.len(),
                tiles@ == self.tiles@.take(i as int),
            decreases self.tiles@.len() - i,
        {
            tiles.push(self.tiles[i].clone());
            i += 1;
        }
        Chunk { pos: self.pos, tiles }
    }
}

/// The blocks of one column of terrain: from the ground, height 0, up to the
/// column's height. A column whose height is below the ground has none.
pub open spec fn column(x: i64, y: i64, height: i64) -> Seq<(i64, i64, i64)> {
    if height < 0 {
        Seq::empty()
    } else {
        Seq::new((height + 1) as nat, |k: int| (x, y, k as i64))
    }
}

/// The blocks of the given columns, column after column.
pub open spec fn blocks(heights: Seq<((i64, i64), i64)>) -> Seq<(i64, i64, i64)>
    decreases heights.len(),
{
    if heights.len() == 0 {
        Seq::empty()
    } else {
        blocks(heights.drop_last()) + column(
            heights.last().0.0,
            heights.last().0.1,
            heights.last().1,
        )
    }
}

/// The side of the square of cells around a position, `size` cells to each
/// side.
pub open spec fn side(size: u8) -> int {
    2 * size + 1
}

/// The `i`-th cell of the square around a position, counted row by row.
///
/// A row keeps the second coordinate of the cell fixed; the rows are laid
/// around the first coordinate of the position, the cells of a row around its
/// second.
pub open spec fn cell(position: (i64, i64), size: u8, i: int) -> (int, int) {
    (position.1 - size + i % side(size), position.0 - size + i / side(size))
}

/// Whether every cell of the square around the position has coordinates that
/// an `i64` holds.
pub open spec fn square_fits(position: (i64, i64), size: u8) -> bool {
    &&& i64::MIN <= position.0 - size
    &&& position.0 + size <= i64::MAX
    &&& i64::MIN <= position.1 - size
    &&& position.1 + size <= i64::MAX
}

/// Whether the cells are the first of the square around the position,
/// counted row by row.
pub open spec fn starts_square(cells: Seq<(i64, i64)>, position: (i64, i64), size: u8) -> bool {
    forall|i: int|
        0 <= i < cells.len() ==> (#[trigger] cells[i].0) as int == cell(position, size, i).0
            && cells[i].1 as int == cell(position, size, i).1
}

/// Whether the cells are those of the square around the position, row by
/// row.
pub open spec fn is_square(cells: Seq<(i64, i64)>, position: (i64, i64), size: u8) -> bool {
    cells.len() == side(size) * side(size) && starts_square(cells, position, size)
}

/// The cells of the square around a position, row by row, or nothing where
/// the square reaches beyond what an `i64` holds.
pub fn heightmap_cells(position: &(i64, i64), size: u8) -> (cells: Option<Vec<(i64, i64)>>)
    ensures
        cells is Some <==> square_fits(*position, size),
        cells matches Some(cells) ==> is_square(cells@, *position, size),
{
    let reach: i64 = size as i64;
    if position.0 < i64::MIN + reach || position.0 > i64::MAX - reach || position.1 < i64::MIN
        + reach || position.1 > i64::MAX - reach {
        return None;
    }
    let width: usize = 2 * (size as usize) + 1;
    let mut cells: Vec<(i64, i64)> = Vec::new();
    let mut row: usize = 0;
    while row < width
        invariant
            row <= width,
            width == side(size),
            reach == size,
            square_fits(*position, size),
            cells@.len() == row * width,
            starts_square(cells@, *position, size),
        decreases width - row,
    {
        let y: i64 = position.0 - reach + row as i64;
        let mut col: usize = 0;
        while col < width
            invariant
                col <= width,
                row < width,
                width == side(size),
                reach == size,
                square_fits(*position, size),
                y == position.0 - size + row,
                cells@.len() == row * width + col,
                starts_square(cells@, *position, size),
            decreases width - col,
        {
            let x: i64 = position.1 - reach + col as i64;
            let ghost before = cells@;
            cells.push((x, y));
            proof {
                let at = row * width + col;
                vstd::arithmetic::div_mod::lemma_fundamental_div_mod_converse(
                    at,
                    width as int,
                    row as int,
                    col as int,
                );
                assert(cell(*position, size, at) == (x as int, y as int));
                assert forall|i: int| 0 <= i < cells@.len() implies (#[trigger] cells@[i].0) as int
                    == cell(*position, size, i).0 && cells@[i].1 as int == cell(
                    *position,
                    size,
                    i,
                ).1 by {
                    if i < at {
                        assert(cells@[i] == before[i]);
                    }
                }
            }
            col += 1;
        }
        assert((row + 1) * width == row * width + width) by (nonlinear_arith);
        row += 1;
    }
    proof {
        assert(row * width == side(size) * side(size)) by (nonlinear_arith)
            requires
                row == width,
                width == side(size),
        ;
    }
    Some(cells)
}

impl Chunk {
    /// The chunk at a position whose terrain has the given columns, each a
    /// cell with its height: every column is filled with grass from the
    /// ground up to its height.
    pub fn new(pos: [i64; 2], heights: &Vec<((i64, i64), i64)>) -> (chunk: Self)
        ensures
            chunk.pos == pos,
            chunk.tiles@.len() == blocks(heights@).len(),
            forall|i: int|
                0 <= i < chunk.tiles@.len() ==> {
                    let tile = #[trigger] chunk.tiles@[i];
                    &&& (tile.pos[0], tile.pos[1], tile.pos[2]) == blocks(heights@)[i]
                    &&& tile.texture_name@ == "grass"@
                },
    {
        let mut tiles: Vec<Tile> = Vec::new();
        let mut i: usize = 0;
        while i < heights.len()
            invariant
                i <= heights@.len(),
                tiles@.len() == blocks(heights@.take(i as int)).len(),
                forall|k: int|
                    0 <= k < tiles@.len() ==> {
                        let tile = #[trigger] tiles@[k];
                        &&& (tile.pos[0], tile.pos[1], tile.pos[2]) == blocks(
                            heights@.take(i as int),
                        )[k]
                        &&& tile.texture_name@ == "grass"@
                    },
            decreases heights@.len() - i,
        {
            let x: i64 = heights[i].0.0;
            let y: i64 = heights[i].0.1;
            let top: i64 = heights[i].1;
            let ghost before = blocks(heights@.take(i as int));
            proof {
                assert(heights@.take(i as int + 1).drop_last() =~= heights@.take(i as int));
                assert(heights@.take(i as int + 1).last() == heights@[i as int]);
            }
            if top >= 0 {
                let mut z: i64 = 0;
                let mut more = true;
                while more
                    invariant
                        0 <= z <= top,
                        more ==> tiles@.len() == before.len() + z,
                        !more ==> z == top && tiles@.len() == before.len() + top + 1,
                        forall|k: int|
                            0 <= k < tiles@.len() ==> {
                                let tile = #[trigger] tiles@[k];
                                &&& (tile.pos[0], tile.pos[1], tile.pos[2]) == (before + column(
                                    x,
                                    y,
                                    top,
                                ))[k]
                                &&& tile.texture_name@ == "grass"@
                            },
                    decreases top - z, if more { 1int } else { 0int },
                {
                    tiles.push(Tile { pos: [x, y, z], texture_name: "grass".to_owned() });
                    if z == top {
                        more = false;
                    } else {
                        z += 1;
                    }
                }
            }
            i += 1;
        }
        proof {
            assert(heights@.take(i as int) =~= heights@);
        }
        Self { pos, tiles }
    }
}

} // verus!
