//! The rectangular grid of tiles that a run walks.
//!
//! Both corners of the rectangle belong to it. Tiles come column by column:
//! the column `x` ascends from the left edge to the right edge, and within a
//! column the row `y` ascends from the top edge to the bottom edge.

use vstd::prelude::*;

verus! {

/// One tile of a slippy-map tile scheme: column `x`, row `y`, zoom level `z`.
#[derive(Clone, Copy, Debug, PartialEq, Eq, Structural)]
pub struct TileCoordinate {
    pub x: u32,
    pub y: u32,
    pub z: u32,
}

impl TileCoordinate {
    /// The tile in column `x` and row `y` at zoom level `z`.
    pub fn new(x: u32, y: u32, z: u32) -> (tile: TileCoordinate)
        ensures
            tile == (TileCoordinate { x, y, z }),
    {
        TileCoordinate { x, y, z }
    }
}

/// The tiles of column `x` from row `top` down to row `bottom`, both included.
pub open spec fn column(x: int, top: int, bottom: int, z: u32) -> Seq<TileCoordinate> {
    if top <= bottom {
        Seq::new(
            (bottom - top + 1) as nat,
            |j: int| TileCoordinate { x: x as u32, y: (top + j) as u32, z },
        )
    } else {
        Seq::empty()
    }
}

/// The columns `left` to `right`, both included, one after the other.
pub open spec fn columns(left: int, right: int, top: int, bottom: int, z: u32) -> Seq<
    TileCoordinate,
>
    decreases right - left + 1,
{
    if left > right {
        Seq::empty()
    } else {
        column(left, top, bottom, z) + columns(left + 1, right, top, bottom, z)
    }
}

/// Every tile of the rectangle spanned by the two corners, in walking order.
/// The zoom level is that of the corners, which must agree.
pub open spec fn grid_tiles(top_left: TileCoordinate, bottom_right: TileCoordinate) -> Seq<
    TileCoordinate,
> {
    columns(
        top_left.x as int,
        bottom_right.x as int,
        top_left.y as int,
        bottom_right.y as int,
        top_left.z,
    )
}

/// Whether `tile` lies in the rectangle spanned by the two corners.
pub open spec fn in_rectangle(
    tile: TileCoordinate,
    top_left: TileCoordinate,
    bottom_right: TileCoordinate,
) -> bool {
    &&& tile.z == top_left.z
    &&& top_left.x <= tile.x <= bottom_right.x
    &&& top_left.y <= tile.y <= bottom_right.y
}

/// Whether `a` is walked before `b`: an earlier column, or the same column
/// and an earlier row.
pub open spec fn walked_before(a: TileCoordinate, b: TileCoordinate) -> bool {
    a.x < b.x || (a.x == b.x && a.y < b.y)
}

proof fn lemma_columns_len(left: int, right: int, top: int, bottom: int, z: u32)
    requires
        left <= right + 1,
        top <= bottom + 1,
    ensures
        columns(left, right, top, bottom, z).len() == (right - left + 1) * (bottom - top + 1),
    decreases right - left + 1,
{
    if left <= right {
        lemma_columns_len(left + 1, right, top, bottom, z);
        assert((right - left + 1) * (bottom - top + 1) == (bottom - top + 1) + (right - left) * (
        bottom - top + 1)) by (nonlinear_arith);
    } else {
        assert((right - left + 1) * (bottom - top + 1) == 0) by (nonlinear_arith)
            requires
                right - left + 1 == 0,
        ;
    }
}

proof fn lemma_columns_index(left: int, right: int, top: int, bottom: int, z: u32, i: int)
    requires
        0 <= left <= right <= u32::MAX,
        0 <= top <= bottom <= u32::MAX,
        0 <= i < columns(left, right, top, bottom, z).len(),
    ensures
        columns(left, right, top, bottom, z)[i] == (TileCoordinate {
            x: (left + i / (bottom - top + 1)) as u32,
            y: (top + i % (bottom - top + 1)) as u32,
            z,
        }),
        left + i / (bottom - top + 1) <= right,
    decreases right - left + 1,
{
    let height = bottom - top + 1;
    if i < height {
        assert(i / height == 0 && i % height == i) by (nonlinear_arith)
            requires
                0 <= i < height,
        ;
    } else {
        lemma_columns_len(left + 1, right, top, bottom, z);
        lemma_columns_len(left, right, top, bottom, z);
        if left == right {
            assert((right - left + 1) * height == height) by (nonlinear_arith)
                requires
                    right - left + 1 == 1,
            ;
        } else {
            lemma_columns_index(left + 1, right, top, bottom, z, i - height);
            assert((i - height) / height == i / height - 1 && (i - height) % height == i % height)
                by (nonlinear_arith)
                requires
                    0 < height <= i,
            ;
        }
    }
}

/// The grid holds one tile for each column and row of the rectangle.
pub proof fn lemma_grid_len(top_left: TileCoordinate, bottom_right: TileCoordinate)
    ensures
        top_left.x <= bottom_right.x && top_left.y <= bottom_right.y ==> grid_tiles(
            top_left,
            bottom_right,
        ).len() == (bottom_right.x - top_left.x + 1) * (bottom_right.y - top_left.y + 1),
        top_left.x > bottom_right.x || top_left.y > bottom_right.y ==> grid_tiles(
            top_left,
            bottom_right,
        ).len() == 0,
{
    let (left, right) = (top_left.x as int, bottom_right.x as int);
    let (top, bottom) = (top_left.y as int, bottom_right.y as int);
    if left <= right {
        if top <= bottom {
            lemma_columns_len(left, right, top, bottom, top_left.z);
        } else {
            lemma_columns_len(left, right, top, top - 1, top_left.z);
            lemma_columns_same_when_empty(left, right, top, bottom, top_left.z);
            assert((right - left + 1) * (top - 1 - top + 1) == 0) by (nonlinear_arith);
        }
    }
}

proof fn lemma_columns_same_when_empty(left: int, right: int, top: int, bottom: int, z: u32)
    requires
        top > bottom,
    ensures
        columns(left, right, top, bottom, z) == columns(left, right, top, top - 1, z),
    decreases right - left + 1,
{
    if left <= right {
        lemma_columns_same_when_empty(left + 1, right, top, bottom, z);
        assert(column(left, top, bottom, z) =~= column(left, top, top - 1, z));
    }
}

/// The tile at position `i` of the walk: `i` rows are walked column by column,
/// so the column advances once for each full column of rows.
pub proof fn lemma_grid_index(top_left: TileCoordinate, bottom_right: TileCoordinate, i: int)
    requires
        0 <= i < grid_tiles(top_left, bottom_right).len(),
    ensures
        top_left.x <= bottom_right.x,
        top_left.y <= bottom_right.y,
        grid_tiles(top_left, bottom_right)[i] == (TileCoordinate {
            x: (top_left.x + i / (bottom_right.y - top_left.y + 1)) as u32,
            y: (top_left.y + i % (bottom_right.y - top_left.y + 1)) as u32,
            z: top_left.z,
        }),
        in_rectangle(grid_tiles(top_left, bottom_right)[i], top_left, bottom_right),
{
    lemma_grid_len(top_left, bottom_right);
    let height = bottom_right.y - top_left.y + 1;
    lemma_columns_index(
        top_left.x as int,
        bottom_right.x as int,
        top_left.y as int,
        bottom_right.y as int,
        top_left.z,
        i,
    );
    assert(0 <= i / height && 0 <= i % height < height) by (nonlinear_arith)
        requires
            0 <= i,
            0 < height,
    ;
}

/// The grid holds exactly the tiles of the rectangle.
pub proof fn lemma_grid_contains(
    top_left: TileCoordinate,
    bottom_right: TileCoordinate,
    tile: TileCoordinate,
)
    ensures
        grid_tiles(top_left, bottom_right).contains(tile) <==> in_rectangle(
            tile,
            top_left,
            bottom_right,
        ),
{
    let grid = grid_tiles(top_left, bottom_right);
    if grid.contains(tile) {
        let i = choose|i: int| 0 <= i < grid.len() && grid[i] == tile;
        lemma_grid_index(top_left, bottom_right, i);
    }
    if in_rectangle(tile, top_left, bottom_right) {
        let height = bottom_right.y - top_left.y + 1;
        let width = bottom_right.x - top_left.x + 1;
        let col = tile.x - top_left.x;
        let row = tile.y - top_left.y;
        let i = col * height + row;
        lemma_grid_len(top_left, bottom_right);
        assert(0 <= i < width * height && i / height == col && i % height == row)
            by (nonlinear_arith)
            requires
                0 <= col < width,
                0 <= row < height,
                i == col * height + row,
        ;
        lemma_grid_index(top_left, bottom_right, i);
        assert(grid[i] == tile);
    }
}

/// The walk is strictly ascending: a tile at an earlier position is walked
/// before every tile at a later one, so no tile comes twice.
pub proof fn lemma_grid_ascending(
    top_left: TileCoordinate,
    bottom_right: TileCoordinate,
    i: int,
    j: int,
)
    requires
        0 <= i < j < grid_tiles(top_left, bottom_right).len(),
    ensures
        walked_before(
            grid_tiles(top_left, bottom_right)[i],
            grid_tiles(top_left, bottom_right)[j],
        ),
{
    lemma_grid_index(top_left, bottom_right, i);
    lemma_grid_index(top_left, bottom_right, j);
    lemma_grid_len(top_left, bottom_right);
    let height = bottom_right.y - top_left.y + 1;
    let width = bottom_right.x - top_left.x + 1;
    assert(i / height < j / height || (i / height == j / height && i % height < j % height))
        by (nonlinear_arith)
        requires
            0 <= i < j,
            0 < height,
    ;
    assert(j / height < width) by (nonlinear_arith)
        requires
            0 <= j < width * height,
            0 < height,
    ;
    assert(0 <= i / height && 0 <= i % height < height && 0 <= j % height < height)
        by (nonlinear_arith)
        requires
            0 <= i,
            0 <= j,
            0 < height,
    ;
}

/// A single pass over the tiles of a rectangle, one tile at a time.
///
/// The walker hands out each tile once and cannot be rewound.
#[derive(Debug)]
pub struct GridWalker {
    x: u32,
    y: u32,
    right: u32,
    top: u32,
    bottom: u32,
    z: u32,
    done: bool,
}

impl GridWalker {
    #[verifier::type_invariant]
    spec fn positioned(self) -> bool {
        !self.done ==> self.x <= self.right && self.top <= self.y <= self.bottom
    }

    /// The tiles that the walker has yet to hand out, in order.
    pub closed spec fn remaining(self) -> Seq<TileCoordinate> {
        if self.done {
            Seq::empty()
        } else {
            column(self.x as int, self.y as int, self.bottom as int, self.z) + columns(
                self.x + 1,
                self.right as int,
                self.top as int,
                self.bottom as int,
                self.z,
            )
        }
    }

    /// A walker over the rectangle spanned by the two corners, or `None` when
    /// the corners are at different zoom levels.
    pub fn new(top_left: TileCoordinate, bottom_right: TileCoordinate) -> (walker: Option<
        GridWalker,
    >)
        ensures
            walker is Some <==> top_left.z == bottom_right.z,
            walker matches Some(w) ==> w.remaining() == grid_tiles(top_left, bottom_right),
    {
        if top_left.z != bottom_right.z {
            return None;
        }
        let done = top_left.x > bottom_right.x || top_left.y > bottom_right.y;
        proof {
            if top_left.x <= bottom_right.x && top_left.y > bottom_right.y {
                lemma_grid_len(top_left, bottom_right);
            }
        }
        Some(
            GridWalker {
                x: top_left.x,
                y: top_left.y,
                right: bottom_right.x,
                top: top_left.y,
                bottom: bottom_right.y,
                z: top_left.z,
                done,
            },
        )
    }

    /// Hands out the next tile, or `None` once the walk is over.
    pub fn next_tile(&mut self) -> (tile: Option<TileCoordinate>)
        ensures
            old(self).remaining().len() == 0 ==> tile is None,
            old(self).remaining().len() == 0 ==> final(self).remaining() == old(self).remaining(),
            old(self).remaining().len() > 0 ==> tile == Some(old(self).remaining()[0]),
            old(self).remaining().len() > 0 ==> final(self).remaining() == old(self).remaining()
                .drop_first(),
    {
        proof {
            use_type_invariant(&*self);
        }
        if self.done {
            return None;
        }
        let tile = TileCoordinate { x: self.x, y: self.y, z: self.z };
        let ghost before = *self;
        let ghost later = columns(
            self.x + 1,
            self.right as int,
            self.top as int,
            self.bottom as int,
            self.z,
        );
        if self.y < self.bottom {
            self.y = self.y + 1;
            assert(column(self.x as int, self.y as int, self.bottom as int, self.z) + later
                =~= before.remaining().drop_first());
        } else if self.x < self.right {
            self.x = self.x + 1;
            self.y = self.top;
            assert(self.remaining() =~= before.remaining().drop_first());
        } else {
            self.done = true;
            assert(self.remaining() =~= before.remaining().drop_first());
        }
        Some(tile)
    }

    /// Walks to the end and returns the tiles that were still to come.
    pub fn collect(self) -> (tiles: Vec<TileCoordinate>)
        ensures
            tiles@ == self.remaining(),
    {
        let mut walker = self;
        let mut tiles: Vec<TileCoordinate> = Vec::new();
        loop
            invariant
                tiles@ + walker.remaining() == self.remaining(),
            ensures
                tiles@ == self.remaining(),
            decreases walker.remaining().len(),
        {
            let ghost before = walker.remaining();
            match walker.next_tile() {
                Some(tile) => {
                    tiles.push(tile);
                    assert(tiles@ + walker.remaining() =~= (tiles@.drop_last() + before));
                },
                None => {
                    assert(tiles@ + before =~= tiles@);
                    break ;
                },
            }
        }
        tiles
    }
}

/// Every tile of the rectangle spanned by the two corners, in walking order,
/// or `None` when the corners are at different zoom levels.
pub fn tiles_between(top_left: TileCoordinate, bottom_right: TileCoordinate) -> (tiles: Option<
    Vec<TileCoordinate>,
>)
    ensures
        tiles is Some <==> top_left.z == bottom_right.z,
        tiles matches Some(t) ==> t@ == grid_tiles(top_left, bottom_right),
{
    match GridWalker::new(top_left, bottom_right) {
        Some(walker) => Some(walker.collect()),
        None => None,
    }
}

} // verus!
