//! Tile coordinates and task footprints: the spatial vocabulary that storage
//! zones and workshops are laid out in.

use vstd::prelude::*;

verus! {

#[derive(Debug, Clone, Copy, PartialEq, Eq, PartialOrd, Ord, Hash, Structural)]
pub struct TilePoint {
    pub x: i32,
    pub y: i32,
}

/// An axis-aligned rectangle of tiles with a positive width and height.
#[derive(Debug, Clone, Copy, PartialEq, Eq, Structural)]
pub struct Rect {
    pub origin: TilePoint,
    pub width: u32,
    pub height: u32,
}

pub open spec fn rect_fits(origin: TilePoint, width: u32, height: u32) -> bool {
    &&& width > 0
    &&& height > 0
    &&& origin.x as int + width as int - 1 <= i32::MAX
    &&& origin.y as int + height as int - 1 <= i32::MAX
    &&& width as int * height as int <= 1_000_000
}

impl Rect {
    /// A rectangle when it is non-empty, lies within the coordinate range, and
    /// covers at most a million tiles.
    pub fn try_new(origin: TilePoint, width: u32, height: u32) -> (r: Option<Rect>)
        ensures
            r is Some <==> rect_fits(origin, width, height),
            r matches Some(rect) ==> rect == (Rect { origin, width, height }),
    {
        if width == 0 || height == 0 || width > 1_000_000 || height > 1_000_000 {
            proof {
                if width > 1_000_000 && height > 0 {
                    assert(width as int * height as int > 1_000_000) by (nonlinear_arith)
                        requires width > 1_000_000, height > 0;
                }
                if height > 1_000_000 && width > 0 {
                    assert(width as int * height as int > 1_000_000) by (nonlinear_arith)
                        requires height > 1_000_000, width > 0;
                }
            }
            return None;
        }
        if (origin.x as i64) + (width as i64) - 1 > i32::MAX as i64 || (origin.y as i64) + (height as i64) - 1 > i32::MAX as i64 {
            return None;
        }
        assert((width as u64) * (height as u64) <= u64::MAX) by (nonlinear_arith)
            requires width <= 1_000_000, height <= 1_000_000;
        if (width as u64) * (height as u64) > 1_000_000 {
            return None;
        }
        Some(Rect { origin, width, height })
    }
}

/// The tile at row-major position `k` of a rectangle.
pub open spec fn rect_tile(rect: Rect, k: int) -> TilePoint {
    TilePoint {
        x: (rect.origin.x + k % rect.width as int) as i32,
        y: (rect.origin.y + k / rect.width as int) as i32,
    }
}

/// The set of tiles that a task occupies.
#[derive(Debug, Clone, PartialEq, Eq)]
pub struct TaskFootprint {
    pub width: u32,
    pub height: u32,
    pub tiles: Vec<TilePoint>,
}

#[derive(Debug, Clone, Copy, PartialEq, Eq, Structural)]
pub enum FootprintError {
    Empty,
    TooManyTiles,
    DuplicateTile,
}

/// Whether two tiles are the same.
pub open spec fn tiles_distinct(tiles: Seq<TilePoint>) -> bool {
    forall|i: int, j: int| 0 <= i < tiles.len() && 0 <= j < tiles.len() && i != j ==> tiles[i] != tiles[j]
}

pub open spec fn footprint_error(fp: TaskFootprint) -> Option<FootprintError> {
    if fp.width == 0 || fp.height == 0 || fp.tiles@.len() == 0 {
        Some(FootprintError::Empty)
    } else if fp.tiles@.len() > fp.width as int * fp.height as int {
        Some(FootprintError::TooManyTiles)
    } else if !tiles_distinct(fp.tiles@) {
        Some(FootprintError::DuplicateTile)
    } else {
        None
    }
}

impl TaskFootprint {
    /// The footprint covering every tile of `rect`, in row-major order.
    pub fn rectangular(rect: Rect) -> (r: TaskFootprint)
        requires
            rect_fits(rect.origin, rect.width, rect.height),
        ensures
            r.width == rect.width,
            r.height == rect.height,
            r.tiles@.len() == rect.width as int * rect.height as int,
            forall|k: int| 0 <= k < r.tiles@.len() ==> r.tiles@[k] == rect_tile(rect, k),
    {
        let mut tiles: Vec<TilePoint> = Vec::new();
        let mut row: u32 = 0;
        while row < rect.height
            invariant
                rect_fits(rect.origin, rect.width, rect.height),
                row <= rect.height,
                tiles@.len() == row as int * rect.width as int,
                forall|k: int| 0 <= k < tiles@.len() ==> tiles@[k] == rect_tile(rect, k),
            decreases rect.height - row,
        {
            let mut col: u32 = 0;
            while col < rect.width
                invariant
                    rect_fits(rect.origin, rect.width, rect.height),
                    row < rect.height,
                    col <= rect.width,
                    tiles@.len() == row as int * rect.width as int + col,
                    forall|k: int| 0 <= k < tiles@.len() ==> tiles@[k] == rect_tile(rect, k),
                decreases rect.width - col,
            {
                let ghost k = tiles@.len() as int;
                proof {
                    assert(k % rect.width as int == col as int && k / rect.width as int == row as int) by (nonlinear_arith)
                        requires k == row as int * rect.width as int + col, col < rect.width, rect.width > 0, row >= 0, col >= 0;
                }
                let x = (rect.origin.x as i64 + col as i64) as i32;
                let y = (rect.origin.y as i64 + row as i64) as i32;
                tiles.push(TilePoint { x, y });
                col = col + 1;
            }
            proof {
                assert((row + 1) as int * rect.width as int == row as int * rect.width as int + rect.width as int) by (nonlinear_arith);
            }
            row = row + 1;
        }
        assert(rect.height as int * rect.width as int == rect.width as int * rect.height as int) by (nonlinear_arith);
        TaskFootprint { width: rect.width, height: rect.height, tiles }
    }

    #[verifier::loop_isolation(false)]
    /// A footprint is valid when it is non-empty, fits its bounding size and
    /// names no tile twice.
    pub fn validate(&self) -> (r: Result<(), FootprintError>)
        ensures
            r is Err <==> footprint_error(*self) is Some,
            r matches Err(e) ==> footprint_error(*self) == Some(e),
    {
        if self.width == 0 || self.height == 0 || self.tiles.len() == 0 {
            return Err(FootprintError::Empty);
        }
        assert((self.width as u64) * (self.height as u64) <= u64::MAX) by (nonlinear_arith)
            requires self.width <= u32::MAX, self.height <= u32::MAX;
        if self.tiles.len() as u64 > (self.width as u64) * (self.height as u64) {
            return Err(FootprintError::TooManyTiles);
        }
        let n = self.tiles.len();
        let mut i: usize = 0;
        while i < n
            invariant
                n == self.tiles@.len(),
                i <= n,
                forall|a: int, b: int| 0 <= a < i && 0 <= b < n && a != b ==> self.tiles@[a] != self.tiles@[b],
            decreases n - i,
        {
            let mut j: usize = 0;
            while j < n
                invariant
                    n == self.tiles@.len(),
                    i < n,
                    j <= n,
                    forall|a: int, b: int| 0 <= a < i && 0 <= b < n && a != b ==> self.tiles@[a] != self.tiles@[b],
                    forall|b: int| 0 <= b < j && b != i ==> self.tiles@[i as int] != self.tiles@[b],
                decreases n - j,
            {
                if i != j && self.tiles[i] == self.tiles[j] {
                    assert(!tiles_distinct(self.tiles@));
                    return Err(FootprintError::DuplicateTile);
                }
                j = j + 1;
            }
            i = i + 1;
        }
        Ok(())
    }
}

} // verus!
