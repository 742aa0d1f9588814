//! A canvas that is kept in square tiles, of which one or one row is in memory at a time.

use vstd::prelude::*;

use crate::bounds::Bounds;
use crate::crop::is_largest_valid;
use crate::crop::Rectangle;
use crate::crop::RectangleScan;
use crate::focus_layer::copy_region;
use crate::grid::cell;
use crate::grid::lemma_cell;
use crate::preview_protocol::lemma_number;
use crate::preview_protocol::little_endian;
use crate::preview_protocol::number_at;
use crate::raster::in_region;
use crate::raster::update_cells;
use crate::raster::Raster;

verus! {

/// The length of the sides of a tile in pixels.
pub const STREAMING_TILE_SIZE: u32 = 1024;

/// A rectangle of the canvas in pixels.
#[derive(Clone, Copy, Debug, PartialEq, Eq, Structural)]
pub struct TileArea {
    pub left: u32,
    pub top: u32,
    pub width: u32,
    pub height: u32,
}

impl TileArea {
    /// The rectangle holds this pixel of the canvas.
    pub open spec fn contains(self, x: int, y: int) -> bool {
        in_region(
            self.left as int,
            self.top as int,
            self.width as int,
            self.height as int,
            x,
            y,
        )
    }

    /// The rectangle lies on a canvas of this size.
    pub open spec fn inside(self, width: int, height: int) -> bool {
        self.left + self.width <= width && self.top + self.height <= height
    }
}

/// A canvas of `width` by `height` pixels, cut into tiles. The tiles of the last
/// column and row may be smaller than the others.
#[derive(Clone, Copy, Debug, PartialEq, Eq, Structural)]
pub struct TileLayout {
    pub width: u32,
    pub height: u32,
    pub tile_columns: u32,
    pub tile_rows: u32,
}

/// The number of tiles that cover a length.
pub open spec fn tiles_along(length: int) -> int {
    (length + STREAMING_TILE_SIZE - 1) / (STREAMING_TILE_SIZE as int)
}

/// The length of the tile at a place along a side of the canvas.
pub open spec fn tile_length(length: int, index: int) -> int {
    if (index + 1) * STREAMING_TILE_SIZE <= length {
        STREAMING_TILE_SIZE as int
    } else {
        length - index * STREAMING_TILE_SIZE
    }
}

/// The tile that a coordinate falls into.
pub open spec fn tile_of(coordinate: int) -> int {
    coordinate / (STREAMING_TILE_SIZE as int)
}

/// The place of a coordinate inside of its tile.
pub open spec fn place_in_tile(coordinate: int) -> int {
    coordinate % (STREAMING_TILE_SIZE as int)
}

/// Why the tiles of a canvas could not be put together.
#[derive(Debug)]
pub enum TileFault<E> {
    /// A tile could not be loaded.
    Unreadable(E),
    /// A tile does not have the size of its place on the canvas.
    WrongShape,
}

impl TileLayout {
    pub open spec fn well_formed(&self) -> bool {
        &&& self.tile_columns == tiles_along(self.width as int)
        &&& self.tile_rows == tiles_along(self.height as int)
    }

    /// There is a tile in this column and row.
    pub open spec fn has_tile(&self, column: int, row: int) -> bool {
        0 <= column < self.tile_columns && 0 <= row < self.tile_rows
    }

    /// The pixels of a tile.
    pub open spec fn extent(&self, column: int, row: int) -> TileArea {
        TileArea {
            left: (column * STREAMING_TILE_SIZE) as u32,
            top: (row * STREAMING_TILE_SIZE) as u32,
            width: tile_length(self.width as int, column) as u32,
            height: tile_length(self.height as int, row) as u32,
        }
    }

    /// The image has the size of this tile.
    pub open spec fn is_tile<P>(&self, column: int, row: int, tile: &Raster<P>) -> bool {
        &&& tile.well_formed()
        &&& tile.width == self.extent(column, row).width
        &&& tile.height == self.extent(column, row).height
    }

    /// The tiles of a canvas.
    pub fn new(width: u32, height: u32) -> (layout: TileLayout)
        ensures
            layout.well_formed(),
            layout.width == width,
            layout.height == height,
    {
        TileLayout {
            width,
            height,
            tile_columns: count_tiles(width),
            tile_rows: count_tiles(height),
        }
    }

    /// The place of a tile on the canvas.
    pub fn tile_extent(&self, column: u32, row: u32) -> (area: TileArea)
        requires
            self.well_formed(),
            self.has_tile(column as int, row as int),
        ensures
            area == self.extent(column as int, row as int),
            area.left == column * STREAMING_TILE_SIZE,
            area.top == row * STREAMING_TILE_SIZE,
            0 < area.width <= STREAMING_TILE_SIZE,
            0 < area.height <= STREAMING_TILE_SIZE,
            area.inside(self.width as int, self.height as int),
    {
        let (left, width) = tile_span(self.width, column);
        let (top, height) = tile_span(self.height, row);
        TileArea { left, top, width, height }
    }
}

fn count_tiles(length: u32) -> (count: u32)
    ensures
        count == tiles_along(length as int),
{
    ((length as u64 + STREAMING_TILE_SIZE as u64 - 1) / STREAMING_TILE_SIZE as u64) as u32
}

fn tile_span(length: u32, index: u32) -> (span: (u32, u32))
    requires
        index < tiles_along(length as int),
    ensures
        span.0 == index * STREAMING_TILE_SIZE,
        span.1 == tile_length(length as int, index as int),
        0 < span.1 <= STREAMING_TILE_SIZE,
        span.0 + span.1 <= length,
{
    let start: u32 = index * STREAMING_TILE_SIZE;
    let rest: u32 = length - start;
    (
        start,
        if rest < STREAMING_TILE_SIZE {
            rest
        } else {
            STREAMING_TILE_SIZE
        },
    )
}

/// Every pixel of the canvas belongs to exactly one tile.
pub proof fn law_tiles_partition_the_canvas(
    layout: TileLayout,
    x: int,
    y: int,
    column: int,
    row: int,
)
    requires
        layout.well_formed(),
        0 <= x < layout.width,
        0 <= y < layout.height,
    ensures
        layout.has_tile(tile_of(x), tile_of(y)),
        layout.extent(tile_of(x), tile_of(y)).contains(x, y),
        layout.has_tile(column, row) && layout.extent(column, row).contains(x, y) ==> column
            == tile_of(x) && row == tile_of(y),
{
}

/// A pixel lies in its tile at the remainders of its coordinates.
proof fn lemma_place(layout: TileLayout, x: int, y: int, column: int, row: int)
    requires
        layout.well_formed(),
        0 <= x < layout.width,
        0 <= y < layout.height,
        layout.has_tile(column, row),
        layout.extent(column, row).contains(x, y),
    ensures
        column == tile_of(x),
        row == tile_of(y),
        x - layout.extent(column, row).left == place_in_tile(x),
        y - layout.extent(column, row).top == place_in_tile(y),
{
}

/// The pixel that a load of its tile gives for a place on the canvas.
pub open spec fn is_stored<P, E, F: Fn(u32, u32) -> Result<Raster<P>, E>>(
    layout: TileLayout,
    load: F,
    x: int,
    y: int,
    pixel: P,
) -> bool {
    exists|tile: Raster<P>|
        {
            &&& #[trigger] is_loaded::<P, E, F>(layout, load, tile_of(x), tile_of(y), tile)
            &&& tile.at(place_in_tile(x), place_in_tile(y)) == pixel
        }
}

/// A load of a tile may give this image, and the image has the size of the tile.
pub open spec fn is_loaded<P, E, F: Fn(u32, u32) -> Result<Raster<P>, E>>(
    layout: TileLayout,
    load: F,
    column: int,
    row: int,
    tile: Raster<P>,
) -> bool {
    &&& call_ensures(load, (column as u32, row as u32), Ok::<Raster<P>, E>(tile))
    &&& layout.is_tile(column, row, &tile)
}

/// The tile and the rectangle have a pixel in common.
pub open spec fn meets(layout: TileLayout, column: int, row: int, area: TileArea) -> bool {
    let extent = layout.extent(column, row);
    &&& layout.has_tile(column, row)
    &&& extent.left < area.left + area.width
    &&& area.left < extent.left + extent.width
    &&& extent.top < area.top + area.height
    &&& area.top < extent.top + extent.height
}

/// A load of a tile that meets the rectangle may end in this fault.
pub open spec fn is_fault<P, E, F: Fn(u32, u32) -> Result<Raster<P>, E>>(
    layout: TileLayout,
    load: F,
    area: TileArea,
    column: int,
    row: int,
    fault: TileFault<E>,
) -> bool {
    &&& meets(layout, column, row, area)
    &&& match fault {
        TileFault::Unreadable(error) => call_ensures(
            load,
            (column as u32, row as u32),
            Err::<Raster<P>, E>(error),
        ),
        TileFault::WrongShape => exists|tile: Raster<P>|
            #[trigger] call_ensures(load, (column as u32, row as u32), Ok::<Raster<P>, E>(tile))
                && !layout.is_tile(column, row, &tile),
    }
}

/// The tile comes before another in a row by row pass.
spec fn is_done(column: int, row: int, x: int, y: int) -> bool {
    tile_of(y) < row || tile_of(y) == row && tile_of(x) < column
}

impl TileLayout {
    /// Puts the tiles that meet a rectangle of the canvas together. `load` gives the
    /// pixels of a tile.
    pub fn materialize<P: Copy, E, F: Fn(u32, u32) -> Result<Raster<P>, E>>(
        &self,
        area: TileArea,
        blank: P,
        load: F,
    ) -> (output: Result<Raster<P>, TileFault<E>>)
        requires
            self.well_formed(),
            area.inside(self.width as int, self.height as int),
            area.width * area.height <= usize::MAX,
            forall|column: u32, row: u32|
                self.has_tile(column as int, row as int) ==> #[trigger] call_requires(
                    load,
                    (column, row),
                ),
        ensures
            match output {
                Ok(image) => {
                    &&& image.well_formed()
                    &&& image.width == area.width
                    &&& image.height == area.height
                    &&& forall|x: int, y: int|
                        #![trigger image.at(x, y)]
                        0 <= x < area.width && 0 <= y < area.height ==> is_stored::<P, E, F>(
                            *self,
                            load,
                            area.left + x,
                            area.top + y,
                            image.at(x, y),
                        )
                },
                Err(fault) => exists|column: int, row: int|
                    #[trigger] is_fault::<P, E, F>(*self, load, area, column, row, fault),
            },
    {
        self.gather(area, blank, &load)
    }

    /// Puts the tiles that meet a rectangle of the canvas together.
    fn gather<P: Copy, E, F: Fn(u32, u32) -> Result<Raster<P>, E>>(
        &self,
        area: TileArea,
        blank: P,
        load: &F,
    ) -> (output: Result<Raster<P>, TileFault<E>>)
        requires
            self.well_formed(),
            area.inside(self.width as int, self.height as int),
            area.width * area.height <= usize::MAX,
            forall|column: u32, row: u32|
                self.has_tile(column as int, row as int) ==> #[trigger] call_requires(
                    *load,
                    (column, row),
                ),
        ensures
            match output {
                Ok(image) => {
                    &&& image.well_formed()
                    &&& image.width == area.width
                    &&& image.height == area.height
                    &&& forall|x: int, y: int|
                        #![trigger image.at(x, y)]
                        0 <= x < area.width && 0 <= y < area.height ==> is_stored::<P, E, F>(
                            *self,
                            *load,
                            area.left + x,
                            area.top + y,
                            image.at(x, y),
                        )
                },
                Err(fault) => exists|column: int, row: int|
                    #[trigger] is_fault::<P, E, F>(*self, *load, area, column, row, fault),
            },
    {
        let mut image: Raster<P> = Raster::filled(area.width, area.height, blank);
        let mut row: u32 = 0;
        while row < self.tile_rows
            invariant
                row <= self.tile_rows,
                self.well_formed(),
                area.inside(self.width as int, self.height as int),
                image.well_formed(),
                image.width == area.width,
                image.height == area.height,
                forall|c: u32, r: u32|
                    self.has_tile(c as int, r as int) ==> #[trigger] call_requires(*load, (c, r)),
                forall|x: int, y: int|
                    #![trigger image.at(x, y)]
                    0 <= x < area.width && 0 <= y < area.height && is_done(
                        0,
                        row as int,
                        area.left + x,
                        area.top + y,
                    ) ==> is_stored::<P, E, F>(
                        *self,
                        *load,
                        area.left + x,
                        area.top + y,
                        image.at(x, y),
                    ),
            decreases self.tile_rows - row,
        {
            let mut column: u32 = 0;
            while column < self.tile_columns
                invariant
                    column <= self.tile_columns,
                    row < self.tile_rows,
                    self.well_formed(),
                    area.inside(self.width as int, self.height as int),
                    image.well_formed(),
                    image.width == area.width,
                    image.height == area.height,
                    forall|c: u32, r: u32|
                        self.has_tile(c as int, r as int) ==> #[trigger] call_requires(*load, (c, r)),
                    forall|x: int, y: int|
                        #![trigger image.at(x, y)]
                        0 <= x < area.width && 0 <= y < area.height && is_done(
                            column as int,
                            row as int,
                            area.left + x,
                            area.top + y,
                        ) ==> is_stored::<P, E, F>(
                            *self,
                            *load,
                            area.left + x,
                            area.top + y,
                            image.at(x, y),
                        ),
                decreases self.tile_columns - column,
            {
                let extent: TileArea = self.tile_extent(column, row);
                let x_start: u32 = larger(area.left, extent.left);
                let y_start: u32 = larger(area.top, extent.top);
                let x_end: u32 = smaller(area.left + area.width, extent.left + extent.width);
                let y_end: u32 = smaller(area.top + area.height, extent.top + extent.height);
                let ghost before = image;
                if x_start < x_end && y_start < y_end {
                    assert(self.has_tile(column as int, row as int));
                    assert(meets(*self, column as int, row as int, area));
                    let loaded: Result<Raster<P>, E> = (*load)(column, row);
                    let tile: Raster<P> = match loaded {
                        Ok(tile) => tile,
                        Err(error) => {
                            let fault: TileFault<E> = TileFault::Unreadable(error);
                            assert(is_fault::<P, E, F>(
                                *self,
                                *load,
                                area,
                                column as int,
                                row as int,
                                fault,
                            ));
                            return Err(fault);
                        },
                    };
                    if !has_shape(&tile, extent.width, extent.height) {
                        let fault: TileFault<E> = TileFault::WrongShape;
                        assert(call_ensures(
                            *load,
                            (column as int as u32, row as int as u32),
                            Ok::<Raster<P>, E>(tile),
                        ));
                        assert(is_fault::<P, E, F>(
                            *self,
                            *load,
                            area,
                            column as int,
                            row as int,
                            fault,
                        ));
                        return Err(fault);
                    }
                    let part: Raster<P> = tile.crop(
                        x_start - extent.left,
                        y_start - extent.top,
                        x_end - x_start,
                        y_end - y_start,
                    );
                    copy_region(&mut image, x_start - area.left, y_start - area.top, &part);
                    assert(is_loaded::<P, E, F>(*self, *load, column as int, row as int, tile));
                    assert forall|x: int, y: int|
                        #![trigger image.at(x, y)]
                        0 <= x < area.width && 0 <= y < area.height && is_done(
                            column + 1,
                            row as int,
                            area.left + x,
                            area.top + y,
                        ) implies is_stored::<P, E, F>(
                        *self,
                        *load,
                        area.left + x,
                        area.top + y,
                        image.at(x, y),
                    ) by {
                        let (gx, gy) = (area.left + x, area.top + y);
                        if extent.contains(gx, gy) {
                            lemma_place(*self, gx, gy, column as int, row as int);
                            assert(image.at(x, y) == part.at(gx - x_start, gy - y_start));
                            assert(image.at(x, y) == tile.at(place_in_tile(gx), place_in_tile(gy)));
                        } else {
                            law_tiles_partition_the_canvas(*self, gx, gy, column as int, row as int);
                            assert(image.at(x, y) == before.at(x, y));
                        }
                    }
                } else {
                    assert forall|x: int, y: int|
                        #![trigger image.at(x, y)]
                        0 <= x < area.width && 0 <= y < area.height && is_done(
                            column + 1,
                            row as int,
                            area.left + x,
                            area.top + y,
                        ) implies is_stored::<P, E, F>(
                        *self,
                        *load,
                        area.left + x,
                        area.top + y,
                        image.at(x, y),
                    ) by {
                        law_tiles_partition_the_canvas(
                            *self,
                            area.left + x,
                            area.top + y,
                            column as int,
                            row as int,
                        );
                    }
                }
                column += 1;
            }
            assert forall|x: int, y: int|
                #![trigger image.at(x, y)]
                0 <= x < area.width && 0 <= y < area.height && is_done(
                    0,
                    row + 1,
                    area.left + x,
                    area.top + y,
                ) implies is_stored::<P, E, F>(
                *self,
                *load,
                area.left + x,
                area.top + y,
                image.at(x, y),
            ) by {
                law_tiles_partition_the_canvas(*self, area.left + x, area.top + y, 0, 0);
            }
            row += 1;
        }
        assert forall|x: int, y: int|
            #![trigger image.at(x, y)]
            0 <= x < area.width && 0 <= y < area.height implies is_stored::<P, E, F>(
            *self,
            *load,
            area.left + x,
            area.top + y,
            image.at(x, y),
        ) by {
            law_tiles_partition_the_canvas(*self, area.left + x, area.top + y, 0, 0);
        }
        Ok(image)
    }
}

fn larger(a: u32, b: u32) -> (value: u32)
    ensures
        value == if a < b {
            b
        } else {
            a
        },
{
    if a < b {
        b
    } else {
        a
    }
}

fn smaller(a: u32, b: u32) -> (value: u32)
    ensures
        value == if a < b {
            a
        } else {
            b
        },
{
    if a < b {
        a
    } else {
        b
    }
}

fn has_shape<P>(image: &Raster<P>, width: u32, height: u32) -> (fits: bool)
    requires
        width <= STREAMING_TILE_SIZE,
        height <= STREAMING_TILE_SIZE,
    ensures
        fits == (image.well_formed() && image.width == width && image.height == height),
{
    if image.width != width || image.height != height {
        return false;
    }
    assert(width * height <= STREAMING_TILE_SIZE * STREAMING_TILE_SIZE) by (nonlinear_arith)
        requires
            width <= STREAMING_TILE_SIZE,
            height <= STREAMING_TILE_SIZE,
    ;
    image.pixels.len() == (width as usize) * (height as usize)
}

/// A sample at these coordinates falls into the tile.
pub open spec fn falls_in(layout: TileLayout, column: int, row: int, x: int, y: int) -> bool {
    layout.has_tile(column, row) && layout.extent(column, row).contains(x, y)
}

/// A load of a tile with a sample in it may end in this fault.
pub open spec fn is_sample_fault<P, E, F: Fn(u32, u32) -> Result<Raster<P>, E>>(
    layout: TileLayout,
    load: F,
    columns: Seq<u32>,
    rows: Seq<u32>,
    column: int,
    row: int,
    fault: TileFault<E>,
) -> bool {
    &&& exists|i: int, j: int|
        #![trigger columns[i], rows[j]]
        0 <= i < columns.len() && 0 <= j < rows.len() && falls_in(
            layout,
            column,
            row,
            columns[i] as int,
            rows[j] as int,
        )
    &&& match fault {
        TileFault::Unreadable(error) => call_ensures(
            load,
            (column as u32, row as u32),
            Err::<Raster<P>, E>(error),
        ),
        TileFault::WrongShape => exists|tile: Raster<P>|
            #[trigger] call_ensures(load, (column as u32, row as u32), Ok::<Raster<P>, E>(tile))
                && !layout.is_tile(column, row, &tile),
    }
}

/// The pixel of a sample: the stored one, or `blank` off the canvas.
pub open spec fn is_sample<P, E, F: Fn(u32, u32) -> Result<Raster<P>, E>>(
    layout: TileLayout,
    load: F,
    blank: P,
    x: int,
    y: int,
    pixel: P,
) -> bool {
    if x < layout.width && y < layout.height {
        is_stored::<P, E, F>(layout, load, x, y, pixel)
    } else {
        pixel == blank
    }
}

/// The image holds the samples of a lattice.
pub open spec fn is_lattice<P, E, F: Fn(u32, u32) -> Result<Raster<P>, E>>(
    layout: TileLayout,
    load: F,
    blank: P,
    columns: Seq<u32>,
    rows: Seq<u32>,
    image: &Raster<P>,
) -> bool {
    &&& image.well_formed()
    &&& image.width == columns.len()
    &&& image.height == rows.len()
    &&& forall|x: int, y: int|
        #![trigger image.at(x, y)]
        0 <= x < columns.len() && 0 <= y < rows.len() ==> is_sample::<P, E, F>(
            layout,
            load,
            blank,
            columns[x] as int,
            rows[y] as int,
            image.at(x, y),
        )
}

/// The first number from `start` on, `length` of them, that occurs in a list.
fn find_in_span(list: &Vec<u32>, start: u32, length: u32) -> (position: Option<usize>)
    requires
        start + length <= u32::MAX,
    ensures
        match position {
            Some(i) => i < list@.len() && start <= list@[i as int] < start + length,
            None => forall|i: int|
                0 <= i < list@.len() ==> !(start <= #[trigger] list@[i] < start + length),
        },
{
    let mut i: usize = 0;
    while i < list.len()
        invariant
            i <= list@.len(),
            start + length <= u32::MAX,
            forall|k: int| 0 <= k < i ==> !(start <= #[trigger] list@[k] < start + length),
        decreases list@.len() - i,
    {
        let value: u32 = list[i];
        if start <= value && value < start + length {
            return Some(i);
        }
        i += 1;
    }
    None
}

/// Takes the samples that fall into one tile out of it.
fn pick_from_tile<P: Copy>(
    image: &mut Raster<P>,
    columns: &Vec<u32>,
    rows: &Vec<u32>,
    extent: TileArea,
    tile: &Raster<P>,
)
    requires
        old(image).well_formed(),
        old(image).width == columns@.len(),
        old(image).height == rows@.len(),
        tile.well_formed(),
        tile.width == extent.width,
        tile.height == extent.height,
        extent.left + extent.width <= u32::MAX,
        extent.top + extent.height <= u32::MAX,
    ensures
        final(image).well_formed(),
        final(image).width == old(image).width,
        final(image).height == old(image).height,
        forall|x: int, y: int|
            0 <= x < columns@.len() && 0 <= y < rows@.len() ==> #[trigger] final(image).at(x, y)
                == if extent.contains(columns@[x] as int, rows@[y] as int) {
                tile.at(columns@[x] - extent.left, rows@[y] - extent.top)
            } else {
                old(image).at(x, y)
            },
{
    let ghost before = *image;
    let width: usize = columns.len();
    let ghost height = rows@.len();
    let size: usize = image.pixels.len();
    let ghost (w, h) = (width as int, height as int);
    proof {
        assert forall|i: int| 0 <= i < size implies 0 < w && 0 <= #[trigger] (i % w) < w && 0
            <= #[trigger] (i / w) < h by {
            assert(0 < w) by (nonlinear_arith)
                requires
                    0 < w * h,
                    0 <= w,
                    0 <= h,
            ;
            crate::grid::lemma_split(w, h, i);
        }
    }
    update_cells(
        &mut image.pixels,
        |i: usize, pixel: P| -> (next: P)
            requires
                0 < w,
                width == w,
                h == rows@.len(),
                w == columns@.len(),
                0 <= (i as int) % w < w,
                0 <= (i as int) / w < h,
                tile.well_formed(),
                tile.width == extent.width,
                tile.height == extent.height,
                extent.left + extent.width <= u32::MAX,
                extent.top + extent.height <= u32::MAX,
            ensures
                next == if extent.contains(
                    columns@[(i as int) % w] as int,
                    rows@[(i as int) / w] as int,
                ) {
                    tile.at(
                        columns@[(i as int) % w] - extent.left,
                        rows@[(i as int) / w] - extent.top,
                    )
                } else {
                    pixel
                }
            {
                let x: u32 = columns[i % width];
                let y: u32 = rows[i / width];
                if extent.left <= x && x < extent.left + extent.width && extent.top <= y && y
                    < extent.top + extent.height {
                    tile.pixel(x - extent.left, y - extent.top)
                } else {
                    pixel
                }
            },
    );
    assert forall|x: int, y: int|
        0 <= x < columns@.len() && 0 <= y < rows@.len() implies #[trigger] image.at(x, y)
        == if extent.contains(columns@[x] as int, rows@[y] as int) {
        tile.at(columns@[x] - extent.left, rows@[y] - extent.top)
    } else {
        before.at(x, y)
    } by {
        lemma_cell(w, h, x, y);
        let i = cell(w, x, y);
        assert(i % w == x && i / w == y);
        assert(image.pixels@[i] == image.at(x, y));
    }
}

impl TileLayout {
    /// Reads the pixels of the canvas at a lattice of samples. Only tiles with a
    /// sample in them are loaded; a sample off the canvas is `blank`.
    pub fn sample_tiles<P: Copy, E, F: Fn(u32, u32) -> Result<Raster<P>, E>>(
        &self,
        columns: &Vec<u32>,
        rows: &Vec<u32>,
        blank: P,
        load: F,
    ) -> (output: Result<Raster<P>, TileFault<E>>)
        requires
            self.well_formed(),
            columns@.len() <= u32::MAX,
            rows@.len() <= u32::MAX,
            columns@.len() * rows@.len() <= usize::MAX,
            forall|column: u32, row: u32|
                self.has_tile(column as int, row as int) ==> #[trigger] call_requires(
                    load,
                    (column, row),
                ),
        ensures
            match output {
                Ok(image) => is_lattice::<P, E, F>(*self, load, blank, columns@, rows@, &image),
                Err(fault) => exists|column: int, row: int|
                    #[trigger] is_sample_fault::<P, E, F>(
                        *self,
                        load,
                        columns@,
                        rows@,
                        column,
                        row,
                        fault,
                    ),
            },
    {
        let mut image: Raster<P> = Raster::filled(columns.len() as u32, rows.len() as u32, blank);
        assert forall|x: int, y: int|
            0 <= x < columns@.len() && 0 <= y < rows@.len() implies #[trigger] image.at(x, y)
            == blank by {
            lemma_cell(columns@.len() as int, rows@.len() as int, x, y);
        }
        let mut row: u32 = 0;
        while row < self.tile_rows
            invariant
                row <= self.tile_rows,
                self.well_formed(),
                columns@.len() <= u32::MAX,
                rows@.len() <= u32::MAX,
                image.well_formed(),
                image.width == columns@.len(),
                image.height == rows@.len(),
                forall|c: u32, r: u32|
                    self.has_tile(c as int, r as int) ==> #[trigger] call_requires(load, (c, r)),
                forall|x: int, y: int|
                    #![trigger image.at(x, y)]
                    0 <= x < columns@.len() && 0 <= y < rows@.len() ==> is_sampled_so_far::<P, E, F>(
                        *self,
                        load,
                        blank,
                        0,
                        row as int,
                        columns@[x] as int,
                        rows@[y] as int,
                        image.at(x, y),
                    ),
            decreases self.tile_rows - row,
        {
            let mut column: u32 = 0;
            while column < self.tile_columns
                invariant
                    column <= self.tile_columns,
                    row < self.tile_rows,
                    self.well_formed(),
                    columns@.len() <= u32::MAX,
                    rows@.len() <= u32::MAX,
                    image.well_formed(),
                    image.width == columns@.len(),
                    image.height == rows@.len(),
                    forall|c: u32, r: u32|
                        self.has_tile(c as int, r as int) ==> #[trigger] call_requires(load, (c, r)),
                    forall|x: int, y: int|
                        #![trigger image.at(x, y)]
                        0 <= x < columns@.len() && 0 <= y < rows@.len() ==> is_sampled_so_far::<
                            P,
                            E,
                            F,
                        >(
                            *self,
                            load,
                            blank,
                            column as int,
                            row as int,
                            columns@[x] as int,
                            rows@[y] as int,
                            image.at(x, y),
                        ),
                decreases self.tile_columns - column,
            {
                let extent: TileArea = self.tile_extent(column, row);
                let in_columns: Option<usize> = find_in_span(columns, extent.left, extent.width);
                let in_rows: Option<usize> = find_in_span(rows, extent.top, extent.height);
                let ghost before = image;
                if let (Some(i), Some(j)) = (in_columns, in_rows) {
                    assert(falls_in(
                        *self,
                        column as int,
                        row as int,
                        columns@[i as int] as int,
                        rows@[j as int] as int,
                    ));
                    let loaded: Result<Raster<P>, E> = load(column, row);
                    let tile: Raster<P> = match loaded {
                        Ok(tile) => tile,
                        Err(error) => {
                            let fault: TileFault<E> = TileFault::Unreadable(error);
                            assert(is_sample_fault::<P, E, F>(
                                *self,
                                load,
                                columns@,
                                rows@,
                                column as int,
                                row as int,
                                fault,
                            ));
                            return Err(fault);
                        },
                    };
                    if !has_shape(&tile, extent.width, extent.height) {
                        let fault: TileFault<E> = TileFault::WrongShape;
                        assert(call_ensures(
                            load,
                            (column as int as u32, row as int as u32),
                            Ok::<Raster<P>, E>(tile),
                        ));
                        assert(is_sample_fault::<P, E, F>(
                            *self,
                            load,
                            columns@,
                            rows@,
                            column as int,
                            row as int,
                            fault,
                        ));
                        return Err(fault);
                    }
                    pick_from_tile(&mut image, columns, rows, extent, &tile);
                    assert(is_loaded::<P, E, F>(*self, load, column as int, row as int, tile));
                    assert forall|x: int, y: int|
                        #![trigger image.at(x, y)]
                        0 <= x < columns@.len() && 0 <= y < rows@.len() implies is_sampled_so_far::<
                        P,
                        E,
                        F,
                    >(
                        *self,
                        load,
                        blank,
                        column + 1,
                        row as int,
                        columns@[x] as int,
                        rows@[y] as int,
                        image.at(x, y),
                    ) by {
                        let (gx, gy) = (columns@[x] as int, rows@[y] as int);
                        assert(is_sampled_so_far::<P, E, F>(
                            *self,
                            load,
                            blank,
                            column as int,
                            row as int,
                            gx,
                            gy,
                            before.at(x, y),
                        ));
                        if extent.contains(gx, gy) {
                            lemma_place(*self, gx, gy, column as int, row as int);
                            assert(image.at(x, y) == tile.at(place_in_tile(gx), place_in_tile(gy)));
                        } else if gx < self.width && gy < self.height {
                            law_tiles_partition_the_canvas(*self, gx, gy, column as int, row as int);
                        }
                    }
                } else {
                    assert forall|x: int, y: int|
                        #![trigger image.at(x, y)]
                        0 <= x < columns@.len() && 0 <= y < rows@.len() implies is_sampled_so_far::<
                        P,
                        E,
                        F,
                    >(
                        *self,
                        load,
                        blank,
                        column + 1,
                        row as int,
                        columns@[x] as int,
                        rows@[y] as int,
                        image.at(x, y),
                    ) by {
                        let (gx, gy) = (columns@[x] as int, rows@[y] as int);
                        assert(!extent.contains(gx, gy));
                        if gx < self.width && gy < self.height {
                            law_tiles_partition_the_canvas(*self, gx, gy, column as int, row as int);
                        }
                    }
                }
                column += 1;
            }
            assert forall|x: int, y: int|
                #![trigger image.at(x, y)]
                0 <= x < columns@.len() && 0 <= y < rows@.len() implies is_sampled_so_far::<P, E, F>(
                *self,
                load,
                blank,
                0,
                row + 1,
                columns@[x] as int,
                rows@[y] as int,
                image.at(x, y),
            ) by {
                let (gx, gy) = (columns@[x] as int, rows@[y] as int);
                if gx < self.width && gy < self.height {
                    law_tiles_partition_the_canvas(*self, gx, gy, 0, 0);
                }
            }
            row += 1;
        }
        assert forall|x: int, y: int|
            #![trigger image.at(x, y)]
            0 <= x < columns@.len() && 0 <= y < rows@.len() implies is_sample::<P, E, F>(
            *self,
            load,
            blank,
            columns@[x] as int,
            rows@[y] as int,
            image.at(x, y),
        ) by {
            let (gx, gy) = (columns@[x] as int, rows@[y] as int);
            if gx < self.width && gy < self.height {
                law_tiles_partition_the_canvas(*self, gx, gy, 0, 0);
            }
        }
        Ok(image)
    }
}

/// The pixel of a sample once the tiles before a column and row have been read.
spec fn is_sampled_so_far<P, E, F: Fn(u32, u32) -> Result<Raster<P>, E>>(
    layout: TileLayout,
    load: F,
    blank: P,
    column: int,
    row: int,
    x: int,
    y: int,
    pixel: P,
) -> bool {
    if x < layout.width && y < layout.height && is_done(column, row, x, y) {
        is_stored::<P, E, F>(layout, load, x, y, pixel)
    } else {
        pixel == blank
    }
}

impl TileLayout {
    /// Shows a search the rows of a row of tiles.
    fn scan_band<E, F: Fn(u32, u32) -> Result<Raster<u8>, E>>(
        &self,
        scan: &mut RectangleScan,
        row: u32,
        load: &F,
    ) -> (result: Result<(), TileFault<E>>)
        requires
            self.well_formed(),
            self.width * self.height <= usize::MAX,
            row < self.tile_rows,
            forall|c: u32, r: u32|
                self.has_tile(c as int, r as int) ==> #[trigger] call_requires(*load, (c, r)),
            old(scan).well_formed(),
            old(scan).columns() == self.width,
            old(scan).seen_rows() == row * STREAMING_TILE_SIZE,
            is_stored_above::<E, F>(
                *self,
                *load,
                old(scan).mask(),
                row * STREAMING_TILE_SIZE as int,
            ),
        ensures
            match result {
                Ok(_) => {
                    let rows = row * STREAMING_TILE_SIZE + tile_length(
                        self.height as int,
                        row as int,
                    );
                    &&& final(scan).well_formed()
                    &&& final(scan).columns() == self.width
                    &&& final(scan).seen_rows() == rows
                    &&& is_stored_above::<E, F>(*self, *load, final(scan).mask(), rows)
                },
                Err(fault) => exists|column: int, r: int|
                    #[trigger] is_fault::<u8, E, F>(*self, *load, self.whole(), column, r, fault),
            },
    {
        let (top_row, band_height) = tile_span(self.height, row);
        let area: TileArea = TileArea {
            left: 0,
            top: top_row,
            width: self.width,
            height: band_height,
        };
        let ghost w = self.width as int;
        proof {
            assert(w * area.height <= w * self.height) by (nonlinear_arith)
                requires
                    area.height <= self.height,
                    w >= 0,
            ;
        }
        let band: Raster<u8> = match self.gather(area, 0u8, load) {
            Ok(band) => band,
            Err(fault) => {
                proof {
                    let (c, r) = choose|c: int, r: int|
                        #[trigger] is_fault::<u8, E, F>(*self, *load, area, c, r, fault);
                    assert(is_fault::<u8, E, F>(*self, *load, self.whole(), c, r, fault));
                }
                return Err(fault);
            },
        };
        let width: usize = self.width as usize;
        let height: usize = band_height as usize;
        let total: usize = band.pixels.len();
        let ghost top = top_row as int;
        let mut start: usize = 0;
        let mut y: usize = 0;
        assert(w * 0 == 0) by (nonlinear_arith);
        while y < height
            invariant
                self.well_formed(),
                self.width * self.height <= usize::MAX,
                w == self.width,
                w == width,
                y <= height,
                height == area.height,
                top == area.top,
                area.left == 0,
                top + height <= self.height,
                band.well_formed(),
                band.width == w,
                band.height == height,
                total == band.pixels@.len(),
                total == w * height,
                start == w * y,
                start <= total,
                scan.well_formed(),
                scan.columns() == w,
                scan.seen_rows() == top + y,
                is_stored_above::<E, F>(*self, *load, scan.mask(), top + y),
                forall|x: int, j: int|
                    #![trigger band.at(x, j)]
                    0 <= x < w && 0 <= j < height ==> is_stored::<u8, E, F>(
                        *self,
                        *load,
                        area.left + x,
                        area.top + j,
                        band.at(x, j),
                    ),
            decreases height - y,
        {
            let ghost before = scan.mask();
            let ghost line = top + y;
            proof {
                assert(w * (y + 1) == w * y + w) by (nonlinear_arith);
                assert(w * (y + 1) <= w * height) by (nonlinear_arith)
                    requires
                        y + 1 <= height,
                        w >= 0,
                ;
                assert(w * (line + 1) <= w * self.height) by (nonlinear_arith)
                    requires
                        line + 1 <= self.height,
                        w >= 0,
                ;
                assert(w * (line + 1) == w * line + w) by (nonlinear_arith);
            }
            scan.add_row(&band.pixels, start);
            proof {
                let after = scan.mask();
                assert forall|x: int, j: int|
                    #![trigger after[cell(w, x, j)]]
                    0 <= x < w && 0 <= j < line + 1 implies is_stored::<u8, E, F>(
                    *self,
                    *load,
                    x,
                    j,
                    after[cell(w, x, j)],
                ) by {
                    lemma_cell(w, line + 1, x, j);
                    if j < line {
                        lemma_cell(w, line, x, j);
                        assert(after[cell(w, x, j)] == before[cell(w, x, j)]);
                    } else {
                        lemma_cell(w, height as int, x, y as int);
                        assert(line * w == w * line && y * w == w * y) by (nonlinear_arith);
                        assert(after[cell(w, x, j)] == band.at(x, y as int));
                        assert(is_stored::<u8, E, F>(
                            *self,
                            *load,
                            area.left + x,
                            area.top + y,
                            band.at(x, y as int),
                        ));
                    }
                }
            }
            start += width;
            y += 1;
        }
        Ok(())
    }

    /// The largest covered rectangle of the canvas. `load` gives the mask of a tile.
    pub fn largest_valid_rectangle<E, F: Fn(u32, u32) -> Result<Raster<u8>, E>>(
        &self,
        load: F,
    ) -> (found: Result<Option<Rectangle>, TileFault<E>>)
        requires
            self.well_formed(),
            self.width * self.height <= usize::MAX,
            self.width < usize::MAX,
            forall|column: u32, row: u32|
                self.has_tile(column as int, row as int) ==> #[trigger] call_requires(
                    load,
                    (column, row),
                ),
        ensures
            match found {
                Ok(rectangle) => exists|mask: Seq<u8>|
                    #[trigger] is_covered_rectangle::<E, F>(*self, load, mask, rectangle),
                Err(fault) => exists|column: int, row: int|
                    #[trigger] is_fault::<u8, E, F>(*self, load, self.whole(), column, row, fault),
            },
    {
        let width: usize = self.width as usize;
        let mut scan: RectangleScan = RectangleScan::new(width);
        let mut row: u32 = 0;
        let ghost w = self.width as int;
        while row < self.tile_rows
            invariant
                self.well_formed(),
                self.width * self.height <= usize::MAX,
                width == self.width,
                w == width,
                row <= self.tile_rows,
                forall|c: u32, r: u32|
                    self.has_tile(c as int, r as int) ==> #[trigger] call_requires(load, (c, r)),
                scan.well_formed(),
                scan.columns() == width,
                scan.seen_rows() <= self.height,
                row < self.tile_rows ==> scan.seen_rows() == row * STREAMING_TILE_SIZE,
                row == self.tile_rows ==> scan.seen_rows() == self.height,
                is_stored_above::<E, F>(*self, load, scan.mask(), scan.seen_rows() as int),
            decreases self.tile_rows - row,
        {
            match self.scan_band::<E, F>(&mut scan, row, &load) {
                Ok(()) => {},
                Err(fault) => {
                    return Err(fault);
                },
            }
            row += 1;
        }
        let rectangle: Option<Rectangle> = scan.found();
        assert(is_covered_rectangle::<E, F>(*self, load, scan.mask(), rectangle));
        Ok(rectangle)
    }

    /// The whole canvas.
    pub open spec fn whole(&self) -> TileArea {
        TileArea { left: 0, top: 0, width: self.width, height: self.height }
    }
}

/// The rows of a mask are those that loads of the tiles may give.
spec fn is_stored_above<E, F: Fn(u32, u32) -> Result<Raster<u8>, E>>(
    layout: TileLayout,
    load: F,
    mask: Seq<u8>,
    rows: int,
) -> bool {
    &&& mask.len() == layout.width * rows
    &&& forall|x: int, y: int|
        #![trigger mask[cell(layout.width as int, x, y)]]
        0 <= x < layout.width && 0 <= y < rows ==> is_stored::<u8, E, F>(
            layout,
            load,
            x,
            y,
            mask[cell(layout.width as int, x, y)],
        )
}

/// The mask of the canvas that loads of its tiles may give.
pub open spec fn is_canvas_mask<E, F: Fn(u32, u32) -> Result<Raster<u8>, E>>(
    layout: TileLayout,
    load: F,
    mask: Seq<u8>,
) -> bool {
    &&& mask.len() == layout.width * layout.height
    &&& forall|x: int, y: int|
        #![trigger mask[cell(layout.width as int, x, y)]]
        0 <= x < layout.width && 0 <= y < layout.height ==> is_stored::<u8, E, F>(
            layout,
            load,
            x,
            y,
            mask[cell(layout.width as int, x, y)],
        )
}

/// The rectangle is the largest one that the mask of the canvas leaves; there is none
/// if nothing is covered.
pub open spec fn is_covered_rectangle<E, F: Fn(u32, u32) -> Result<Raster<u8>, E>>(
    layout: TileLayout,
    load: F,
    mask: Seq<u8>,
    rectangle: Option<Rectangle>,
) -> bool {
    &&& is_canvas_mask::<E, F>(layout, load, mask)
    &&& match rectangle {
        Some(best) => is_largest_valid(mask, layout.width as int, layout.height as int, best),
        None => forall|i: int| 0 <= i < mask.len() ==> #[trigger] mask[i] == 0,
    }
}

/// The part of a region that lies in an area; `None` where they share no pixel.
pub fn shared_part(region: Bounds, area: TileArea) -> (part: Option<Bounds>)
    requires
        area.left + area.width <= u32::MAX,
        area.top + area.height <= u32::MAX,
    ensures
        match part {
            Some(shared) => {
                &&& shared.left <= shared.right
                &&& shared.top <= shared.bottom
                &&& forall|x: int, y: int| #[trigger]
                    shared.contains(x, y) <==> region.contains(x, y) && area.contains(x, y)
            },
            None => forall|x: int, y: int|
                !(#[trigger] region.contains(x, y) && area.contains(x, y)),
        },
{
    if area.width == 0 || area.height == 0 {
        return None;
    }
    let last_x: u32 = area.left + (area.width - 1);
    let last_y: u32 = area.top + (area.height - 1);
    let left: u32 = if region.left < area.left {
        area.left
    } else {
        region.left
    };
    let right: u32 = if region.right < last_x {
        region.right
    } else {
        last_x
    };
    let top: u32 = if region.top < area.top {
        area.top
    } else {
        region.top
    };
    let bottom: u32 = if region.bottom < last_y {
        region.bottom
    } else {
        last_y
    };
    if left > right || top > bottom {
        return None;
    }
    Some(Bounds { left, right, top, bottom })
}

/// A pixel of the canvas with its mask and its owner.
#[derive(Clone, Copy, Debug)]
pub struct CanvasPixel<P> {
    pub color: P,
    pub covered: u8,
    pub owner: u8,
}

/// A reduced view of a part of the canvas.
pub struct AnalysisRegion<P> {
    pub image: Raster<P>,
    pub mask: Raster<u8>,
    pub owner: Raster<u8>,
}

impl<P> AnalysisRegion<P> {
    pub open spec fn well_formed(&self) -> bool {
        &&& self.image.well_formed()
        &&& self.mask.well_formed()
        &&& self.owner.well_formed()
        &&& self.mask.same_size(&self.image)
        &&& self.owner.same_size(&self.image)
    }

    /// The view shows the covered ones of some pixels.
    pub open spec fn shows(&self, picked: &Raster<CanvasPixel<P>>, blank: P) -> bool {
        &&& self.well_formed()
        &&& picked.same_size(&self.image)
        &&& forall|i: int|
            #![trigger picked.pixels@[i]]
            0 <= i < picked.pixels@.len() ==> if picked.pixels@[i].covered == 0 {
                self.image.pixels@[i] == blank && self.mask.pixels@[i] == 0
                    && self.owner.pixels@[i] == 0
            } else {
                self.image.pixels@[i] == picked.pixels@[i].color && self.mask.pixels@[i] == 255
                    && self.owner.pixels@[i] == picked.pixels@[i].owner
            }
    }
}

/// The view shows pixels of the canvas at a lattice of samples.
pub open spec fn is_view<P, E, F: Fn(u32, u32) -> Result<Raster<CanvasPixel<P>>, E>>(
    layout: TileLayout,
    load: F,
    blank: P,
    columns: Seq<u32>,
    rows: Seq<u32>,
    region: AnalysisRegion<P>,
    picked: Raster<CanvasPixel<P>>,
) -> bool {
    &&& region.shows(&picked, blank)
    &&& is_lattice::<CanvasPixel<P>, E, F>(
        layout,
        load,
        CanvasPixel { color: blank, covered: 0, owner: 0 },
        columns,
        rows,
        &picked,
    )
}

/// Splits pixels into image, mask and owners; what is not covered stays blank.
pub fn split_region<P: Copy>(picked: &Raster<CanvasPixel<P>>, blank: P) -> (region: AnalysisRegion<
    P,
>)
    requires
        picked.well_formed(),
    ensures
        region.shows(picked, blank),
{
    let mut image: Vec<P> = Vec::new();
    let mut mask: Vec<u8> = Vec::new();
    let mut owner: Vec<u8> = Vec::new();
    let mut i: usize = 0;
    while i < picked.pixels.len()
        invariant
            i <= picked.pixels@.len(),
            image@.len() == i,
            mask@.len() == i,
            owner@.len() == i,
            forall|k: int|
                #![trigger picked.pixels@[k]]
                0 <= k < i ==> if picked.pixels@[k].covered == 0 {
                    image@[k] == blank && mask@[k] == 0 && owner@[k] == 0
                } else {
                    image@[k] == picked.pixels@[k].color && mask@[k] == 255 && owner@[k]
                        == picked.pixels@[k].owner
                },
        decreases picked.pixels@.len() - i,
    {
        let pixel: CanvasPixel<P> = picked.pixels[i];
        if pixel.covered == 0 {
            image.push(blank);
            mask.push(0);
            owner.push(0);
        } else {
            image.push(pixel.color);
            mask.push(255);
            owner.push(pixel.owner);
        }
        i += 1;
    }
    let (width, height) = (picked.width, picked.height);
    AnalysisRegion {
        image: Raster { width, height, pixels: image },
        mask: Raster { width, height, pixels: mask },
        owner: Raster { width, height, pixels: owner },
    }
}

impl TileLayout {
    /// A reduced view of the canvas at a lattice of samples.
    pub fn analysis_region<P: Copy, E, F: Fn(u32, u32) -> Result<Raster<CanvasPixel<P>>, E>>(
        &self,
        columns: &Vec<u32>,
        rows: &Vec<u32>,
        blank: P,
        load: F,
    ) -> (output: Result<AnalysisRegion<P>, TileFault<E>>)
        requires
            self.well_formed(),
            columns@.len() <= u32::MAX,
            rows@.len() <= u32::MAX,
            columns@.len() * rows@.len() <= usize::MAX,
            forall|column: u32, row: u32|
                self.has_tile(column as int, row as int) ==> #[trigger] call_requires(
                    load,
                    (column, row),
                ),
        ensures
            match output {
                Ok(region) => exists|picked: Raster<CanvasPixel<P>>|
                    #[trigger] is_view::<P, E, F>(
                        *self,
                        load,
                        blank,
                        columns@,
                        rows@,
                        region,
                        picked,
                    ),
                Err(fault) => exists|column: int, row: int|
                    #[trigger] is_sample_fault::<CanvasPixel<P>, E, F>(
                        *self,
                        load,
                        columns@,
                        rows@,
                        column,
                        row,
                        fault,
                    ),
            },
    {
        let nothing: CanvasPixel<P> = CanvasPixel { color: blank, covered: 0, owner: 0 };
        match self.sample_tiles(columns, rows, nothing, load) {
            Ok(picked) => {
                let region: AnalysisRegion<P> = split_region(&picked, blank);
                assert(is_view::<P, E, F>(*self, load, blank, columns@, rows@, region, picked));
                assert(exists|shown: Raster<CanvasPixel<P>>|
                    #[trigger] is_view::<P, E, F>(
                        *self,
                        load,
                        blank,
                        columns@,
                        rows@,
                        region,
                        shown,
                    ));
                let shown: Result<AnalysisRegion<P>, TileFault<E>> = Ok(region);
                assert(shown->Ok_0 == region);
                shown
            },
            Err(fault) => {
                assert(exists|column: int, row: int|
                    #[trigger] is_sample_fault::<CanvasPixel<P>, E, F>(
                        *self,
                        load,
                        columns@,
                        rows@,
                        column,
                        row,
                        fault,
                    ));
                Err(fault)
            },
        }
    }
}

/// The bytes of a tile whose samples are given by their bits.
pub open spec fn tile_bytes(samples: Seq<u32>) -> Seq<u8> {
    Seq::new(samples.len() * 4, |k: int| little_endian(samples[k / 4])[k % 4])
}

/// The bytes of a tile of three samples for each pixel.
pub fn encode_tile(samples: &Vec<u32>) -> (bytes: Vec<u8>)
    ensures
        bytes@ == tile_bytes(samples@),
{
    let mut bytes: Vec<u8> = Vec::new();
    let mut i: usize = 0;
    while i < samples.len()
        invariant
            i <= samples@.len(),
            bytes@.len() == i * 4,
            forall|k: int|
                0 <= k < bytes@.len() ==> #[trigger] bytes@[k] == little_endian(samples@[k / 4])[k
                    % 4],
        decreases samples@.len() - i,
    {
        let number: u32 = samples[i];
        let ghost before = bytes@;
        bytes.push((number % 256) as u8);
        bytes.push((number / 256 % 256) as u8);
        bytes.push((number / 65536 % 256) as u8);
        bytes.push((number / 16777216) as u8);
        assert forall|k: int| 0 <= k < bytes@.len() implies #[trigger] bytes@[k] == little_endian(
            samples@[k / 4],
        )[k % 4] by {
            if k < before.len() {
                assert(bytes@[k] == before[k]);
            } else {
                assert(k / 4 == i && k % 4 == k - before.len());
            }
        }
        i += 1;
    }
    assert(bytes@ =~= tile_bytes(samples@));
    bytes
}

/// A tile whose bytes do not have the length of its place.
#[derive(Clone, Copy, Debug, PartialEq, Eq, Structural)]
pub struct LengthMismatch {
    pub found: usize,
    pub expected: usize,
}

/// The samples of a tile of three samples for each pixel.
pub fn decode_tile(bytes: &Vec<u8>, width: u32, height: u32) -> (samples: Result<
    Vec<u32>,
    LengthMismatch,
>)
    requires
        width * height * 12 <= usize::MAX,
    ensures
        match samples {
            Ok(list) => {
                &&& bytes@.len() == width * height * 12
                &&& list@.len() == width * height * 3
                &&& forall|i: int|
                    0 <= i < list@.len() ==> #[trigger] list@[i] == number_at(bytes@, i * 4)
            },
            Err(mismatch) => bytes@.len() != width * height * 12 && mismatch.found == bytes@.len()
                && mismatch.expected == width * height * 12,
        },
{
    assert(0 <= width * height) by (nonlinear_arith);
    let count: usize = (width as usize) * (height as usize) * 3;
    let total: usize = bytes.len();
    if total != count * 4 {
        return Err(LengthMismatch { found: total, expected: count * 4 });
    }
    let mut list: Vec<u32> = Vec::new();
    let mut i: usize = 0;
    while i < count
        invariant
            i <= count,
            total == bytes@.len(),
            total == count * 4,
            list@.len() == i,
            forall|k: int| 0 <= k < i ==> #[trigger] list@[k] == number_at(bytes@, k * 4),
        decreases count - i,
    {
        let number: u32 = bytes[i * 4] as u32 + bytes[i * 4 + 1] as u32 * 256 + bytes[i * 4 + 2] as u32
            * 65536 + bytes[i * 4 + 3] as u32 * 16777216;
        list.push(number);
        i += 1;
    }
    Ok(list)
}

proof fn lemma_number_is_read(bytes: Seq<u8>, offset: int, number: u32)
    requires
        forall|k: int| 0 <= k < 4 ==> #[trigger] bytes[offset + k] == little_endian(number)[k],
    ensures
        number_at(bytes, offset) == number,
{
    lemma_number(number);
    assert(bytes[offset + 0] == little_endian(number)[0]);
    assert(bytes[offset + 1] == little_endian(number)[1]);
    assert(bytes[offset + 2] == little_endian(number)[2]);
    assert(bytes[offset + 3] == little_endian(number)[3]);
}

/// What is read back of a tile is what was written.
pub proof fn law_tiles_read_back(samples: Seq<u32>, i: int)
    requires
        0 <= i < samples.len(),
    ensures
        tile_bytes(samples).len() == samples.len() * 4,
        number_at(tile_bytes(samples), i * 4) == samples[i],
{
    let bytes = tile_bytes(samples);
    assert forall|k: int| 0 <= k < 4 implies #[trigger] bytes[i * 4 + k] == little_endian(
        samples[i],
    )[k] by {
        assert((i * 4 + k) / 4 == i && (i * 4 + k) % 4 == k);
    }
    lemma_number_is_read(bytes, i * 4, samples[i]);
}

/// The mask or the owners of a tile. What is absent or has the wrong length counts as
/// not covered.
pub fn mask_or_blank(bytes: Option<Vec<u8>>, width: u32, height: u32) -> (mask: Vec<u8>)
    requires
        width * height <= usize::MAX,
    ensures
        mask@.len() == width * height,
        mask@ == if bytes is Some && bytes->0@.len() == width * height {
            bytes->0@
        } else {
            Seq::new((width * height) as nat, |i: int| 0u8)
        },
{
    assert(0 <= width * height) by (nonlinear_arith);
    let expected: usize = (width as usize) * (height as usize);
    if let Some(mask) = bytes {
        if mask.len() == expected {
            return mask;
        }
    }
    let blank: Raster<u8> = Raster::filled(width, height, 0u8);
    assert(blank.pixels@ =~= Seq::new((width * height) as nat, |i: int| 0u8));
    blank.pixels
}

/// The character of a decimal digit.
pub open spec fn digit(value: int) -> char {
    if value == 0 {
        '0'
    } else if value == 1 {
        '1'
    } else if value == 2 {
        '2'
    } else if value == 3 {
        '3'
    } else if value == 4 {
        '4'
    } else if value == 5 {
        '5'
    } else if value == 6 {
        '6'
    } else if value == 7 {
        '7'
    } else if value == 8 {
        '8'
    } else {
        '9'
    }
}

/// A number in decimal notation.
pub open spec fn decimal(number: int) -> Seq<char>
    decreases number,
{
    if number < 10 {
        seq![digit(number)]
    } else {
        decimal(number / 10).push(digit(number % 10))
    }
}

fn push_decimal(text: &mut String, number: u32)
    ensures
        final(text)@ == old(text)@ + decimal(number as int),
    decreases number,
{
    let ghost before = text@;
    if number >= 10 {
        push_decimal(text, number / 10);
    }
    let last: u32 = number % 10;
    let character: char = if last == 0 {
        '0'
    } else if last == 1 {
        '1'
    } else if last == 2 {
        '2'
    } else if last == 3 {
        '3'
    } else if last == 4 {
        '4'
    } else if last == 5 {
        '5'
    } else if last == 6 {
        '6'
    } else if last == 7 {
        '7'
    } else if last == 8 {
        '8'
    } else {
        '9'
    };
    text.push(character);
    assert(text@ =~= before + decimal(number as int));
}

fn push_text(text: &mut String, more: &str)
    ensures
        final(text)@ == old(text)@ + more@,
{
    let ghost before = text@;
    let count: usize = more.unicode_len();
    let mut i: usize = 0;
    while i < count
        invariant
            count == more@.len(),
            i <= count,
            text@ == before + more@.take(i as int),
        decreases count - i,
    {
        text.push(more.get_char(i));
        i += 1;
        assert(more@.take(i as int) =~= more@.take(i - 1).push(more@[i - 1]));
    }
    assert(more@.take(more@.len() as int) =~= more@);
}

/// The name under which a plane of a tile is stored.
pub open spec fn tile_name_of(column: int, row: int, suffix: Seq<char>) -> Seq<char> {
    seq!['t', 'i', 'l', 'e', '-'] + (decimal(column) + (seq!['-'] + (decimal(row) + (seq!['.']
        + suffix))))
}

/// The name under which a plane of a tile is stored, such as `tile-2-0.mask`.
pub fn tile_name(column: u32, row: u32, suffix: &str) -> (name: String)
    ensures
        name@ == tile_name_of(column as int, row as int, suffix@),
{
    let mut name: String = String::new();
    name.push('t');
    name.push('i');
    name.push('l');
    name.push('e');
    name.push('-');
    push_decimal(&mut name, column);
    name.push('-');
    push_decimal(&mut name, row);
    name.push('.');
    push_text(&mut name, suffix);
    assert(name@ =~= tile_name_of(column as int, row as int, suffix@));
    name
}

proof fn lemma_decimal(number: int)
    requires
        0 <= number,
    ensures
        decimal(number).len() > 0,
        number >= 10 ==> decimal(number).len() > 1,
        !decimal(number).contains('-'),
        !decimal(number).contains('.'),
    decreases number,
{
    if number >= 10 {
        lemma_decimal(number / 10);
        let rest = decimal(number / 10);
        assert(decimal(number) == rest.push(digit(number % 10)));
        assert forall|i: int| 0 <= i < decimal(number).len() implies #[trigger] decimal(number)[i]
            != '-' && decimal(number)[i] != '.' by {
            if i < rest.len() {
                assert(decimal(number)[i] == rest[i]);
                assert(rest.contains(rest[i]));
            }
        }
    }
}

proof fn lemma_decimal_is_injective(a: int, b: int)
    requires
        0 <= a,
        0 <= b,
        decimal(a) == decimal(b),
    ensures
        a == b,
    decreases a,
{
    lemma_decimal(a);
    lemma_decimal(b);
    if a < 10 {
        assert(decimal(a)[0] == digit(a));
        assert(decimal(b)[0] == digit(b));
    } else {
        let (p, q) = (decimal(a / 10), decimal(b / 10));
        assert(decimal(a) == p.push(digit(a % 10)));
        assert(b >= 10);
        assert(decimal(b) == q.push(digit(b % 10)));
        assert(decimal(a).drop_last() =~= p);
        assert(decimal(b).drop_last() =~= q);
        lemma_decimal_is_injective(a / 10, b / 10);
        assert(decimal(a).last() == digit(a % 10));
        assert(decimal(b).last() == digit(b % 10));
    }
}

/// Text can be split at the first occurrence of a character in one way only.
proof fn lemma_split_is_unique(
    p: Seq<char>,
    rest: Seq<char>,
    q: Seq<char>,
    other: Seq<char>,
    mark: char,
)
    requires
        !p.contains(mark),
        !q.contains(mark),
        p + (seq![mark] + rest) == q + (seq![mark] + other),
    ensures
        p == q,
        rest == other,
{
    let text = p + (seq![mark] + rest);
    let same = q + (seq![mark] + other);
    assert(text[p.len() as int] == mark);
    assert(same[q.len() as int] == mark);
    if p.len() < q.len() {
        assert(same[p.len() as int] == q[p.len() as int]);
        assert(q.contains(q[p.len() as int]));
    }
    if q.len() < p.len() {
        assert(text[q.len() as int] == p[q.len() as int]);
        assert(p.contains(p[q.len() as int]));
    }
    assert forall|i: int| 0 <= i < p.len() implies p[i] == q[i] by {
        assert(text[i] == p[i]);
        assert(same[i] == q[i]);
    }
    assert(p =~= q);
    assert(text.skip(p.len() as int + 1) =~= rest);
    assert(same.skip(q.len() as int + 1) =~= other);
}

/// No two planes of tiles are stored under one name.
pub proof fn law_tile_names_differ(
    column: int,
    row: int,
    suffix: Seq<char>,
    other_column: int,
    other_row: int,
    other_suffix: Seq<char>,
)
    requires
        0 <= column,
        0 <= row,
        0 <= other_column,
        0 <= other_row,
        tile_name_of(column, row, suffix) == tile_name_of(other_column, other_row, other_suffix),
    ensures
        column == other_column,
        row == other_row,
        suffix == other_suffix,
{
    let name = tile_name_of(column, row, suffix);
    let other = tile_name_of(other_column, other_row, other_suffix);
    let (tail, other_tail) = (
        decimal(row) + (seq!['.'] + suffix),
        decimal(other_row) + (seq!['.'] + other_suffix),
    );
    assert(name.skip(5) =~= decimal(column) + (seq!['-'] + tail));
    assert(other.skip(5) =~= decimal(other_column) + (seq!['-'] + other_tail));
    lemma_decimal(column);
    lemma_decimal(other_column);
    lemma_decimal(row);
    lemma_decimal(other_row);
    lemma_split_is_unique(decimal(column), tail, decimal(other_column), other_tail, '-');
    lemma_split_is_unique(decimal(row), suffix, decimal(other_row), other_suffix, '.');
    lemma_decimal_is_injective(column, other_column);
    lemma_decimal_is_injective(row, other_row);
}

/// A pixel of the canvas is stored at its distance from the corner of its tile.
pub proof fn law_pixels_keep_their_place_in_a_tile(layout: TileLayout, x: int, y: int)
    requires
        layout.well_formed(),
        0 <= x < layout.width,
        0 <= y < layout.height,
    ensures
        ({
            let extent = layout.extent(tile_of(x), tile_of(y));
            &&& extent.left + place_in_tile(x) == x
            &&& extent.top + place_in_tile(y) == y
            &&& 0 <= place_in_tile(x) < extent.width
            &&& 0 <= place_in_tile(y) < extent.height
            &&& extent.width <= 1024
            &&& extent.height <= 1024
            &&& extent.left % 1024 == 0
            &&& extent.top % 1024 == 0
        }),
{
    law_tiles_partition_the_canvas(layout, x, y, tile_of(x), tile_of(y));
}

/// All tiles are 1024 pixels wide and high, but for those at the far ends, which hold the rest.
pub proof fn law_only_the_last_tiles_are_shorter(length: int, index: int)
    requires
        0 <= index < tiles_along(length),
    ensures
        index + 1 < tiles_along(length) ==> tile_length(length, index) == 1024,
        index + 1 == tiles_along(length) ==> 1024 * index + tile_length(length, index) == length,
        0 < tile_length(length, index) <= 1024,
{
}

/// A tile meets a rectangle exactly if a pixel lies in both.
pub proof fn law_tiles_meet_where_they_share_a_pixel(
    layout: TileLayout,
    column: int,
    row: int,
    area: TileArea,
)
    requires
        layout.well_formed(),
        layout.has_tile(column, row),
        layout.extent(column, row).width > 0,
        layout.extent(column, row).height > 0,
        area.width > 0,
        area.height > 0,
    ensures
        meets(layout, column, row, area) <==> exists|x: int, y: int|
            #![trigger layout.extent(column, row).contains(x, y)]
            layout.extent(column, row).contains(x, y) && area.left <= x < area.left + area.width
                && area.top <= y < area.top + area.height,
{
    let extent = layout.extent(column, row);
    if meets(layout, column, row, area) {
        let x = if extent.left < area.left {
            area.left as int
        } else {
            extent.left as int
        };
        let y = if extent.top < area.top {
            area.top as int
        } else {
            extent.top as int
        };
        assert(extent.contains(x, y));
    }
}

/// A view shows a pixel with its colour and owner exactly where it is covered.
pub proof fn law_views_show_covered_pixels<P>(
    region: AnalysisRegion<P>,
    picked: Raster<CanvasPixel<P>>,
    blank: P,
    i: int,
)
    requires
        region.shows(&picked, blank),
        0 <= i < picked.pixels@.len(),
    ensures
        region.mask.pixels@[i] > 0 <==> picked.pixels@[i].covered > 0,
        picked.pixels@[i].covered > 0 ==> region.image.pixels@[i] == picked.pixels@[i].color
            && region.owner.pixels@[i] == picked.pixels@[i].owner,
        picked.pixels@[i].covered == 0 ==> region.image.pixels@[i] == blank
            && region.owner.pixels@[i] == 0,
{
    let pixel = picked.pixels@[i];
    assert(pixel.covered == picked.pixels@[i].covered);
}

/// Samples off the canvas are blank.
pub proof fn law_samples_off_the_canvas_are_blank<P, E, F: Fn(u32, u32) -> Result<Raster<P>, E>>(
    layout: TileLayout,
    load: F,
    blank: P,
    x: int,
    y: int,
    pixel: P,
)
    requires
        is_sample::<P, E, F>(layout, load, blank, x, y, pixel),
    ensures
        x >= layout.width || y >= layout.height ==> pixel == blank,
        x < layout.width && y < layout.height ==> is_stored::<P, E, F>(layout, load, x, y, pixel),
{
}

/// An area lies on a canvas exactly if what it ends with does, at the border too.
pub proof fn law_areas_may_touch_the_border(area: TileArea, width: int, height: int)
    ensures
        area.inside(width, height) <==> width - area.left - area.width >= 0 && height - area.top
            - area.height >= 0,
{
}

} // verus!
