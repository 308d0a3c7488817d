//! The Deep Zoom tiler: cuts an image into a pyramid of JPEG tiles and
//! writes the descriptor that goes with them.

use vstd::prelude::*;
use vstd::string::*;
use vstd::utf8::encode_utf8;
use crate::codec::{
    encode_jpeg, jpeg_encodable, jpeg_encoded, lanczos3_resampled, resampling_fits_memory,
    resize_lanczos3, JPEG_MAX_SIDE, TILE_QUALITY,
};
use crate::error::TilingError;
use crate::pyramid::{
    default_level_count, default_levels, lemma_ceil_div_bounds, lemma_finest_level_is_full_size,
    lemma_level_dimension_bounds, lemma_tile_membership,
    lemma_tile_span, lemma_tiles_cover, lemma_tiles_partition, level_dimension, scaled_dimension,
    tile_count, tile_count_u32, tile_end, tile_in_range, tile_span, tile_start,
};
use crate::raster::{Raster, RasterView};
use crate::text::{
    descriptor_document, descriptor_path, descriptor_path_string, descriptor_text,
    lemma_tile_path_is_no_descriptor, lemma_tile_path_len, lemma_tile_paths_distinct, tile_path,
    tile_path_string,
};

verus! {

/// A stored file: the path it is stored under and its content.
#[derive(Debug)]
pub struct TileBlob {
    pub path: String,
    pub bytes: Vec<u8>,
}

impl View for TileBlob {
    type V = (Seq<char>, Seq<u8>);

    open spec fn view(&self) -> (Seq<char>, Seq<u8>) {
        (self.path@, self.bytes@)
    }
}

/// Paths and contents of a list of stored files.
pub open spec fn blobs_view(blobs: Seq<TileBlob>) -> Seq<(Seq<char>, Seq<u8>)> {
    blobs.map_values(|blob: TileBlob| blob@)
}

/// Position of a tile in a pyramid.
pub struct TileKey {
    pub level: nat,
    pub col: nat,
    pub row: nat,
}

/// The tiles of one column of a level, from the top down.
pub open spec fn column_keys(level: nat, col: nat, rows: nat) -> Seq<TileKey> {
    Seq::new(rows, |row: int| TileKey { level, col, row: row as nat })
}

/// The tiles of the first `cols` columns of a level of `rows` rows, column
/// after column.
pub open spec fn grid_keys(level: nat, cols: nat, rows: nat) -> Seq<TileKey>
    decreases cols,
{
    if cols == 0 {
        Seq::empty()
    } else {
        grid_keys(level, (cols - 1) as nat, rows) + column_keys(level, (cols - 1) as nat, rows)
    }
}

/// What a tiler works on: the image, the name its files are stored under,
/// and the shape of the pyramid.
pub struct PyramidView {
    pub image: RasterView,
    pub name: Seq<char>,
    pub tile_size: nat,
    pub overlap: nat,
    pub levels: nat,
}

impl PyramidView {
    /// The image is a raster that the resampler can take, and tiles are not
    /// empty.
    pub open spec fn wf(self) -> bool {
        &&& self.image.wf()
        &&& resampling_fits_memory(self.image.width, self.image.height)
        &&& self.tile_size >= 1
    }

    /// Width of the image of a level.
    pub open spec fn level_width(self, level: nat) -> nat {
        level_dimension(self.image.width as int, self.levels as int, level as int) as nat
    }

    /// Height of the image of a level.
    pub open spec fn level_height(self, level: nat) -> nat {
        level_dimension(self.image.height as int, self.levels as int, level as int) as nat
    }

    /// Number of tile columns of a level.
    pub open spec fn columns(self, level: nat) -> nat {
        tile_count(self.level_width(level) as int, self.tile_size as int) as nat
    }

    /// Number of tile rows of a level.
    pub open spec fn rows(self, level: nat) -> nat {
        tile_count(self.level_height(level) as int, self.tile_size as int) as nat
    }

    /// The image of a level: the image itself where the level has its size,
    /// and the image resampled to the level's size otherwise.
    pub open spec fn level_image(self, level: nat) -> RasterView {
        let width = self.level_width(level);
        let height = self.level_height(level);
        if width == self.image.width && height == self.image.height {
            self.image
        } else {
            RasterView {
                width,
                height,
                samples: lanczos3_resampled(
                    self.image.samples,
                    self.image.width,
                    self.image.height,
                    width,
                    height,
                ),
            }
        }
    }

    /// The tile belongs to the grid of its level.
    pub open spec fn in_grid(self, key: TileKey) -> bool {
        &&& key.level < self.levels
        &&& key.col < self.columns(key.level)
        &&& key.row < self.rows(key.level)
    }

    /// The rectangle `(x, y, x2, y2)` of a tile in the image of its level,
    /// `x2` and `y2` excluded.
    pub open spec fn tile_rect(self, key: TileKey) -> (int, int, int, int) {
        let t = self.tile_size as int;
        let o = self.overlap as int;
        (
            tile_start(key.col as int, t, o),
            tile_start(key.row as int, t, o),
            tile_end(key.col as int, t, o, self.level_width(key.level) as int),
            tile_end(key.row as int, t, o, self.level_height(key.level) as int),
        )
    }

    /// The rectangle of the tile lies in the image of its level.
    pub open spec fn rect_in_range(self, key: TileKey) -> bool {
        &&& tile_in_range(
            key.col as int,
            self.tile_size as int,
            self.overlap as int,
            self.level_width(key.level) as int,
        )
        &&& tile_in_range(
            key.row as int,
            self.tile_size as int,
            self.overlap as int,
            self.level_height(key.level) as int,
        )
    }

    /// The tile can be cut and encoded.
    pub open spec fn tile_ok(self, key: TileKey) -> bool {
        let (x, y, x2, y2) = self.tile_rect(key);
        &&& self.rect_in_range(key)
        &&& jpeg_encodable((x2 - x) as nat, (y2 - y) as nat)
    }

    /// The pixels of a tile.
    pub open spec fn tile_raster(self, key: TileKey) -> RasterView {
        let (x, y, x2, y2) = self.tile_rect(key);
        self.level_image(key.level).crop(x as nat, y as nat, (x2 - x) as nat, (y2 - y) as nat)
    }

    /// The stored file of a tile.
    pub open spec fn tile_blob(self, key: TileKey) -> (Seq<char>, Seq<u8>) {
        let raster = self.tile_raster(key);
        (
            tile_path(self.name, key.level, key.col, key.row),
            jpeg_encoded(raster.samples, raster.width, raster.height, TILE_QUALITY),
        )
    }

    /// The stored file of the descriptor.
    pub open spec fn descriptor_blob(self) -> (Seq<char>, Seq<u8>) {
        (
            descriptor_path(self.name),
            encode_utf8(
                descriptor_text(self.tile_size, self.overlap, self.image.width, self.image.height),
            ),
        )
    }

    /// The tiles of a level in the order in which they are made.
    pub open spec fn level_keys(self, level: nat) -> Seq<TileKey> {
        grid_keys(level, self.columns(level), self.rows(level))
    }

    /// The tiles of the levels below `level`, level after level.
    pub open spec fn keys_below(self, level: nat) -> Seq<TileKey>
        decreases level,
    {
        if level == 0 {
            Seq::empty()
        } else {
            self.keys_below((level - 1) as nat) + self.level_keys((level - 1) as nat)
        }
    }

    /// All tiles of the pyramid in the order in which they are made.
    pub open spec fn tile_keys(self) -> Seq<TileKey> {
        self.keys_below(self.levels)
    }

    /// The stored files of the given tiles.
    pub open spec fn tile_blobs(self, keys: Seq<TileKey>) -> Seq<(Seq<char>, Seq<u8>)> {
        keys.map_values(|key: TileKey| self.tile_blob(key))
    }

    /// Everything the tiler stores: the tiles, then the descriptor.
    pub open spec fn blobs(self) -> Seq<(Seq<char>, Seq<u8>)> {
        self.tile_blobs(self.tile_keys()).push(self.descriptor_blob())
    }

    /// Every one of the given tiles can be cut and encoded.
    pub open spec fn all_ok(self, keys: Seq<TileKey>) -> bool {
        forall|i: int| 0 <= i < keys.len() ==> self.tile_ok(#[trigger] keys[i])
    }

    /// The tile at `index` is the first of the given tiles that cannot be
    /// cut or encoded.
    pub open spec fn first_failure(self, keys: Seq<TileKey>, index: int) -> bool {
        &&& 0 <= index < keys.len()
        &&& !self.tile_ok(keys[index])
        &&& self.all_ok(keys.take(index))
    }

    /// `error` is what the tiler reports when the given tile fails.
    pub open spec fn reports(self, key: TileKey, error: TilingError) -> bool {
        if self.rect_in_range(key) {
            error matches TilingError::EncodingFailed { level, col, row, .. } && level == key.level
                && col == key.col && row == key.row
        } else {
            error matches TilingError::InvalidTile { level, col, row } && level == key.level && col
                == key.col && row == key.row
        }
    }
}

/// Storing files one list after another stores the lists' files.
pub proof fn lemma_tile_blobs_add(view: PyramidView, a: Seq<TileKey>, b: Seq<TileKey>)
    ensures
        view.tile_blobs(a + b) == view.tile_blobs(a) + view.tile_blobs(b),
        view.tile_blobs(Seq::<TileKey>::empty()) == Seq::<(Seq<char>, Seq<u8>)>::empty(),
        view.all_ok(a + b) <==> view.all_ok(a) && view.all_ok(b),
{
    assert(view.tile_blobs(a + b) =~= view.tile_blobs(a) + view.tile_blobs(b));
    assert(view.tile_blobs(Seq::<TileKey>::empty()) =~= Seq::<(Seq<char>, Seq<u8>)>::empty());
    if view.all_ok(a + b) {
        assert forall|i: int| 0 <= i < a.len() implies view.tile_ok(#[trigger] a[i]) by {
            assert((a + b)[i] == a[i]);
        }
        assert forall|i: int| 0 <= i < b.len() implies view.tile_ok(#[trigger] b[i]) by {
            assert((a + b)[a.len() + i] == b[i]);
        }
    }
    if view.all_ok(a) && view.all_ok(b) {
        assert forall|i: int| 0 <= i < (a + b).len() implies view.tile_ok(
            #[trigger] (a + b)[i],
        ) by {
            if i < a.len() {
                assert((a + b)[i] == a[i]);
            } else {
                assert((a + b)[i] == b[i - a.len()]);
            }
        }
    }
}

/// A level has as many tiles as its grid has cells.
pub proof fn lemma_grid_keys_len(level: nat, cols: nat, rows: nat)
    ensures
        grid_keys(level, cols, rows).len() == cols * rows,
    decreases cols,
{
    if cols > 0 {
        lemma_grid_keys_len(level, (cols - 1) as nat, rows);
        assert(cols * rows == (cols - 1) * rows + rows) by (nonlinear_arith);
    } else {
        assert(cols * rows == 0) by (nonlinear_arith)
            requires
                cols == 0,
        ;
    }
}

/// The tile at `(col, row)` stands at position `col * rows + row` among the
/// tiles of its level.
pub proof fn lemma_grid_keys_index(level: nat, cols: nat, rows: nat, col: nat, row: nat)
    requires
        col < cols,
        row < rows,
    ensures
        0 <= col * rows + row < grid_keys(level, cols, rows).len(),
        grid_keys(level, cols, rows)[(col * rows + row) as int] == (TileKey { level, col, row }),
    decreases cols,
{
    lemma_grid_keys_len(level, cols, rows);
    lemma_grid_keys_len(level, (cols - 1) as nat, rows);
    assert(cols * rows == (cols - 1) * rows + rows) by (nonlinear_arith);
    if col == cols - 1 {
    } else {
        lemma_grid_keys_index(level, (cols - 1) as nat, rows, col, row);
        assert(col * rows + row < (cols - 1) * rows) by (nonlinear_arith)
            requires
                col + 1 <= cols - 1,
                row < rows,
        ;
    }
}

/// The tiles made before `(col, row)` in a level are the beginning of the
/// level's tiles, and `(col, row)` comes right behind them.
pub proof fn lemma_grid_keys_prefix(level: nat, cols: nat, rows: nat, col: nat, row: nat)
    requires
        col < cols,
        row <= rows,
    ensures
        grid_keys(level, cols, rows).take((col * rows + row) as int) == grid_keys(level, col, rows)
            + column_keys(level, col, row),
        col * rows + row <= grid_keys(level, cols, rows).len(),
    decreases cols,
{
    lemma_grid_keys_len(level, cols, rows);
    lemma_grid_keys_len(level, (cols - 1) as nat, rows);
    lemma_grid_keys_len(level, col, rows);
    assert(cols * rows == (cols - 1) * rows + rows) by (nonlinear_arith);
    let whole = grid_keys(level, cols, rows);
    if col == cols - 1 {
        assert(whole.take((col * rows + row) as int) =~= grid_keys(level, col, rows) + column_keys(
            level,
            col,
            row,
        ));
    } else {
        lemma_grid_keys_prefix(level, (cols - 1) as nat, rows, col, row);
        assert(col * rows + row <= (cols - 1) * rows) by (nonlinear_arith)
            requires
                col + 1 <= cols - 1,
                row <= rows,
        ;
        let at = (col * rows + row) as int;
        assert(whole.take(at) =~= grid_keys(level, (cols - 1) as nat, rows).take(at));
    }
}

/// The tiles of the levels below `level` are the beginning of the tiles of
/// the levels below any higher one.
pub proof fn lemma_keys_below_prefix(view: PyramidView, level: nat, above: nat)
    requires
        level <= above,
    ensures
        view.keys_below(level).len() <= view.keys_below(above).len(),
        view.keys_below(above).take(view.keys_below(level).len() as int) == view.keys_below(
            level,
        ),
    decreases above,
{
    if level == above {
        assert(view.keys_below(above).take(view.keys_below(level).len() as int)
            =~= view.keys_below(level));
    } else {
        lemma_keys_below_prefix(view, level, (above - 1) as nat);
        let shorter = view.keys_below((above - 1) as nat);
        assert(view.keys_below(above).take(view.keys_below(level).len() as int) =~= shorter.take(
            view.keys_below(level).len() as int,
        ));
    }
}

/// Every tile of a level's list lies in the level's grid.
pub proof fn lemma_grid_keys_members(level: nat, cols: nat, rows: nat, i: int)
    requires
        0 <= i < grid_keys(level, cols, rows).len(),
    ensures
        grid_keys(level, cols, rows)[i].level == level,
        grid_keys(level, cols, rows)[i].col < cols,
        grid_keys(level, cols, rows)[i].row < rows,
    decreases cols,
{
    if cols > 0 {
        let earlier = grid_keys(level, (cols - 1) as nat, rows);
        if i < earlier.len() {
            lemma_grid_keys_members(level, (cols - 1) as nat, rows, i);
        }
    }
}

/// No tile stands twice in a level's list.
pub proof fn lemma_grid_keys_distinct(level: nat, cols: nat, rows: nat, i: int, j: int)
    requires
        0 <= i < j < grid_keys(level, cols, rows).len(),
    ensures
        grid_keys(level, cols, rows)[i] != grid_keys(level, cols, rows)[j],
    decreases cols,
{
    if cols > 0 {
        let earlier = grid_keys(level, (cols - 1) as nat, rows);
        if j < earlier.len() {
            lemma_grid_keys_distinct(level, (cols - 1) as nat, rows, i, j);
        } else if i < earlier.len() {
            lemma_grid_keys_members(level, (cols - 1) as nat, rows, i);
        }
    }
}

/// Every tile of the list of the levels below `level` lies in the grid of a
/// level below `level`.
pub proof fn lemma_keys_below_members(view: PyramidView, level: nat, i: int)
    requires
        0 <= i < view.keys_below(level).len(),
    ensures
        view.keys_below(level)[i].level < level,
        view.keys_below(level)[i].col < view.columns(view.keys_below(level)[i].level),
        view.keys_below(level)[i].row < view.rows(view.keys_below(level)[i].level),
    decreases level,
{
    if level > 0 {
        let earlier = view.keys_below((level - 1) as nat);
        if i < earlier.len() {
            lemma_keys_below_members(view, (level - 1) as nat, i);
        } else {
            lemma_grid_keys_members(
                (level - 1) as nat,
                view.columns((level - 1) as nat),
                view.rows((level - 1) as nat),
                i - earlier.len(),
            );
        }
    }
}

/// No tile stands twice in the list of the levels below `level`.
pub proof fn lemma_keys_below_distinct(view: PyramidView, level: nat, i: int, j: int)
    requires
        0 <= i < j < view.keys_below(level).len(),
    ensures
        view.keys_below(level)[i] != view.keys_below(level)[j],
    decreases level,
{
    if level > 0 {
        let earlier = view.keys_below((level - 1) as nat);
        if j < earlier.len() {
            lemma_keys_below_distinct(view, (level - 1) as nat, i, j);
        } else if i < earlier.len() {
            lemma_keys_below_members(view, (level - 1) as nat, i);
            lemma_grid_keys_members(
                (level - 1) as nat,
                view.columns((level - 1) as nat),
                view.rows((level - 1) as nat),
                j - earlier.len(),
            );
        } else {
            lemma_grid_keys_distinct(
                (level - 1) as nat,
                view.columns((level - 1) as nat),
                view.rows((level - 1) as nat),
                i - earlier.len(),
                j - earlier.len(),
            );
        }
    }
}

/// Every tile of every level's grid stands in the list of the levels below
/// `level`, if its level is below `level`.
pub proof fn lemma_keys_below_complete(view: PyramidView, level: nat, key: TileKey)
    requires
        key.level < level,
        key.col < view.columns(key.level),
        key.row < view.rows(key.level),
    ensures
        view.keys_below(level).contains(key),
    decreases level,
{
    let earlier = view.keys_below((level - 1) as nat);
    let here = view.level_keys((level - 1) as nat);
    if key.level < level - 1 {
        lemma_keys_below_complete(view, (level - 1) as nat, key);
        let i = choose|i: int| 0 <= i < earlier.len() && earlier[i] == key;
        assert(view.keys_below(level)[i] == key);
    } else {
        let cols = view.columns(key.level);
        let rows = view.rows(key.level);
        lemma_grid_keys_index(key.level, cols, rows, key.col, key.row);
        let at = (key.col * rows + key.row) as int;
        assert(here[at] == key);
        assert(view.keys_below(level)[earlier.len() + at] == key);
    }
}

/// The tiles of a pyramid are the tiles of the grids of its levels, each
/// once.
pub proof fn lemma_tile_keys_are_the_grid(view: PyramidView)
    ensures
        forall|i: int|
            0 <= i < view.tile_keys().len() ==> view.in_grid(#[trigger] view.tile_keys()[i]),
        forall|key: TileKey| view.in_grid(key) ==> #[trigger] view.tile_keys().contains(key),
        forall|i: int, j: int|
            0 <= i < j < view.tile_keys().len() ==> #[trigger] view.tile_keys()[i]
                != #[trigger] view.tile_keys()[j],
{
    assert forall|i: int| 0 <= i < view.tile_keys().len() implies view.in_grid(
        #[trigger] view.tile_keys()[i],
    ) by {
        lemma_keys_below_members(view, view.levels, i);
    }
    assert forall|key: TileKey| view.in_grid(key) implies #[trigger] view.tile_keys().contains(
        key,
    ) by {
        lemma_keys_below_complete(view, view.levels, key);
    }
    let keys = view.tile_keys();
    assert forall|i: int, j: int| 0 <= i < j < keys.len() implies #[trigger] keys[i]
        != #[trigger] keys[j] by {
        lemma_keys_below_distinct(view, view.levels, i, j);
    }
}

/// A tile of the grid can be cut and encoded if the overlap is no larger
/// than a tile and a tile with its overlap on both sides is not larger than
/// the encoder takes.
pub proof fn lemma_tile_in_grid_ok(view: PyramidView, key: TileKey)
    requires
        view.wf(),
        view.in_grid(key),
        view.overlap <= view.tile_size,
        view.tile_size + 2 * view.overlap <= JPEG_MAX_SIDE,
    ensures
        view.tile_ok(key),
{
    let t = view.tile_size as int;
    let o = view.overlap as int;
    lemma_tile_in_grid_geometry(view, key);
    lemma_tile_span(key.col as int, t, o, view.level_width(key.level) as int);
    lemma_tile_span(key.row as int, t, o, view.level_height(key.level) as int);
}

/// Every tile of a pyramid can be cut and encoded if the overlap is no
/// larger than a tile and a tile with its overlap on both sides is not
/// larger than the encoder takes: the tiler then succeeds.
pub proof fn lemma_all_tiles_ok(view: PyramidView)
    requires
        view.wf(),
        view.overlap <= view.tile_size,
        view.tile_size + 2 * view.overlap <= JPEG_MAX_SIDE,
    ensures
        view.all_ok(view.tile_keys()),
{
    lemma_tile_keys_are_the_grid(view);
    assert forall|i: int| 0 <= i < view.tile_keys().len() implies view.tile_ok(
        #[trigger] view.tile_keys()[i],
    ) by {
        lemma_tile_in_grid_ok(view, view.tile_keys()[i]);
    }
}

/// The rectangle of a tile lies in the image of its level, and holds
/// exactly the pixels of the level that are within the overlap of the
/// tile's cell of the grid.
pub proof fn lemma_tile_rect(view: PyramidView, key: TileKey, px: int, py: int)
    requires
        view.wf(),
        view.in_grid(key),
        view.rect_in_range(key),
        0 <= px < view.level_width(key.level),
        0 <= py < view.level_height(key.level),
    ensures
        ({
            let (x, y, x2, y2) = view.tile_rect(key);
            let t = view.tile_size as int;
            let o = view.overlap as int;
            &&& 0 <= x < x2 <= view.level_width(key.level)
            &&& 0 <= y < y2 <= view.level_height(key.level)
            &&& (x <= px < x2 && y <= py < y2) <==> (key.col * t - o <= px < (key.col + 1) * t + o
                && key.row * t - o <= py < (key.row + 1) * t + o)
        }),
{
    let t = view.tile_size as int;
    let o = view.overlap as int;
    let lw = view.level_width(key.level) as int;
    let lh = view.level_height(key.level) as int;
    lemma_tile_span(key.col as int, t, o, lw);
    lemma_tile_span(key.row as int, t, o, lh);
    lemma_tile_membership(px, key.col as int, t, o, lw);
    lemma_tile_membership(py, key.row as int, t, o, lh);
}

/// The tiles of a level cover it: every pixel of the level lies in the
/// rectangle of the tile of its cell of the grid, provided that no tile of
/// the grid starts before the level does, that is, the overlap is no larger
/// than a tile or the level is a single tile.
pub proof fn lemma_tiles_cover_level(view: PyramidView, level: nat, px: int, py: int)
    requires
        view.wf(),
        level < view.levels,
        view.overlap <= view.tile_size || (view.level_width(level) <= view.tile_size
            && view.level_height(level) <= view.tile_size),
        0 <= px < view.level_width(level),
        0 <= py < view.level_height(level),
    ensures
        ({
            let key = TileKey {
                level,
                col: (px / view.tile_size as int) as nat,
                row: (py / view.tile_size as int) as nat,
            };
            let (x, y, x2, y2) = view.tile_rect(key);
            &&& view.in_grid(key)
            &&& view.rect_in_range(key)
            &&& x <= px < x2
            &&& y <= py < y2
        }),
{
    let t = view.tile_size as int;
    let o = view.overlap as int;
    lemma_tiles_cover(px, t, o, view.level_width(level) as int);
    lemma_tiles_cover(py, t, o, view.level_height(level) as int);
}

/// Without overlap the tiles of a level partition it: a pixel of the level
/// lies in the rectangle of the tile of its cell of the grid and in that of
/// no other tile.
pub proof fn lemma_tiles_partition_level(view: PyramidView, key: TileKey, px: int, py: int)
    requires
        view.wf(),
        view.overlap == 0,
        view.in_grid(key),
        0 <= px < view.level_width(key.level),
        0 <= py < view.level_height(key.level),
    ensures
        ({
            let (x, y, x2, y2) = view.tile_rect(key);
            (x <= px < x2 && y <= py < y2) <==> (key.col == px / view.tile_size as int && key.row
                == py / view.tile_size as int)
        }),
{
    let t = view.tile_size as int;
    lemma_tile_in_grid_geometry(view, key);
    lemma_tiles_partition(px, key.col as int, t, view.level_width(key.level) as int);
    lemma_tiles_partition(py, key.row as int, t, view.level_height(key.level) as int);
}

/// The rectangle of a tile of the grid lies in the image of its level if the
/// overlap is no larger than a tile.
pub proof fn lemma_tile_in_grid_geometry(view: PyramidView, key: TileKey)
    requires
        view.wf(),
        view.in_grid(key),
        view.overlap <= view.tile_size,
    ensures
        view.rect_in_range(key),
{
    let t = view.tile_size as int;
    assert(key.col >= 1 ==> key.col * t >= t) by (nonlinear_arith)
        requires
            t >= 1,
    ;
    assert(key.row >= 1 ==> key.row * t >= t) by (nonlinear_arith)
        requires
            t >= 1,
    ;
    assert(key.col == 0 ==> key.col * t == 0) by (nonlinear_arith);
    assert(key.row == 0 ==> key.row * t == 0) by (nonlinear_arith);
}

/// The finest level of a pyramid is the image itself.
pub proof fn lemma_finest_level(view: PyramidView)
    requires
        view.levels >= 1,
    ensures
        view.level_width((view.levels - 1) as nat) == view.image.width,
        view.level_height((view.levels - 1) as nat) == view.image.height,
        view.level_image((view.levels - 1) as nat) == view.image,
{
    lemma_finest_level_is_full_size(view.image.width as int, view.levels as int);
    lemma_finest_level_is_full_size(view.image.height as int, view.levels as int);
}

/// Every file of a pyramid is stored under a path that begins with the
/// pyramid's name.
pub proof fn lemma_blob_paths_begin_with_name(view: PyramidView, i: int)
    requires
        0 <= i < view.blobs().len(),
    ensures
        view.name.is_prefix_of(view.blobs()[i].0),
{
    let keys = view.tile_keys();
    if i < keys.len() {
        let key = keys[i];
        assert(view.blobs()[i] == view.tile_blob(key));
        assert(view.name.is_prefix_of(tile_path(view.name, key.level, key.col, key.row)));
    } else {
        assert(view.name.is_prefix_of(descriptor_path(view.name)));
    }
}

/// The paths of the files of a pyramid are at most 43 characters longer
/// than its name.
pub proof fn lemma_blob_path_length(view: PyramidView, i: int)
    requires
        view.wf(),
        view.levels <= u32::MAX,
        0 <= i < view.blobs().len(),
    ensures
        view.blobs()[i].0.len() <= view.name.len() + 43,
{
    let keys = view.tile_keys();
    if i < keys.len() {
        let key = keys[i];
        lemma_keys_below_members(view, view.levels, i);
        lemma_level_dimension_bounds(view.image.width as int, view.levels as int, key.level as int);
        lemma_level_dimension_bounds(
            view.image.height as int,
            view.levels as int,
            key.level as int,
        );
        let t = view.tile_size as int;
        lemma_ceil_div_bounds(view.level_width(key.level) as int, t);
        lemma_ceil_div_bounds(view.level_height(key.level) as int, t);
        let cols = view.columns(key.level) as int;
        let rows = view.rows(key.level) as int;
        assert(cols <= view.level_width(key.level)) by (nonlinear_arith)
            requires
                (cols - 1) * t < view.level_width(key.level),
                t >= 1,
                view.level_width(key.level) >= 0,
        ;
        assert(rows <= view.level_height(key.level)) by (nonlinear_arith)
            requires
                (rows - 1) * t < view.level_height(key.level),
                t >= 1,
                view.level_height(key.level) >= 0,
        ;
        assert(view.blobs()[i] == view.tile_blob(key));
        lemma_tile_path_len(view.name, key.level, key.col, key.row);
    } else {
        lemma_tile_path_len(view.name, 0, 0, 0);
    }
}

/// No two files of a pyramid are stored under the same path.
pub proof fn lemma_blob_paths_distinct(view: PyramidView, i: int, j: int)
    requires
        0 <= i < j < view.blobs().len(),
    ensures
        view.blobs()[i].0 != view.blobs()[j].0,
{
    let keys = view.tile_keys();
    if j < keys.len() {
        lemma_keys_below_distinct(view, view.levels, i, j);
        if view.blobs()[i].0 == view.blobs()[j].0 {
            lemma_tile_paths_distinct(
                view.name,
                keys[i].level,
                keys[i].col,
                keys[i].row,
                keys[j].level,
                keys[j].col,
                keys[j].row,
            );
        }
    } else {
        lemma_tile_path_is_no_descriptor(
            view.name,
            keys[i].level,
            keys[i].col,
            keys[i].row,
            view.name,
        );
    }
}

/// Making one more tile adds its file, and all tiles made can be cut and
/// encoded exactly when that holds of the earlier ones and of the new one.
pub proof fn lemma_tile_blobs_push(view: PyramidView, keys: Seq<TileKey>, key: TileKey)
    ensures
        view.tile_blobs(keys.push(key)) == view.tile_blobs(keys).push(view.tile_blob(key)),
        view.all_ok(keys.push(key)) <==> view.all_ok(keys) && view.tile_ok(key),
{
    assert(keys.push(key) =~= keys + seq![key]);
    lemma_tile_blobs_add(view, keys, seq![key]);
    assert(view.tile_blobs(seq![key]) =~= seq![view.tile_blob(key)]);
    assert(view.tile_blobs(keys) + seq![view.tile_blob(key)] =~= view.tile_blobs(keys).push(
        view.tile_blob(key),
    ));
    if view.tile_ok(key) {
        assert(view.all_ok(seq![key]));
    }
    if view.all_ok(seq![key]) {
        assert(seq![key][0] == key);
    }
}

/// `error` reports that `level` is no level of a pyramid of `levels` levels.
pub open spec fn is_invalid_level(error: TilingError, level: u32, levels: nat) -> bool {
    error matches TilingError::InvalidLevel { level: l, levels: n } && l == level && n == levels
}

/// The tiler of one image. Its view is what it works on; the files it has
/// made so far are given by `emitted`.
#[derive(Debug)]
pub struct TileCreator {
    image: Raster,
    name: String,
    tile_size: u32,
    tile_overlap: u32,
    levels: u32,
    buffer: Vec<TileBlob>,
}

impl View for TileCreator {
    type V = PyramidView;

    closed spec fn view(&self) -> PyramidView {
        PyramidView {
            image: self.image@,
            name: self.name@,
            tile_size: self.tile_size as nat,
            overlap: self.tile_overlap as nat,
            levels: self.levels as nat,
        }
    }
}

impl TileCreator {
    /// The files made so far.
    pub closed spec fn emitted(&self) -> Seq<(Seq<char>, Seq<u8>)> {
        blobs_view(self.buffer@)
    }

    /// A tiler for `im` that stores its files under `name`. Without a level
    /// count the pyramid is a full one, down to a single pixel.
    pub fn new_from_image(
        im: Raster,
        name: String,
        tile_size: u32,
        tile_overlap: u32,
        levels: Option<u32>,
    ) -> (creator: Result<TileCreator, TilingError>)
        requires
            im@.wf(),
            resampling_fits_memory(im@.width, im@.height),
            tile_size >= 1,
        ensures
            creator matches Ok(c) && c@.wf() && c.emitted() == Seq::<(Seq<char>, Seq<u8>)>::empty()
                && c@ == (PyramidView {
                image: im@,
                name: name@,
                tile_size: tile_size as nat,
                overlap: tile_overlap as nat,
                levels: match levels {
                    Some(count) => count as nat,
                    None => default_levels(im@.width, im@.height),
                },
            }),
    {
        let actual_levels: u32 = match levels {
            Some(count) => count,
            None => default_level_count(im.width(), im.height()),
        };
        let creator = TileCreator {
            image: im,
            name,
            tile_size,
            tile_overlap,
            levels: actual_levels,
            buffer: Vec::new(),
        };
        assert(creator.emitted() =~= Seq::<(Seq<char>, Seq<u8>)>::empty());
        Ok(creator)
    }

    /// The image that is cut into tiles.
    pub fn image(&self) -> (image: &Raster)
        ensures
            image@ == self@.image,
    {
        &self.image
    }

    /// The name under which the files are stored.
    pub fn name(&self) -> (name: &str)
        ensures
            name@ == self@.name,
    {
        self.name.as_str()
    }

    /// Side of a tile, without its overlap.
    pub fn tile_size(&self) -> (tile_size: u32)
        ensures
            tile_size == self@.tile_size,
    {
        self.tile_size
    }

    /// Number of pixels that neighbouring tiles share on each side.
    pub fn tile_overlap(&self) -> (overlap: u32)
        ensures
            overlap == self@.overlap,
    {
        self.tile_overlap
    }

    /// Number of levels of the pyramid.
    pub fn levels(&self) -> (levels: u32)
        ensures
            levels == self@.levels,
    {
        self.levels
    }

    /// Whether `l` is a level of the pyramid.
    pub fn check_level(&self, l: u32) -> (checked: Result<(), TilingError>)
        ensures
            checked is Ok <==> l < self@.levels,
            checked matches Err(e) ==> is_invalid_level(e, l, self@.levels),
    {
        if l >= self.levels {
            return Err(TilingError::InvalidLevel { level: l, levels: self.levels });
        }
        Ok(())
    }

    /// Width and height of the image of a level.
    pub fn get_dimensions(&self, level: u32) -> (dims: Result<(u32, u32), TilingError>)
        ensures
            dims is Ok <==> level < self@.levels,
            dims matches Ok((w, h)) ==> w == self@.level_width(level as nat) && h
                == self@.level_height(level as nat) && w <= self@.image.width && h
                <= self@.image.height,
            dims matches Err(e) ==> is_invalid_level(e, level, self@.levels),
    {
        match self.check_level(level) {
            Err(e) => Err(e),
            Ok(()) => {
                let w: u32 = scaled_dimension(self.image.width(), self.levels, level);
                let h: u32 = scaled_dimension(self.image.height(), self.levels, level);
                Ok((w, h))
            },
        }
    }

    /// Number of tile columns and rows of a level.
    pub fn get_tile_count(&self, l: u32) -> (counts: Result<(u32, u32), TilingError>)
        requires
            self@.wf(),
        ensures
            counts is Ok <==> l < self@.levels,
            counts matches Ok((cols, rows)) ==> cols == self@.columns(l as nat) && rows
                == self@.rows(l as nat),
            counts matches Err(e) ==> is_invalid_level(e, l, self@.levels),
    {
        match self.get_dimensions(l) {
            Err(e) => Err(e),
            Ok((w, h)) => {
                let cols: u32 = tile_count_u32(w, self.tile_size);
                let rows: u32 = tile_count_u32(h, self.tile_size);
                Ok((cols, rows))
            },
        }
    }

    /// The rectangle `(x, y, x2, y2)` that the tile at `(col, row)` covers in
    /// the image of its level, `x2` and `y2` excluded.
    pub fn get_tile_bounds(&self, level: u32, col: u32, row: u32) -> (bounds: Result<
        (u32, u32, u32, u32),
        TilingError,
    >)
        requires
            self@.wf(),
        ensures
            bounds is Ok <==> level < self@.levels && self@.rect_in_range(
                (TileKey { level: level as nat, col: col as nat, row: row as nat }),
            ),
            bounds matches Ok((x, y, x2, y2)) ==> (x as int, y as int, x2 as int, y2 as int)
                == self@.tile_rect(
                (TileKey { level: level as nat, col: col as nat, row: row as nat }),
            ) && x < x2 <= self@.level_width(level as nat) && y < y2 <= self@.level_height(
                level as nat,
            ),
            bounds matches Err(e) ==> if level < self@.levels {
                e matches TilingError::InvalidTile { level: l, col: c, row: r } && l == level && c
                    == col && r == row
            } else {
                is_invalid_level(e, level, self@.levels)
            },
    {
        match self.get_dimensions(level) {
            Err(e) => Err(e),
            Ok((lw, lh)) => {
                let across = tile_span(col, self.tile_size, self.tile_overlap, lw);
                let down = tile_span(row, self.tile_size, self.tile_overlap, lh);
                match (across, down) {
                    (Some((x, x2)), Some((y, y2))) => Ok((x, y, x2, y2)),
                    _ => Err(TilingError::InvalidTile { level, col, row }),
                }
            },
        }
    }

    /// The image of a level.
    pub fn get_level_image(&self, level: u32) -> (image: Result<Raster, TilingError>)
        requires
            self@.wf(),
        ensures
            image is Ok <==> level < self@.levels,
            image matches Ok(raster) ==> raster@ == self@.level_image(level as nat) && raster@.wf(),
            image matches Err(e) ==> is_invalid_level(e, level, self@.levels),
    {
        match self.get_dimensions(level) {
            Err(e) => Err(e),
            Ok((w, h)) => Ok(resize_lanczos3(&self.image, w, h)),
        }
    }

    /// Makes the tiles of a level, column after column and each column from
    /// the top down, and adds them to the files made so far.
    pub fn create_level(&mut self, level: u32) -> (made: Result<(), TilingError>)
        requires
            old(self)@.wf(),
        ensures
            final(self)@ == old(self)@,
            level >= old(self)@.levels ==> final(self).emitted() == old(self).emitted() && (
            made matches Err(e) && is_invalid_level(e, level, old(self)@.levels)),
            level < old(self)@.levels ==> {
                &&& made is Ok <==> old(self)@.all_ok(old(self)@.level_keys(level as nat))
                &&& made is Ok ==> final(self).emitted() == old(self).emitted() + old(
                    self,
                )@.tile_blobs(old(self)@.level_keys(level as nat))
                &&& made matches Err(e) ==> exists|i: int|
                    old(self)@.first_failure(old(self)@.level_keys(level as nat), i) && old(
                        self,
                    )@.reports(#[trigger] old(self)@.level_keys(level as nat)[i], e)
            },
    {
        let ghost view = self@;
        let ghost before = self.emitted();
        let li = match self.get_level_image(level) {
            Ok(li) => li,
            Err(e) => {
                return Err(e);
            },
        };
        let (cols, rows) = match self.get_tile_count(level) {
            Ok(counts) => counts,
            Err(e) => {
                return Err(e);
            },
        };
        let ghost lv = level as nat;
        let ghost all = view.level_keys(lv);
        proof {
            lemma_tile_blobs_add(view, Seq::empty(), Seq::empty());
            assert(before + view.tile_blobs(grid_keys(lv, 0, rows as nat)) =~= before);
        }
        let mut col: u32 = 0;
        while col < cols
            invariant
                self@ == view,
                view == old(self)@,
                before == old(self).emitted(),
                view.wf(),
                level < view.levels,
                lv == level as nat,
                all == view.level_keys(lv),
                cols == view.columns(lv),
                rows == view.rows(lv),
                li@ == view.level_image(lv),
                li@.wf(),
                col <= cols,
                self.emitted() == before + view.tile_blobs(grid_keys(lv, col as nat, rows as nat)),
                view.all_ok(grid_keys(lv, col as nat, rows as nat)),
            decreases cols - col,
        {
            let ghost done = grid_keys(lv, col as nat, rows as nat);
            let mut row: u32 = 0;
            proof {
                assert(done + column_keys(lv, col as nat, 0) =~= done);
            }
            while row < rows
                invariant
                    self@ == view,
                    view == old(self)@,
                    before == old(self).emitted(),
                    view.wf(),
                    level < view.levels,
                    lv == level as nat,
                    all == view.level_keys(lv),
                    cols == view.columns(lv),
                    rows == view.rows(lv),
                    li@ == view.level_image(lv),
                    li@.wf(),
                    col < cols,
                    row <= rows,
                    done == grid_keys(lv, col as nat, rows as nat),
                    self.emitted() == before + view.tile_blobs(
                        done + column_keys(lv, col as nat, row as nat),
                    ),
                    view.all_ok(done + column_keys(lv, col as nat, row as nat)),
                decreases rows - row,
            {
                let ghost key = TileKey { level: lv, col: col as nat, row: row as nat };
                let ghost made_keys = done + column_keys(lv, col as nat, row as nat);
                proof {
                    lemma_grid_keys_prefix(lv, cols as nat, rows as nat, col as nat, row as nat);
                    lemma_grid_keys_index(lv, cols as nat, rows as nat, col as nat, row as nat);
                    lemma_tile_blobs_push(view, made_keys, key);
                    assert(made_keys.push(key) =~= done + column_keys(
                        lv,
                        col as nat,
                        (row + 1) as nat,
                    ));
                }
                let ghost at = (col as nat * rows as nat + row as nat) as int;
                match self.get_tile_bounds(level, col, row) {
                    Err(e) => {
                        proof {
                            assert(!view.tile_ok(key));
                            assert(view.first_failure(all, at));
                            assert(view.reports(all[at], e));
                        }
                        return Err(e);
                    },
                    Ok((x, y, x2, y2)) => {
                        let tile = li.crop(x, y, x2 - x, y2 - y);
                        assert(tile@ == view.tile_raster(key));
                        assert(tile@.width == x2 - x && tile@.height == y2 - y);
                        match encode_jpeg(&tile, TILE_QUALITY) {
                            Err(source) => {
                                let e = TilingError::EncodingFailed { level, col, row, source };
                                proof {
                                    assert(!view.tile_ok(key));
                                    assert(view.first_failure(all, at));
                                    assert(view.reports(all[at], e));
                                }
                                return Err(e);
                            },
                            Ok(bytes) => {
                                let path = tile_path_string(self.name.as_str(), level, col, row);
                                let blob = TileBlob { path, bytes };
                                assert(blob@ == view.tile_blob(key));
                                let ghost held = self.buffer@;
                                self.buffer.push(blob);
                                proof {
                                    assert(blobs_view(held.push(blob)) =~= blobs_view(held).push(
                                        blob@,
                                    ));
                                    assert(view.tile_ok(key));
                                    assert((before + view.tile_blobs(made_keys)).push(
                                        view.tile_blob(key),
                                    ) =~= before + view.tile_blobs(made_keys.push(key)));
                                }
                            },
                        }
                    },
                }
                row = row + 1;
            }
            col = col + 1;
        }
        Ok(())
    }

    /// Makes every tile of the pyramid, level after level from the coarsest,
    /// then the descriptor, and hands out all files made.
    pub fn create_tiles(self) -> (tiles: Result<Vec<TileBlob>, TilingError>)
        requires
            self@.wf(),
        ensures
            tiles is Ok <==> self@.all_ok(self@.tile_keys()),
            tiles matches Ok(blobs) ==> blobs_view(blobs@) == self.emitted() + self@.blobs(),
            tiles matches Err(e) ==> exists|i: int|
                self@.first_failure(self@.tile_keys(), i) && self@.reports(
                    #[trigger] self@.tile_keys()[i],
                    e,
                ),
    {
        let ghost view = self@;
        let ghost before = self.emitted();
        let ghost all = view.tile_keys();
        let mut creator = self;
        let levels: u32 = creator.levels;
        proof {
            lemma_tile_blobs_add(view, Seq::empty(), Seq::empty());
            assert(before + view.tile_blobs(view.keys_below(0)) =~= before);
        }
        let mut l: u32 = 0;
        while l < levels
            invariant
                creator@ == view,
                view == self@,
                before == self.emitted(),
                view.wf(),
                levels == view.levels,
                all == view.tile_keys(),
                l <= levels,
                creator.emitted() == before + view.tile_blobs(view.keys_below(l as nat)),
                view.all_ok(view.keys_below(l as nat)),
            decreases levels - l,
        {
            let ghost below = view.keys_below(l as nat);
            let ghost here = view.level_keys(l as nat);
            proof {
                lemma_keys_below_prefix(view, (l + 1) as nat, levels as nat);
                lemma_tile_blobs_add(view, below, here);
                assert(all.take((below + here).len() as int) == below + here);
            }
            match creator.create_level(l) {
                Err(e) => {
                    proof {
                        let i = choose|i: int|
                            view.first_failure(here, i) && view.reports(#[trigger] here[i], e);
                        let at = below.len() + i;
                        assert(all[at] == (below + here)[at]) by {
                            assert(all.take((below + here).len() as int)[at] == all[at]);
                        }
                        assert(all.take(at) =~= below + here.take(i)) by {
                            assert(all.take(at) =~= all.take((below + here).len() as int).take(at));
                        }
                        lemma_tile_blobs_add(view, below, here.take(i));
                        assert(view.first_failure(all, at));
                        assert(view.reports(all[at], e));
                    }
                    return Err(e);
                },
                Ok(()) => {
                    proof {
                        assert(before + view.tile_blobs(below) + view.tile_blobs(here) =~= before
                            + view.tile_blobs(below + here));
                    }
                },
            }
            l = l + 1;
        }
        let text = descriptor_document(
            creator.tile_size,
            creator.tile_overlap,
            creator.image.width(),
            creator.image.height(),
        );
        let bytes = text.as_str().as_bytes_vec();
        let path = descriptor_path_string(creator.name.as_str());
        let blob = TileBlob { path, bytes };
        assert(blob@ == view.descriptor_blob());
        let ghost held = creator.buffer@;
        creator.buffer.push(blob);
        proof {
            assert(blobs_view(held.push(blob)) =~= blobs_view(held).push(blob@));
            assert((before + view.tile_blobs(all)).push(view.descriptor_blob()) =~= before
                + view.blobs());
        }
        Ok(creator.buffer)
    }
}

} // verus!
