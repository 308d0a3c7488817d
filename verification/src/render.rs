//! Putting a cube face together from the colours sampled for its pixels.
//!
//! Sampling the panorama at the fractional source coordinates of a table is
//! floating-point work and is done by the caller; this module takes the
//! sampled colours, one for each entry of the table, and places them.

use vstd::prelude::*;
use crate::raster::{lemma_sample_index_in_bounds, lemma_with_pixel, Raster, RasterView, Rgb};
use crate::sampling::{
    entry_index, lemma_destination, lemma_index_split, SamplingTable, SamplingTableView,
};

verus! {

/// Side of the face rendered from a panorama of the given width when at most
/// `max_width` is asked for.
pub open spec fn face_side(max_width: nat, panorama_width: nat) -> nat {
    if max_width <= panorama_width / 4 {
        max_width
    } else {
        panorama_width / 4
    }
}

/// The black face of side `side` after the first `count` entries of the
/// table have received their colours, in the order of the table.
pub open spec fn placed(
    side: nat,
    table: SamplingTableView,
    colours: Seq<Rgb>,
    count: nat,
) -> RasterView
    decreases count,
{
    if count == 0 {
        RasterView::blank(side, side)
    } else {
        let i = count - 1;
        placed(side, table, colours, i as nat).with_pixel(
            table.entries[i].face_coordinate.0 as int,
            table.entries[i].face_coordinate.1 as int,
            colours[i],
        )
    }
}

/// The face of side `side` in which the pixel of each entry of the table
/// has the colour sampled for that entry.
pub open spec fn rendered(side: nat, table: SamplingTableView, colours: Seq<Rgb>) -> RasterView {
    placed(side, table, colours, table.entries.len())
}

/// The colour of a pixel that no entry has reached.
pub open spec fn black() -> Rgb {
    Rgb { r: 0, g: 0, b: 0 }
}

/// A black raster is well-formed and black at every pixel.
pub proof fn lemma_blank(width: nat, height: nat, x: int, y: int)
    requires
        width <= u32::MAX,
        height <= u32::MAX,
        3 * width <= usize::MAX,
        0 <= x < width,
        0 <= y < height,
    ensures
        RasterView::blank(width, height).wf(),
        RasterView::blank(width, height).pixel(x, y) == black(),
{
    lemma_sample_index_in_bounds(width, height, x, y);
}

/// After `count` entries a pixel has the colour of its entry if that entry
/// is among them, and is black otherwise.
pub proof fn lemma_placed_pixel(
    side: nat,
    table: SamplingTableView,
    colours: Seq<Rgb>,
    count: nat,
    x: nat,
    y: nat,
)
    requires
        table.wf(),
        table.face_size <= side <= u32::MAX,
        3 * side <= usize::MAX,
        count <= table.entries.len(),
        x < side,
        y < side,
    ensures
        placed(side, table, colours, count).wf(),
        placed(side, table, colours, count).width == side,
        placed(side, table, colours, count).height == side,
        placed(side, table, colours, count).pixel(x as int, y as int) == (if x < table.face_size
            && y < table.face_size && entry_index(table.face_size, x, y) < count {
            colours[entry_index(table.face_size, x, y)]
        } else {
            black()
        }),
    decreases count,
{
    if count == 0 {
        lemma_blank(side, side, x as int, y as int);
    } else {
        let i = (count - 1) as int;
        lemma_placed_pixel(side, table, colours, i as nat, x, y);
        lemma_index_split(table.face_size, i);
        let dest = table.entries[i].face_coordinate;
        lemma_with_pixel(
            placed(side, table, colours, i as nat),
            dest.0 as int,
            dest.1 as int,
            colours[i],
            x as int,
            y as int,
        );
        if x < table.face_size && y < table.face_size {
            lemma_destination(table.face_size, x, y);
            if entry_index(table.face_size, x, y) == i {
                assert(dest == (x as u32, y as u32));
            } else {
                assert(dest != (x as u32, y as u32)) by {
                    if dest == (x as u32, y as u32) {
                        assert(i == x * table.face_size + y);
                    }
                }
            }
        }
    }
}

/// In a rendered face every pixel that the table reaches has the colour
/// sampled for its entry, and every other pixel is black.
pub proof fn lemma_rendered_pixel(
    side: nat,
    table: SamplingTableView,
    colours: Seq<Rgb>,
    x: nat,
    y: nat,
)
    requires
        table.wf(),
        table.face_size <= side <= u32::MAX,
        3 * side <= usize::MAX,
        x < side,
        y < side,
    ensures
        rendered(side, table, colours).wf(),
        rendered(side, table, colours).width == side,
        rendered(side, table, colours).height == side,
        rendered(side, table, colours).pixel(x as int, y as int) == (if x < table.face_size && y
            < table.face_size {
            colours[entry_index(table.face_size, x, y)]
        } else {
            black()
        }),
{
    lemma_placed_pixel(side, table, colours, table.entries.len(), x, y);
    if x < table.face_size && y < table.face_size {
        lemma_destination(table.face_size, x, y);
    }
}

/// The face of a panorama `panorama_width` pixels wide: a raster of side
/// `face_side(max_width, panorama_width)` in which the pixel of each entry
/// of the table has the colour sampled for that entry.
pub fn render_face(
    panorama_width: u32,
    max_width: u32,
    table: &SamplingTable,
    colours: &Vec<Rgb>,
) -> (face: Raster)
    requires
        table@.wf(),
        table@.face_size <= face_side(max_width as nat, panorama_width as nat),
        colours@.len() == table@.entries.len(),
        3 * face_side(max_width as nat, panorama_width as nat) * face_side(
            max_width as nat,
            panorama_width as nat,
        ) <= isize::MAX,
    ensures
        face@.wf(),
        face@.width == face_side(max_width as nat, panorama_width as nat),
        face@.height == face_side(max_width as nat, panorama_width as nat),
        face@ == rendered(
            face_side(max_width as nat, panorama_width as nat),
            table@,
            colours@,
        ),
{
    let quarter: u32 = panorama_width / 4;
    let side: u32 = if max_width <= quarter {
        max_width
    } else {
        quarter
    };
    assert(side > 0 ==> 3 * side <= 3 * side * side) by (nonlinear_arith);
    let mut face = Raster::new(side, side);
    let count: usize = table.len();
    let mut i: usize = 0;
    proof {
        assert(side > 0 ==> 3 * side <= 3 * side * side) by (nonlinear_arith);
        if side > 0 {
            lemma_blank(side as nat, side as nat, 0, 0);
        }
    }
    while i < count
        invariant
            i <= count,
            count == table@.entries.len(),
            colours@.len() == table@.entries.len(),
            table@.wf(),
            table@.face_size <= side,
            face@.wf(),
            face@.width == side,
            face@.height == side,
            face@ == placed(side as nat, table@, colours@, i as nat),
        decreases count - i,
    {
        let mapping = table.get(i);
        proof {
            lemma_index_split(table@.face_size, i as int);
        }
        face.put_pixel(mapping.face_coordinate.0, mapping.face_coordinate.1, colours[i]);
        i = i + 1;
    }
    face
}

} // verus!
