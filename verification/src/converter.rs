//! The converter: from a panorama, by way of its six cube faces, to the
//! archive of their Deep Zoom pyramids.
//!
//! Two steps of a conversion are floating-point work and are done by the
//! caller: computing the source coordinates of a sampling table, and
//! sampling the panorama at them. The converter keeps the tables, says what
//! is to be sampled, and does the rest.

use vstd::prelude::*;
use vstd::pervasive::unreached;
use vstd::string::*;
use vstd::utf8::encode_utf8;
use crate::archive::{
    accepted, archivable, entries_of, is_archive_of, paths_distinct, write_archive, NAME_LIMIT,
};
use crate::codec::resampling_fits_memory;
use crate::dzi::{
    blobs_view, lemma_all_tiles_ok, lemma_blob_path_length, lemma_blob_paths_begin_with_name,
    lemma_blob_paths_distinct, lemma_keys_below_members, PyramidView, TileBlob, TileCreator,
};
use crate::error::TilingError;
use crate::face::{Face, FACE_COUNT};
use crate::pyramid::{pipeline_level_count, pipeline_levels};
use crate::raster::Rgb;
use crate::render::{render_face, rendered};
use crate::text::{descriptor_path, lemma_encoded_length, tile_path};
use crate::sampling::{
    cache_after, cache_wf, lemma_cache_after_wf, sources_fit, sources_view, SamplingTableCache,
    SamplingTableSet, SamplingTableSetView,
};

verus! {

/// Side of the tiles of a face pyramid.
pub const TILE_SIZE: u32 = 512;

/// Overlap of the tiles of a face pyramid.
pub const TILE_OVERLAP: u32 = 0;

/// A panorama can be converted if it is not empty and twice as wide as it
/// is high.
pub open spec fn valid_panorama(width: nat, height: nat) -> bool {
    width >= 1 && height >= 1 && width == 2 * height
}

/// The colours sampled for each face, as mathematical values.
pub open spec fn samples_view(samples: Seq<Vec<Rgb>>) -> Seq<Seq<Rgb>> {
    samples.map_values(|list: Vec<Rgb>| list@)
}

/// There is one list of colours for each face, with one colour for each
/// entry of the face's table.
pub open spec fn samples_fit(set: SamplingTableSetView, samples: Seq<Seq<Rgb>>) -> bool {
    &&& samples.len() == FACE_COUNT
    &&& forall|k: int|
        0 <= k < samples.len() ==> (#[trigger] samples[k]).len() == set.tables[k].entries.len()
}

/// The pyramid of the face at `position`: the face rendered from its
/// samples, stored under the face's letter, cut into tiles of 512 pixels
/// without overlap.
pub open spec fn face_pyramid(
    set: SamplingTableSetView,
    samples: Seq<Seq<Rgb>>,
    position: int,
) -> PyramidView {
    PyramidView {
        image: rendered(set.face_size, set.tables[position], samples[position]),
        name: Face::at(position as nat).suffix_text(),
        tile_size: TILE_SIZE as nat,
        overlap: TILE_OVERLAP as nat,
        levels: pipeline_levels(set.face_size, TILE_SIZE as nat),
    }
}

/// The files of the first `count` faces, face after face.
pub open spec fn faces_blobs(set: SamplingTableSetView, samples: Seq<Seq<Rgb>>, count: nat) -> Seq<
    (Seq<char>, Seq<u8>),
>
    decreases count,
{
    if count == 0 {
        Seq::empty()
    } else {
        faces_blobs(set, samples, (count - 1) as nat) + face_pyramid(
            set,
            samples,
            count - 1,
        ).blobs()
    }
}

/// All files of a conversion: those of the six faces in the order in which
/// faces are converted.
pub open spec fn conversion_blobs(set: SamplingTableSetView, samples: Seq<Seq<Rgb>>) -> Seq<
    (Seq<char>, Seq<u8>),
> {
    faces_blobs(set, samples, FACE_COUNT as nat)
}

/// What converting a panorama of the given size gives, with the given
/// tables and samples: an error for a size that is not valid; otherwise the
/// archive of the files of the six faces where the container takes them,
/// and a failure of the container where it does not.
pub open spec fn is_conversion_of(
    width: u32,
    height: u32,
    set: SamplingTableSetView,
    samples: Seq<Seq<Rgb>>,
    converted: Result<Vec<u8>, TilingError>,
) -> bool {
    if valid_panorama(width as nat, height as nat) {
        is_archive_of(conversion_blobs(set, samples), converted)
    } else {
        converted matches Err(TilingError::InvalidPanoramaDimensions { width: w, height: h }) && w
            == width && h == height
    }
}

/// A conversion is determined by its input: two conversions of the same
/// panorama size with the same tables and samples that both give an archive
/// give the same bytes.
pub proof fn lemma_conversion_is_deterministic(
    width: u32,
    height: u32,
    set: SamplingTableSetView,
    samples: Seq<Seq<Rgb>>,
    first: Result<Vec<u8>, TilingError>,
    second: Result<Vec<u8>, TilingError>,
)
    requires
        is_conversion_of(width, height, set, samples, first),
        is_conversion_of(width, height, set, samples, second),
        first is Ok,
        second is Ok,
    ensures
        first->Ok_0@ == second->Ok_0@,
{
}

/// `path` is where a tile or the descriptor of one of the first `faces`
/// faces is stored, for pyramids of `levels` levels: the letter of the face
/// followed either by `_files/`, a level below `levels`, `/`, a column, `_`,
/// a row and `.jpg`, the three written as decimal numerals, or by `.dzi`.
pub open spec fn is_face_path(path: Seq<char>, faces: nat, levels: nat) -> bool {
    ||| exists|position: nat, level: nat, col: nat, row: nat|
        position < faces && level < levels && path == #[trigger] tile_path(
            Face::at(position).suffix_text(),
            level,
            col,
            row,
        )
    ||| exists|position: nat|
        position < faces && path == descriptor_path(#[trigger] Face::at(position).suffix_text())
}

/// A path of fewer faces is a path of more.
proof fn lemma_face_path_of_more(path: Seq<char>, faces: nat, more: nat, levels: nat)
    requires
        faces <= more,
        is_face_path(path, faces, levels),
    ensures
        is_face_path(path, more, levels),
{
    if exists|position: nat, level: nat, col: nat, row: nat|
        position < faces && level < levels && path == #[trigger] tile_path(
            Face::at(position).suffix_text(),
            level,
            col,
            row,
        ) {
        let (position, level, col, row) = choose|position: nat, level: nat, col: nat, row: nat|
            position < faces && level < levels && path == #[trigger] tile_path(
                Face::at(position).suffix_text(),
                level,
                col,
                row,
            );
        assert(position < more && path == tile_path(
            Face::at(position).suffix_text(),
            level,
            col,
            row,
        ));
    } else {
        let position = choose|position: nat|
            position < faces && path == descriptor_path(
                #[trigger] Face::at(position).suffix_text(),
            );
        assert(position < more && path == descriptor_path(Face::at(position).suffix_text()));
    }
}

/// Every file of the first `count` faces is stored where a tile or the
/// descriptor of one of these faces belongs, with a level of the pyramid.
pub proof fn lemma_faces_blobs_paths(
    set: SamplingTableSetView,
    samples: Seq<Seq<Rgb>>,
    count: nat,
    i: int,
)
    requires
        0 <= i < faces_blobs(set, samples, count).len(),
    ensures
        is_face_path(
            faces_blobs(set, samples, count)[i].0,
            count,
            pipeline_levels(set.face_size, TILE_SIZE as nat),
        ),
    decreases count,
{
    let levels = pipeline_levels(set.face_size, TILE_SIZE as nat);
    if count > 0 {
        let earlier = faces_blobs(set, samples, (count - 1) as nat);
        let path = faces_blobs(set, samples, count)[i].0;
        if i < earlier.len() {
            lemma_faces_blobs_paths(set, samples, (count - 1) as nat, i);
            lemma_face_path_of_more(path, (count - 1) as nat, count, levels);
        } else {
            let position = (count - 1) as nat;
            let pyramid = face_pyramid(set, samples, count - 1);
            let j = i - earlier.len();
            let keys = pyramid.tile_keys();
            assert(path == pyramid.blobs()[j].0);
            if j < keys.len() {
                let key = keys[j];
                lemma_keys_below_members(pyramid, pyramid.levels, j);
                assert(pyramid.blobs()[j] == pyramid.tile_blob(key));
                assert(position < count && key.level < levels && path == tile_path(
                    Face::at(position).suffix_text(),
                    key.level,
                    key.col,
                    key.row,
                ));
            } else {
                assert(position < count && path == descriptor_path(
                    Face::at(position).suffix_text(),
                ));
            }
        }
    }
}

/// The descriptor of each of the first `count` faces is among their files.
pub proof fn lemma_faces_blobs_hold_descriptors(
    set: SamplingTableSetView,
    samples: Seq<Seq<Rgb>>,
    count: nat,
    position: nat,
)
    requires
        position < count,
    ensures
        exists|i: int|
            0 <= i < faces_blobs(set, samples, count).len() && (#[trigger] faces_blobs(
                set,
                samples,
                count,
            )[i]).0 == descriptor_path(Face::at(position).suffix_text()),
    decreases count,
{
    let all = faces_blobs(set, samples, count);
    let earlier = faces_blobs(set, samples, (count - 1) as nat);
    if position < count - 1 {
        lemma_faces_blobs_hold_descriptors(set, samples, (count - 1) as nat, position);
        let i = choose|i: int|
            0 <= i < earlier.len() && (#[trigger] earlier[i]).0 == descriptor_path(
                Face::at(position).suffix_text(),
            );
        assert(all[i] == earlier[i]);
    } else {
        let pyramid = face_pyramid(set, samples, count - 1);
        let last = all.len() - 1;
        assert(all[last] == pyramid.descriptor_blob());
    }
}

/// The files of a conversion are stored where the tiles and descriptors of
/// the six faces belong: every path is one of a tile, at a level of the
/// pyramid, or of a descriptor, and the descriptor of every face is there.
pub proof fn lemma_conversion_paths(set: SamplingTableSetView, samples: Seq<Seq<Rgb>>)
    ensures
        forall|i: int|
            0 <= i < conversion_blobs(set, samples).len() ==> is_face_path(
                (#[trigger] conversion_blobs(set, samples)[i]).0,
                FACE_COUNT as nat,
                pipeline_levels(set.face_size, TILE_SIZE as nat),
            ),
        forall|position: nat|
            position < FACE_COUNT ==> exists|i: int|
                0 <= i < conversion_blobs(set, samples).len() && (#[trigger] conversion_blobs(
                    set,
                    samples,
                )[i]).0 == descriptor_path(#[trigger] Face::at(position).suffix_text()),
        paths_distinct(conversion_blobs(set, samples)),
{
    let all = conversion_blobs(set, samples);
    assert forall|i: int| 0 <= i < all.len() implies is_face_path(
        (#[trigger] all[i]).0,
        FACE_COUNT as nat,
        pipeline_levels(set.face_size, TILE_SIZE as nat),
    ) by {
        lemma_faces_blobs_paths(set, samples, FACE_COUNT as nat, i);
    }
    assert forall|position: nat| position < FACE_COUNT implies exists|i: int|
        0 <= i < all.len() && (#[trigger] all[i]).0 == descriptor_path(
            #[trigger] Face::at(position).suffix_text(),
        ) by {
        lemma_faces_blobs_hold_descriptors(set, samples, FACE_COUNT as nat, position);
    }
    assert forall|i: int, j: int| 0 <= i < j < all.len() implies (#[trigger] all[i]).0 != (
    #[trigger] all[j]).0 by {
        lemma_conversion_paths_distinct(set, samples, FACE_COUNT as nat, i, j);
    }
}

/// The files of the first `count` faces are stored under paths that begin
/// with the letter of one of these faces.
pub proof fn lemma_faces_blobs_letters(
    set: SamplingTableSetView,
    samples: Seq<Seq<Rgb>>,
    count: nat,
    i: int,
    later: nat,
)
    requires
        0 <= i < faces_blobs(set, samples, count).len(),
        count <= later < FACE_COUNT,
    ensures
        faces_blobs(set, samples, count)[i].0.len() >= 1,
        faces_blobs(set, samples, count)[i].0[0] != Face::at(later).suffix_text()[0],
    decreases count,
{
    if count > 0 {
        let earlier = faces_blobs(set, samples, (count - 1) as nat);
        if i < earlier.len() {
            lemma_faces_blobs_letters(set, samples, (count - 1) as nat, i, later);
        } else {
            let pyramid = face_pyramid(set, samples, count - 1);
            lemma_blob_paths_begin_with_name(pyramid, i - earlier.len());
            let path = pyramid.blobs()[i - earlier.len()].0;
            assert(path[0] == pyramid.name[0]);
        }
    }
}

/// No two files of a conversion are stored under the same path: the files
/// of one face differ in what follows the face's letter, and those of
/// different faces differ in the letter.
pub proof fn lemma_conversion_paths_distinct(
    set: SamplingTableSetView,
    samples: Seq<Seq<Rgb>>,
    count: nat,
    i: int,
    j: int,
)
    requires
        count <= FACE_COUNT,
        0 <= i < j < faces_blobs(set, samples, count).len(),
    ensures
        faces_blobs(set, samples, count)[i].0 != faces_blobs(set, samples, count)[j].0,
    decreases count,
{
    if count > 0 {
        let earlier = faces_blobs(set, samples, (count - 1) as nat);
        let pyramid = face_pyramid(set, samples, count - 1);
        if j < earlier.len() {
            lemma_conversion_paths_distinct(set, samples, (count - 1) as nat, i, j);
        } else if i < earlier.len() {
            lemma_faces_blobs_letters(set, samples, (count - 1) as nat, i, (count - 1) as nat);
            lemma_blob_paths_begin_with_name(pyramid, j - earlier.len());
            let path = pyramid.blobs()[j - earlier.len()].0;
            assert(path[0] == pyramid.name[0]);
        } else {
            lemma_blob_paths_distinct(pyramid, i - earlier.len(), j - earlier.len());
        }
    }
}

/// Converts panoramas, keeping the sampling tables of every panorama width
/// it has seen.
pub struct DzpConverter {
    cache: SamplingTableCache,
}

impl View for DzpConverter {
    type V = Map<u32, SamplingTableSetView>;

    closed spec fn view(&self) -> Map<u32, SamplingTableSetView> {
        self.cache@
    }
}

impl DzpConverter {
    /// A converter that has seen no panorama yet.
    pub fn create() -> (converter: DzpConverter)
        ensures
            converter@ == Map::<u32, SamplingTableSetView>::empty(),
            cache_wf(converter@),
    {
        DzpConverter { cache: SamplingTableCache::new() }
    }

    /// Number of panorama widths that have sampling tables.
    pub fn cached_widths(&self) -> (count: usize)
        ensures
            count == self@.dom().len(),
    {
        self.cache.len()
    }

    /// The sampling tables of a panorama width, if it has any.
    pub fn tables(&self, width: u32) -> (set: Option<&SamplingTableSet>)
        ensures
            set is Some <==> self@.contains_key(width),
            set matches Some(s) ==> s@ == self@[width],
    {
        self.cache.get(width)
    }

    /// Makes the sampling tables of a panorama width from the source
    /// coordinates of each face, given face after face in the order in which
    /// faces are converted and, for each face, pixel after pixel down the
    /// columns. Says whether the coordinates were one for each pixel of six
    /// faces of a quarter of the width; if not, nothing is changed. A width
    /// that has tables keeps them.
    pub fn generate_cache_for_resolution(
        &mut self,
        width: u32,
        sources: &Vec<Vec<(u32, u32)>>,
    ) -> (made: bool)
        requires
            cache_wf(old(self)@),
        ensures
            made == sources_fit((width / 4) as nat, sources_view(sources@)),
            made ==> final(self)@ == cache_after(
                old(self)@,
                width,
                SamplingTableSetView::from_sources((width / 4) as nat, sources_view(sources@)),
            ),
            !made ==> final(self)@ == old(self)@,
            cache_wf(final(self)@),
    {
        let face_size: u32 = width / 4;
        match SamplingTableSet::from_sources(face_size, sources) {
            None => false,
            Some(set) => {
                proof {
                    lemma_cache_after_wf(self@, width, set@);
                }
                self.cache.ensure(width, set);
                true
            },
        }
    }

    /// Whether a panorama of the given size can be converted: it can if it
    /// is not empty and twice as wide as it is high.
    pub fn is_valid_panorama(width: u32, height: u32) -> (valid: bool)
        ensures
            valid == valid_panorama(width as nat, height as nat),
    {
        width >= 1 && height >= 1 && width as u64 == 2 * (height as u64)
    }

    /// Whether a panorama of the given size can be handed to
    /// `convert_image` with the given colours: it can if its size is not
    /// valid, which `convert_image` reports, and otherwise if its width has
    /// sampling tables, there is one colour for each entry of each table,
    /// and its faces are not too large for the resampler.
    pub fn conversion_ready(&self, width: u32, height: u32, samples: &Vec<Vec<Rgb>>) -> (ready:
        bool)
        requires
            cache_wf(self@),
        ensures
            ready == (valid_panorama(width as nat, height as nat) ==> {
                &&& self@.contains_key(width)
                &&& samples_fit(self@[width], samples_view(samples@))
                &&& resampling_fits_memory((width / 4) as nat, (width / 4) as nat)
            }),
    {
        if !Self::is_valid_panorama(width, height) {
            return true;
        }
        let set: &SamplingTableSet = match self.tables(width) {
            Some(set) => set,
            None => {
                return false;
            },
        };
        let face_size: u32 = width / 4;
        assert(0 <= 16 * face_size * face_size <= 16 * 0xffff_ffff * 0xffff_ffff)
            by (nonlinear_arith)
            requires
                0 <= face_size <= 0xffff_ffff,
        ;
        let needed: u128 = 16 * (face_size as u128) * (face_size as u128);
        if needed > isize::MAX as u128 {
            return false;
        }
        if samples.len() != FACE_COUNT {
            return false;
        }
        let ghost given = samples_view(samples@);
        let mut k: usize = 0;
        while k < FACE_COUNT
            invariant
                k <= FACE_COUNT,
                valid_panorama(width as nat, height as nat),
                self@.contains_key(width),
                set@ == self@[width],
                set@.wf(),
                resampling_fits_memory((width / 4) as nat, (width / 4) as nat),
                samples@.len() == FACE_COUNT,
                given == samples_view(samples@),
                forall|j: int|
                    0 <= j < k ==> (#[trigger] given[j]).len() == set@.tables[j].entries.len(),
            decreases FACE_COUNT - k,
        {
            let table = set.table(Face::from_index(k));
            assert(given[k as int] == samples@[k as int]@);
            if samples[k].len() != table.len() {
                return false;
            }
            k = k + 1;
        }
        true
    }

    /// Converts a panorama of the given size, of which the colours at the
    /// source coordinates of its sampling tables are given, into the archive
    /// of the pyramids of its six faces. The colours are given face after
    /// face in the order in which faces are converted, and for each face
    /// entry after entry of its table.
    pub fn convert_image(&self, width: u32, height: u32, samples: &Vec<Vec<Rgb>>) -> (converted:
        Result<Vec<u8>, TilingError>)
        requires
            cache_wf(self@),
            valid_panorama(width as nat, height as nat) ==> {
                &&& self@.contains_key(width)
                &&& samples_fit(self@[width], samples_view(samples@))
                &&& resampling_fits_memory((width / 4) as nat, (width / 4) as nat)
            },
        ensures
            is_conversion_of(width, height, self@[width], samples_view(samples@), converted),
            converted is Ok <==> valid_panorama(width as nat, height as nat) && accepted(
                entries_of(conversion_blobs(self@[width], samples_view(samples@))),
            ),
    {
        if !Self::is_valid_panorama(width, height) {
            return Err(TilingError::InvalidPanoramaDimensions { width, height });
        }
        let set: &SamplingTableSet = match self.tables(width) {
            Some(set) => set,
            None => unreached(),
        };
        let face_size: u32 = width / 4;
        let levels: u32 = pipeline_level_count(face_size, TILE_SIZE);
        let ghost given = samples_view(samples@);
        let mut all: Vec<TileBlob> = Vec::new();
        let mut k: usize = 0;
        assert(blobs_view(all@) =~= faces_blobs(set@, given, 0));
        while k < FACE_COUNT
            invariant
                k <= FACE_COUNT,
                set@.wf(),
                set@.face_size == face_size,
                face_size == width / 4,
                levels == pipeline_levels(face_size as nat, TILE_SIZE as nat),
                given == samples_view(samples@),
                samples_fit(set@, given),
                resampling_fits_memory(face_size as nat, face_size as nat),
                blobs_view(all@) == faces_blobs(set@, given, k as nat),
                archivable(blobs_view(all@)),
            decreases FACE_COUNT - k,
        {
            let face = Face::from_index(k);
            let table = set.table(face);
            assert(given[k as int] == samples@[k as int]@);
            assert(3 * face_size * face_size <= 16 * face_size * face_size) by (nonlinear_arith);
            let raster = render_face(width, face_size, table, &samples[k]);
            let name = String::from_str(face.suffix());
            let ghost pyramid = face_pyramid(set@, given, k as int);
            let creator = match TileCreator::new_from_image(
                raster,
                name,
                TILE_SIZE,
                TILE_OVERLAP,
                Some(levels),
            ) {
                Ok(creator) => creator,
                Err(_) => unreached(),
            };
            assert(creator@ == pyramid);
            proof {
                lemma_all_tiles_ok(pyramid);
            }
            let mut blobs = match creator.create_tiles() {
                Ok(blobs) => blobs,
                Err(_) => unreached(),
            };
            let ghost before = all@;
            let ghost added = blobs@;
            assert(blobs_view(added) =~= pyramid.blobs());
            all.append(&mut blobs);
            assert(blobs_view(before + added) =~= blobs_view(before) + blobs_view(added));
            assert forall|i: int| 0 <= i < pyramid.blobs().len() implies encode_utf8(
                (#[trigger] pyramid.blobs()[i]).0,
            ).len() <= NAME_LIMIT by {
                lemma_blob_path_length(pyramid, i);
                lemma_encoded_length(pyramid.blobs()[i].0);
            }
            k = k + 1;
        }
        write_archive(&all)
    }
}

} // verus!
