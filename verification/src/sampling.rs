//! Sampling tables: for every pixel of a cube face, where in the panorama
//! its colour is taken from. A table is made once per panorama width and
//! kept in a cache.
//!
//! The source coordinates are single-precision numbers. They are not
//! computed or read here, only carried: each is held as its bit pattern.

use vstd::prelude::*;
use std::collections::HashMap;
use crate::face::{Face, FACE_COUNT};

verus! {

broadcast use vstd::std_specs::hash::group_hash_axioms;

/// One entry of a sampling table.
#[derive(Copy, Clone, Debug, PartialEq, Eq)]
pub struct PixelMapping {
    /// Bit patterns of the horizontal and the vertical source coordinate.
    pub source_bits: (u32, u32),
    /// Column and row of the pixel on the face.
    pub face_coordinate: (u32, u32),
}

/// The pixel that the entry at `index` of a table for faces of side
/// `face_size` belongs to: entries run down the first column, then down the
/// second, and so on.
pub open spec fn destination(face_size: nat, index: int) -> (u32, u32) {
    ((index / (face_size as int)) as u32, (index % (face_size as int)) as u32)
}

/// Where the entry of the pixel `(x, y)` stands in a table for faces of side
/// `face_size`.
pub open spec fn entry_index(face_size: nat, x: nat, y: nat) -> int {
    (x * face_size + y) as int
}

/// What a sampling table holds.
pub struct SamplingTableView {
    pub face_size: nat,
    pub entries: Seq<PixelMapping>,
}

impl SamplingTableView {
    /// The table has one entry for each pixel of the face, in column-major
    /// order.
    pub open spec fn wf(self) -> bool {
        &&& self.face_size <= u32::MAX
        &&& self.entries.len() == self.face_size * self.face_size
        &&& forall|i: int|
            0 <= i < self.entries.len() ==> (#[trigger] self.entries[i]).face_coordinate
                == destination(self.face_size, i)
    }

    /// The table that pairs the given source coordinates with the pixels of
    /// a face of side `face_size`, in column-major order.
    pub open spec fn from_sources(face_size: nat, sources: Seq<(u32, u32)>) -> SamplingTableView {
        SamplingTableView {
            face_size,
            entries: Seq::new(
                sources.len(),
                |i: int|
                    PixelMapping {
                        source_bits: sources[i],
                        face_coordinate: destination(face_size, i),
                    },
            ),
        }
    }
}

/// The sampling table of one face.
#[derive(Debug)]
pub struct SamplingTable {
    face_size: u32,
    entries: Vec<PixelMapping>,
}

impl View for SamplingTable {
    type V = SamplingTableView;

    closed spec fn view(&self) -> SamplingTableView {
        SamplingTableView { face_size: self.face_size as nat, entries: self.entries@ }
    }
}

/// The entry at the index of the pixel `(x, y)` belongs to that pixel.
pub proof fn lemma_destination(face_size: nat, x: nat, y: nat)
    requires
        x < face_size <= u32::MAX,
        y < face_size,
    ensures
        0 <= entry_index(face_size, x, y) < face_size * face_size,
        destination(face_size, entry_index(face_size, x, y)) == (x as u32, y as u32),
{
    let i = entry_index(face_size, x, y);
    let f = face_size as int;
    assert(i / f == x && i % f == y) by (nonlinear_arith)
        requires
            i == x * f + y,
            0 <= y < f,
            0 <= x,
    ;
    assert(x * face_size + y < face_size * face_size) by (nonlinear_arith)
        requires
            x + 1 <= face_size,
            y < face_size,
    ;
}

/// The destinations of a table are the pixels of the face, each exactly
/// once: every entry belongs to a pixel of the face, every pixel has its
/// entry, and no two entries belong to the same pixel.
pub proof fn lemma_destinations_are_a_permutation(table: SamplingTableView)
    requires
        table.wf(),
    ensures
        forall|i: int|
            0 <= i < table.entries.len() ==> (#[trigger] table.entries[i]).face_coordinate.0
                < table.face_size && table.entries[i].face_coordinate.1 < table.face_size,
        forall|x: nat, y: nat|
            x < table.face_size && y < table.face_size ==> 0 <= #[trigger] entry_index(
                table.face_size,
                x,
                y,
            ) < table.entries.len() && table.entries[entry_index(
                table.face_size,
                x,
                y,
            )].face_coordinate == (x as u32, y as u32),
        forall|i: int, j: int|
            0 <= i < j < table.entries.len() ==> (#[trigger] table.entries[i]).face_coordinate != (
            #[trigger] table.entries[j]).face_coordinate,
{
    let f = table.face_size as int;
    assert forall|i: int| 0 <= i < table.entries.len() implies (#[trigger] table.entries[i])
        .face_coordinate.0 < table.face_size && table.entries[i].face_coordinate.1
        < table.face_size by {
        lemma_index_split(table.face_size, i);
    }
    assert forall|x: nat, y: nat| x < table.face_size && y < table.face_size implies 0
        <= #[trigger] entry_index(table.face_size, x, y) < table.entries.len()
        && table.entries[entry_index(table.face_size, x, y)].face_coordinate == (
        x as u32,
        y as u32,
    ) by {
        lemma_destination(table.face_size, x, y);
    }
    assert forall|i: int, j: int| 0 <= i < j < table.entries.len() implies (
    #[trigger] table.entries[i]).face_coordinate != (#[trigger] table.entries[j])
        .face_coordinate by {
        lemma_index_split(table.face_size, i);
        lemma_index_split(table.face_size, j);
    }
}

/// An index below `face_size * face_size` splits into a column and a row
/// below `face_size`, from which it can be put together again.
pub proof fn lemma_index_split(face_size: nat, index: int)
    requires
        face_size <= u32::MAX,
        0 <= index < face_size * face_size,
    ensures
        0 <= index / (face_size as int) < face_size,
        0 <= index % (face_size as int) < face_size,
        index == (index / (face_size as int)) * face_size + index % (face_size as int),
        destination(face_size, index).0 == index / (face_size as int),
        destination(face_size, index).1 == index % (face_size as int),
{
    let f = face_size as int;
    assert(f > 0) by (nonlinear_arith)
        requires
            f >= 0,
            0 <= index < f * f,
    ;
    assert(0 <= index / f < f && 0 <= index % f < f && index == (index / f) * f + index % f)
        by (nonlinear_arith)
        requires
            f > 0,
            0 <= index < f * f,
    ;
}

impl SamplingTable {
    /// The table that pairs the given source coordinates with the pixels of
    /// a face of side `face_size`, in column-major order; `None` unless
    /// there is one source coordinate for each pixel.
    pub fn from_sources(face_size: u32, sources: &Vec<(u32, u32)>) -> (table: Option<
        SamplingTable,
    >)
        ensures
            table is Some <==> sources@.len() == face_size * face_size,
            table matches Some(t) ==> t@.wf() && t@ == SamplingTableView::from_sources(
                face_size as nat,
                sources@,
            ),
    {
        assert(0 <= face_size * face_size <= 0xffff_ffff * 0xffff_ffff) by (nonlinear_arith)
            requires
                0 <= face_size <= 0xffff_ffff,
        ;
        let wanted: u64 = (face_size as u64) * (face_size as u64);
        if sources.len() as u64 != wanted {
            return None;
        }
        let ghost target = SamplingTableView::from_sources(face_size as nat, sources@);
        let mut entries: Vec<PixelMapping> = Vec::new();
        let mut x: u32 = 0;
        assert(0 * face_size == 0) by (nonlinear_arith);
        while x < face_size
            invariant
                x <= face_size,
                sources@.len() == face_size * face_size,
                target == SamplingTableView::from_sources(face_size as nat, sources@),
                entries@.len() == x * face_size,
                forall|i: int| 0 <= i < entries@.len() ==> entries@[i] == target.entries[i],
            decreases face_size - x,
        {
            let mut y: u32 = 0;
            while y < face_size
                invariant
                    x < face_size,
                    y <= face_size,
                    sources@.len() == face_size * face_size,
                    target == SamplingTableView::from_sources(face_size as nat, sources@),
                    entries@.len() == x * face_size + y,
                    forall|i: int| 0 <= i < entries@.len() ==> entries@[i] == target.entries[i],
                decreases face_size - y,
            {
                proof {
                    lemma_destination(face_size as nat, x as nat, y as nat);
                }
                let at: usize = entries.len();
                let mapping = PixelMapping { source_bits: sources[at], face_coordinate: (x, y) };
                entries.push(mapping);
                y = y + 1;
            }
            proof {
                assert((x + 1) * face_size == x * face_size + face_size) by (nonlinear_arith);
            }
            x = x + 1;
        }
        let table = SamplingTable { face_size, entries };
        proof {
            assert(table@.entries =~= target.entries);
            assert forall|i: int| 0 <= i < table@.entries.len() implies (
            #[trigger] table@.entries[i]).face_coordinate == destination(
                face_size as nat,
                i,
            ) by {
                assert(table@.entries[i] == target.entries[i]);
            }
        }
        Some(table)
    }

    /// Side of the face that the table is for.
    pub fn face_size(&self) -> (face_size: u32)
        ensures
            face_size == self@.face_size,
    {
        self.face_size
    }

    /// Number of entries.
    pub fn len(&self) -> (len: usize)
        ensures
            len == self@.entries.len(),
    {
        self.entries.len()
    }

    /// The entry at `index`.
    pub fn get(&self, index: usize) -> (mapping: PixelMapping)
        requires
            index < self@.entries.len(),
        ensures
            mapping == self@.entries[index as int],
    {
        self.entries[index]
    }
}

/// What a set of sampling tables holds: one table for each face, in the
/// order in which faces are converted.
pub struct SamplingTableSetView {
    pub face_size: nat,
    pub tables: Seq<SamplingTableView>,
}

impl SamplingTableSetView {
    /// There is a complete table for each face, all for the same face size.
    pub open spec fn wf(self) -> bool {
        &&& self.tables.len() == FACE_COUNT
        &&& forall|k: int|
            0 <= k < self.tables.len() ==> (#[trigger] self.tables[k]).wf()
                && self.tables[k].face_size == self.face_size
    }

    /// The tables made of the given source coordinates of each face.
    pub open spec fn from_sources(
        face_size: nat,
        sources: Seq<Seq<(u32, u32)>>,
    ) -> SamplingTableSetView {
        SamplingTableSetView {
            face_size,
            tables: Seq::new(
                sources.len(),
                |k: int| SamplingTableView::from_sources(face_size, sources[k]),
            ),
        }
    }
}

/// The source coordinates of each face are six lists of one coordinate for
/// each pixel of a face of side `face_size`.
pub open spec fn sources_fit(face_size: nat, sources: Seq<Seq<(u32, u32)>>) -> bool {
    &&& sources.len() == FACE_COUNT
    &&& forall|k: int|
        0 <= k < sources.len() ==> (#[trigger] sources[k]).len() == face_size * face_size
}

/// The source coordinates of each face, as mathematical values.
pub open spec fn sources_view(sources: Seq<Vec<(u32, u32)>>) -> Seq<Seq<(u32, u32)>> {
    sources.map_values(|list: Vec<(u32, u32)>| list@)
}

/// The sampling tables of the six faces for one panorama width.
#[derive(Debug)]
pub struct SamplingTableSet {
    face_size: u32,
    tables: Vec<SamplingTable>,
}

impl View for SamplingTableSet {
    type V = SamplingTableSetView;

    closed spec fn view(&self) -> SamplingTableSetView {
        SamplingTableSetView {
            face_size: self.face_size as nat,
            tables: self.tables@.map_values(|t: SamplingTable| t@),
        }
    }
}

impl SamplingTableSet {
    /// The tables made of the given source coordinates of each face; `None`
    /// unless there are six lists of one coordinate for each pixel.
    pub fn from_sources(face_size: u32, sources: &Vec<Vec<(u32, u32)>>) -> (set: Option<
        SamplingTableSet,
    >)
        ensures
            set is Some <==> sources_fit(face_size as nat, sources_view(sources@)),
            set matches Some(s) ==> s@.wf() && s@ == SamplingTableSetView::from_sources(
                face_size as nat,
                sources_view(sources@),
            ),
    {
        let ghost given = sources_view(sources@);
        if sources.len() != FACE_COUNT {
            return None;
        }
        let mut tables: Vec<SamplingTable> = Vec::new();
        let mut k: usize = 0;
        while k < FACE_COUNT
            invariant
                k <= FACE_COUNT,
                sources@.len() == FACE_COUNT,
                given == sources_view(sources@),
                tables@.len() == k,
                forall|j: int|
                    0 <= j < k ==> (#[trigger] given[j]).len() == face_size * face_size,
                forall|j: int|
                    0 <= j < k ==> (#[trigger] tables@[j])@.wf() && tables@[j]@
                        == SamplingTableView::from_sources(face_size as nat, given[j]),
            decreases FACE_COUNT - k,
        {
            match SamplingTable::from_sources(face_size, &sources[k]) {
                None => {
                    assert(given[k as int].len() != face_size * face_size);
                    return None;
                },
                Some(table) => {
                    assert(given[k as int] == sources@[k as int]@);
                    tables.push(table);
                },
            }
            k = k + 1;
        }
        let set = SamplingTableSet { face_size, tables };
        proof {
            assert(set@.tables =~= SamplingTableSetView::from_sources(
                face_size as nat,
                given,
            ).tables);
        }
        Some(set)
    }

    /// Side of the faces that the tables are for.
    pub fn face_size(&self) -> (face_size: u32)
        ensures
            face_size == self@.face_size,
    {
        self.face_size
    }

    /// The table of a face.
    pub fn table(&self, face: Face) -> (table: &SamplingTable)
        requires
            self@.wf(),
        ensures
            table@ == self@.tables[face.position() as int],
            table@.wf(),
            table@.face_size == self@.face_size,
    {
        let k: usize = face.index();
        assert(self@.tables[k as int] == self.tables@[k as int]@);
        &self.tables[k]
    }
}

/// The cache after a set of tables has been offered for a width: a width
/// that is already there keeps the tables it has.
pub open spec fn cache_after(
    cache: Map<u32, SamplingTableSetView>,
    width: u32,
    fresh: SamplingTableSetView,
) -> Map<u32, SamplingTableSetView> {
    if cache.contains_key(width) {
        cache
    } else {
        cache.insert(width, fresh)
    }
}

/// The cache after sets of tables have been offered one after another.
pub open spec fn cache_after_all(
    cache: Map<u32, SamplingTableSetView>,
    offers: Seq<(u32, SamplingTableSetView)>,
) -> Map<u32, SamplingTableSetView>
    decreases offers.len(),
{
    if offers.len() == 0 {
        cache
    } else {
        cache_after(cache_after_all(cache, offers.drop_last()), offers.last().0, offers.last().1)
    }
}

/// Every width of the cache has complete tables for faces of a quarter of
/// that width.
pub open spec fn cache_wf(cache: Map<u32, SamplingTableSetView>) -> bool {
    forall|width: u32| #[trigger]
        cache.contains_key(width) ==> cache[width].wf() && cache[width].face_size == width / 4
}

/// Offering tables for a width a second time changes nothing.
pub proof fn lemma_ensure_is_idempotent(
    cache: Map<u32, SamplingTableSetView>,
    width: u32,
    first: SamplingTableSetView,
    second: SamplingTableSetView,
)
    ensures
        cache_after(cache_after(cache, width, first), width, second) == cache_after(
            cache,
            width,
            first,
        ),
{
}

/// However often and in whatever order tables are offered, a width keeps
/// the tables that the cache had for it at the start or, where it had none,
/// those that were offered for it first.
pub proof fn lemma_first_offer_stays(
    cache: Map<u32, SamplingTableSetView>,
    offers: Seq<(u32, SamplingTableSetView)>,
    width: u32,
)
    ensures
        cache.contains_key(width) ==> cache_after_all(cache, offers).contains_key(width)
            && cache_after_all(cache, offers)[width] == cache[width],
        !cache.contains_key(width) ==> forall|i: int|
            0 <= i < offers.len() && offers[i].0 == width && (forall|j: int|
                0 <= j < i ==> (#[trigger] offers[j]).0 != width) ==> cache_after_all(
                cache,
                offers,
            ).contains_key(width) && cache_after_all(cache, offers)[width] == (
            #[trigger] offers[i]).1,
        !cache.contains_key(width) && (forall|j: int|
            0 <= j < offers.len() ==> (#[trigger] offers[j]).0 != width) ==> !cache_after_all(
            cache,
            offers,
        ).contains_key(width),
    decreases offers.len(),
{
    if offers.len() > 0 {
        let earlier = offers.drop_last();
        lemma_first_offer_stays(cache, earlier, width);
        let before = cache_after_all(cache, earlier);
        if !cache.contains_key(width) {
            assert forall|i: int|
                0 <= i < offers.len() && offers[i].0 == width && (forall|j: int|
                    0 <= j < i ==> (#[trigger] offers[j]).0 != width) implies cache_after_all(
                cache,
                offers,
            ).contains_key(width) && cache_after_all(cache, offers)[width] == (
            #[trigger] offers[i]).1 by {
                if i < earlier.len() {
                    assert(earlier[i] == offers[i]);
                    assert forall|j: int| 0 <= j < i implies (#[trigger] earlier[j]).0
                        != width by {
                        assert(earlier[j] == offers[j]);
                    }
                } else {
                    assert forall|j: int| 0 <= j < earlier.len() implies (#[trigger] earlier[j]).0
                        != width by {
                        assert(earlier[j] == offers[j]);
                    }
                }
            }
            if forall|j: int| 0 <= j < offers.len() ==> (#[trigger] offers[j]).0 != width {
                assert forall|j: int| 0 <= j < earlier.len() implies (#[trigger] earlier[j]).0
                    != width by {
                    assert(earlier[j] == offers[j]);
                }
                assert(offers.last() == offers[offers.len() - 1]);
            }
        }
    }
}

/// Sampling tables by panorama width. A width, once it has tables, keeps
/// them.
pub struct SamplingTableCache {
    entries: HashMap<u32, SamplingTableSet>,
}

impl View for SamplingTableCache {
    type V = Map<u32, SamplingTableSetView>;

    closed spec fn view(&self) -> Map<u32, SamplingTableSetView> {
        Map::new(|width: u32| self.entries@.contains_key(width), |width: u32| self.entries@[width]@)
    }
}

impl SamplingTableCache {
    /// An empty cache.
    pub fn new() -> (cache: SamplingTableCache)
        ensures
            cache@ == Map::<u32, SamplingTableSetView>::empty(),
            cache_wf(cache@),
    {
        let cache = SamplingTableCache { entries: HashMap::new() };
        assert(cache@ =~= Map::<u32, SamplingTableSetView>::empty());
        cache
    }

    /// Number of widths that have tables.
    pub fn len(&self) -> (len: usize)
        ensures
            len == self@.dom().len(),
    {
        assert(self@.dom() =~= self.entries@.dom());
        self.entries.len()
    }

    /// Whether the width has tables.
    pub fn contains(&self, width: u32) -> (found: bool)
        ensures
            found == self@.contains_key(width),
    {
        self.entries.contains_key(&width)
    }

    /// The tables of the width, if it has any.
    pub fn get(&self, width: u32) -> (set: Option<&SamplingTableSet>)
        ensures
            set is Some <==> self@.contains_key(width),
            set matches Some(s) ==> s@ == self@[width],
    {
        self.entries.get(&width)
    }

    /// Makes sure that the width has tables: where it has none yet it gets
    /// `fresh`, and where it has some it keeps them.
    pub fn ensure(&mut self, width: u32, fresh: SamplingTableSet)
        ensures
            final(self)@ == cache_after(old(self)@, width, fresh@),
    {
        if !self.entries.contains_key(&width) {
            self.entries.insert(width, fresh);
            assert(self@ =~= old(self)@.insert(width, fresh@));
        }
    }
}

/// Offering well-formed tables keeps a well-formed cache well-formed.
pub proof fn lemma_cache_after_wf(
    cache: Map<u32, SamplingTableSetView>,
    width: u32,
    fresh: SamplingTableSetView,
)
    requires
        cache_wf(cache),
        fresh.wf(),
        fresh.face_size == width / 4,
    ensures
        cache_wf(cache_after(cache, width, fresh)),
{
    let after = cache_after(cache, width, fresh);
    assert forall|w: u32| #[trigger] after.contains_key(w) implies after[w].wf()
        && after[w].face_size == w / 4 by {
        if w != width {
            assert(cache.contains_key(w));
        }
    }
}

} // verus!
