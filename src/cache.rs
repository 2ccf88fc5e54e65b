//! Residency of tiles in a texture atlas. Each frame the renderer reports
//! which cells it sampled; the cache frees the atlas slots of cells that were
//! not sampled, places the sampled cells that are not resident yet, and grows
//! the atlas when it is full. The textures themselves live with the caller,
//! which performs the uploads that `populate_tiles` hands back.

use vstd::arithmetic::div_mod::lemma_fundamental_div_mod_converse;
use vstd::bytes::{spec_u32_from_le_bytes, spec_u32_to_le_bytes, u32_from_le_bytes, u32_to_le_bytes};
use vstd::slice::slice_subrange;
use vstd::prelude::*;

use crate::dataset::Dataset;
use crate::grid::{CELL_COUNT, LAT_CELLS, LON_CELLS};

verus! {

/// The starting side of the atlas, before it is capped to what the device allows.
pub const INITIAL_ATLAS_SIZE: u32 = 4096;

/// Where a tile's samples start in the atlas; two values that lie outside
/// every atlas slot stand for "not loaded" and "not in the dataset".
#[derive(Copy, Clone, Debug, PartialEq, Eq, Structural)]
pub struct TileOffset {
    pub x: u32,
    pub y: u32,
}

#[derive(Copy, Clone, Debug, PartialEq, Eq, Structural)]
pub enum UploadStatus {
    Uploads,
    NoUploads,
    Resized,
    AtlasFull,
}

/// A tile to copy into the atlas: the cell's index and the slot it goes to.
#[derive(Copy, Clone, Debug, PartialEq, Eq, Structural)]
pub struct TileUpload {
    pub index: usize,
    pub origin: TileOffset,
}

pub open spec fn unloaded_at(height: u32) -> TileOffset {
    TileOffset { x: 0, y: height }
}

pub open spec fn not_found_at(width: u32) -> TileOffset {
    TileOffset { x: width, y: 0 }
}

/// A slot of side `res` that lies wholly inside a `width`×`height` atlas.
pub open spec fn is_origin(o: TileOffset, width: u32, height: u32, res: int) -> bool {
    &&& o.x + res <= width
    &&& o.y + res <= height
    &&& (o.x as int) % res == 0
    &&& (o.y as int) % res == 0
}

/// The index of the last dataset whose density the view reaches, or the
/// first dataset where it reaches none.
pub open spec fn selected_spec(reached: Seq<bool>) -> int
    decreases reached.len(),
{
    if reached.len() == 0 {
        0
    } else if reached.last() {
        reached.len() - 1
    } else {
        selected_spec(reached.drop_last())
    }
}

/// Picks the dataset for a view: `reached[k]` says whether the view's angle
/// per pixel is at least dataset `k`'s density.
pub fn select_dataset(reached: &[bool]) -> (r: usize)
    ensures
        r == selected_spec(reached@),
        reached@.len() > 0 ==> r < reached@.len(),
{
    let mut k: usize = reached.len();
    assert(reached@.subrange(0, k as int) =~= reached@);
    while k > 0
        invariant
            k <= reached@.len(),
            selected_spec(reached@) == selected_spec(reached@.subrange(0, k as int)),
        decreases k,
    {
        let ghost sub = reached@.subrange(0, k as int);
        assert(sub.drop_last() =~= reached@.subrange(0, k - 1));
        if reached[k - 1] {
            return k - 1;
        }
        k = k - 1;
    }
    0
}

/// Whether slot `o` comes before `cur` in the order slots are first handed
/// out: by row, then along the row.
pub open spec fn before(o: TileOffset, cur: TileOffset) -> bool {
    o.y < cur.y || (o.y == cur.y && o.x < cur.x)
}

/// An entry that holds a slot rather than one of the two markers.
pub open spec fn in_use(o: TileOffset, width: u32, height: u32) -> bool {
    o != unloaded_at(height) && o != not_found_at(width)
}

/// No two cells share a slot, no slot is both in use and free, the free
/// list repeats none, and all of them were handed out before `cur`.
pub open spec fn distinct_slots(
    tiles: Seq<TileOffset>,
    free: Seq<TileOffset>,
    cur: TileOffset,
    width: u32,
    height: u32,
) -> bool {
    &&& forall|k: int| 0 <= k < free.len() ==> before(#[trigger] free[k], cur)
    &&& forall|k: int| 0 <= k < free.len() ==> in_use(#[trigger] free[k], width, height)
    &&& forall|k: int, l: int|
        0 <= k < free.len() && 0 <= l < free.len() && k != l ==> #[trigger] free[k]
            != #[trigger] free[l]
    &&& forall|i: int|
        0 <= i < tiles.len() && in_use(tiles[i], width, height) ==> before(#[trigger] tiles[i], cur)
    &&& forall|i: int, j: int|
        0 <= i < tiles.len() && 0 <= j < tiles.len() && i != j && in_use(tiles[i], width, height)
            ==> #[trigger] tiles[i] != #[trigger] tiles[j]
    &&& forall|i: int, k: int|
        0 <= i < tiles.len() && 0 <= k < free.len() ==> #[trigger] tiles[i] != #[trigger] free[k]
}

proof fn lemma_distinct_empty(tiles: Seq<TileOffset>, cur: TileOffset, width: u32, height: u32)
    requires
        forall|i: int| 0 <= i < tiles.len() ==> #[trigger] tiles[i] == unloaded_at(height),
    ensures
        distinct_slots(tiles, Seq::empty(), cur, width, height),
{
}

/// Freeing the slot of cell `index`.
proof fn lemma_distinct_release(
    tiles: Seq<TileOffset>,
    free: Seq<TileOffset>,
    cur: TileOffset,
    width: u32,
    height: u32,
    index: int,
)
    requires
        distinct_slots(tiles, free, cur, width, height),
        0 <= index < tiles.len(),
        in_use(tiles[index], width, height),
    ensures
        distinct_slots(
            tiles.update(index, unloaded_at(height)),
            free.push(tiles[index]),
            cur,
            width,
            height,
        ),
{
    let t2 = tiles.update(index, unloaded_at(height));
    let f2 = free.push(tiles[index]);
    assert forall|k: int, l: int| 0 <= k < f2.len() && 0 <= l < f2.len() && k != l implies #[trigger] f2[k] != #[trigger] f2[l] by {
        if k == free.len() {
            assert(tiles[index] != free[l]);
        } else if l == free.len() {
            assert(tiles[index] != free[k]);
        }
    }
    assert forall|i: int, k: int| 0 <= i < t2.len() && 0 <= k < f2.len() implies #[trigger] t2[i] != #[trigger] f2[k] by {
        if i != index {
            if k == free.len() {
                assert(tiles[index] != tiles[i]);
            } else {
                assert(tiles[i] != free[k]);
            }
        } else if k < free.len() {
            assert(f2[k] == free[k]);
        }
    }
    assert forall|i: int, j: int| 0 <= i < t2.len() && 0 <= j < t2.len() && i != j && in_use(t2[i], width, height) implies #[trigger] t2[i] != #[trigger] t2[j] by {
        assert(tiles[i] != tiles[j]);
    }
}

/// A cell that holds a slot but was not sampled.
pub open spec fn freeable(used: Seq<u32>, t: Seq<TileOffset>, width: u32, height: u32, j: int) -> bool {
    used[j] == 0 && in_use(t[j], width, height)
}

/// A cell that was sampled but holds no slot yet.
pub open spec fn waiting(used: Seq<u32>, t: Seq<TileOffset>, height: u32, j: int) -> bool {
    used[j] != 0 && t[j] == unloaded_at(height)
}

/// Number of freeable cells with index in `[lo, hi)`.
pub open spec fn count_freeable(
    used: Seq<u32>,
    t: Seq<TileOffset>,
    width: u32,
    height: u32,
    lo: int,
    hi: int,
) -> nat
    decreases hi - lo,
{
    if hi <= lo {
        0
    } else {
        count_freeable(used, t, width, height, lo, hi - 1) + if freeable(used, t, width, height, hi - 1) {
            1nat
        } else {
            0nat
        }
    }
}

/// Number of waiting cells with index in `[lo, hi)`.
pub open spec fn count_waiting(used: Seq<u32>, t: Seq<TileOffset>, height: u32, lo: int, hi: int) -> nat
    decreases hi - lo,
{
    if hi <= lo {
        0
    } else {
        count_waiting(used, t, height, lo, hi - 1) + if waiting(used, t, height, hi - 1) {
            1nat
        } else {
            0nat
        }
    }
}

proof fn lemma_count_waiting_same(
    used: Seq<u32>,
    t1: Seq<TileOffset>,
    t2: Seq<TileOffset>,
    height: u32,
    lo: int,
    hi: int,
)
    requires
        forall|j: int| lo <= j < hi ==> waiting(used, t1, height, j) == waiting(used, t2, height, j),
    ensures
        count_waiting(used, t1, height, lo, hi) == count_waiting(used, t2, height, lo, hi),
    decreases hi - lo,
{
    if hi > lo {
        lemma_count_waiting_same(used, t1, t2, height, lo, hi - 1);
    }
}

/// Slot `x` was held by a freeable cell after `after`.
pub open spec fn freed_from(
    x: TileOffset,
    used: Seq<u32>,
    t: Seq<TileOffset>,
    width: u32,
    height: u32,
    after: int,
) -> bool {
    exists|j: int| after < j < CELL_COUNT && freeable(used, t, width, height, j) && #[trigger] t[j] == x
}

pub struct Atlas {
    /// The datasets, one per level of detail.
    pub datasets: Vec<Dataset>,
    pub width: u32,
    pub height: u32,
    /// The active dataset; equal to the number of datasets before the first frame.
    pub curr_dataset: usize,
    /// The next slot that was never handed out.
    pub curr_offset: TileOffset,
    /// Slots handed back, taken again before `curr_offset` moves on.
    pub collected_tiles: Vec<TileOffset>,
}

impl Atlas {
    pub open spec fn res(&self) -> int {
        self.datasets@[self.curr_dataset as int].metadata.resolution as int
    }

    pub open spec fn active(&self) -> bool {
        self.curr_dataset < self.datasets@.len()
    }

    pub open spec fn wf(&self) -> bool {
        &&& forall|k: int|
            0 <= k < self.datasets@.len() ==> (#[trigger] self.datasets@[k]).wf()
                && self.datasets@[k].metadata.resolution > 0
        &&& self.curr_dataset <= self.datasets@.len()
        &&& 0 < self.width
        &&& 0 < self.height
        &&& self.curr_offset.x <= self.width
        &&& self.curr_offset.y <= self.height
        &&& self.active() ==> (self.curr_offset.x as int) % self.res() == 0 && (
            self.curr_offset.y as int) % self.res() == 0
        &&& !self.active() ==> self.collected_tiles@.len() == 0
        &&& forall|k: int|
            0 <= k < self.collected_tiles@.len() ==> is_origin(
                #[trigger] self.collected_tiles@[k],
                self.width,
                self.height,
                self.res(),
            )
    }

    /// A slot entry that the atlas can hold: one of the two markers, or a
    /// slot of the active dataset's size inside the atlas.
    pub open spec fn slot_ok(&self, o: TileOffset) -> bool {
        o == unloaded_at(self.height) || o == not_found_at(self.width) || (self.active()
            && is_origin(o, self.width, self.height, self.res()))
    }

    pub fn new(datasets: Vec<Dataset>, max_dimension: u32) -> (r: Atlas)
        requires
            max_dimension > 0,
            forall|k: int|
                0 <= k < datasets@.len() ==> (#[trigger] datasets@[k]).wf()
                    && datasets@[k].metadata.resolution > 0,
        ensures
            r.wf(),
            r.datasets@ == datasets@,
            r.width == if max_dimension < INITIAL_ATLAS_SIZE { max_dimension } else { INITIAL_ATLAS_SIZE },
            r.height == r.width,
            !r.active(),
    {
        let side = if max_dimension < INITIAL_ATLAS_SIZE { max_dimension } else { INITIAL_ATLAS_SIZE };
        let curr_dataset = datasets.len();
        Atlas {
            datasets,
            width: side,
            height: side,
            curr_dataset,
            curr_offset: TileOffset { x: 0, y: 0 },
            collected_tiles: Vec::new(),
        }
    }

    pub fn unloaded(&self) -> (r: TileOffset)
        ensures
            r == unloaded_at(self.height),
    {
        TileOffset { x: 0, y: self.height }
    }

    pub fn not_found(&self) -> (r: TileOffset)
        ensures
            r == not_found_at(self.width),
    {
        TileOffset { x: self.width, y: 0 }
    }

    /// The side of a tile of the active dataset.
    pub fn tile_size(&self) -> (r: u32)
        requires
            self.active(),
        ensures
            r == self.res(),
    {
        self.datasets[self.curr_dataset].metadata.resolution as u32
    }

    /// Whether switching to dataset `selected` discards every placement.
    pub fn needs_clear(&self, selected: usize) -> (r: bool)
        ensures
            r == (selected != self.curr_dataset),
    {
        selected != self.curr_dataset
    }

    /// Makes `selected` the active dataset with an empty atlas.
    pub fn clear(&mut self, selected: usize)
        requires
            old(self).wf(),
            selected < old(self).datasets@.len(),
        ensures
            final(self).wf(),
            final(self).active(),
            final(self).curr_dataset == selected,
            final(self).datasets@ == old(self).datasets@,
            final(self).width == old(self).width,
            final(self).height == old(self).height,
            final(self).curr_offset == (TileOffset { x: 0, y: 0 }),
            final(self).collected_tiles@.len() == 0,
    {
        self.curr_offset = TileOffset { x: 0, y: 0 };
        self.collected_tiles.clear();
        self.curr_dataset = selected;
    }

    /// Hands a slot back for reuse.
    pub fn return_tile(&mut self, tile: TileOffset)
        requires
            old(self).wf(),
            old(self).active(),
            is_origin(tile, old(self).width, old(self).height, old(self).res()),
        ensures
            final(self).wf(),
            final(self).collected_tiles@ == old(self).collected_tiles@.push(tile),
            final(self).datasets@ == old(self).datasets@,
            final(self).curr_dataset == old(self).curr_dataset,
            final(self).width == old(self).width,
            final(self).height == old(self).height,
            final(self).curr_offset == old(self).curr_offset,
    {
        self.collected_tiles.push(tile);
    }

    /// A free slot for one tile: the last one handed back, else the next one
    /// never used, moving along the row and on to the next row when the row
    /// is full. `None` when neither is left.
    pub fn allocate(&mut self) -> (r: Option<TileOffset>)
        requires
            old(self).wf(),
            old(self).active(),
        ensures
            final(self).wf(),
            final(self).datasets@ == old(self).datasets@,
            final(self).curr_dataset == old(self).curr_dataset,
            final(self).width == old(self).width,
            final(self).height == old(self).height,
            old(self).collected_tiles@.len() > 0 ==> r == Some(old(self).collected_tiles@.last())
                && final(self).collected_tiles@ == old(self).collected_tiles@.drop_last(),
            old(self).collected_tiles@.len() == 0 ==> final(self).collected_tiles@.len() == 0,
            old(self).collected_tiles@.len() == 0 ==> (r is None <==> !is_origin(
                old(self).curr_offset,
                old(self).width,
                old(self).height,
                old(self).res(),
            )),
            old(self).collected_tiles@.len() == 0 && r is Some ==> r == Some(old(self).curr_offset),
            r matches Some(o) ==> is_origin(o, final(self).width, final(self).height, final(self).res()),
            old(self).collected_tiles@.len() > 0 || r is None ==> final(self).curr_offset == old(
                self,
            ).curr_offset,
            old(self).collected_tiles@.len() == 0 && r is Some ==> before(
                old(self).curr_offset,
                final(self).curr_offset,
            ),
            old(self).collected_tiles@.len() == 0 && r is Some ==> final(self).curr_offset == if old(
                self,
            ).curr_offset.x + 2 * old(self).res() > old(self).width {
                TileOffset { x: 0, y: (old(self).curr_offset.y + old(self).res()) as u32 }
            } else {
                TileOffset { x: (old(self).curr_offset.x + old(self).res()) as u32, y: old(self).curr_offset.y }
            },
    {
        let res = self.tile_size();
        if let Some(tile) = self.collected_tiles.pop() {
            return Some(tile);
        }
        let ret = self.curr_offset;
        if ret.x as u64 + res as u64 > self.width as u64 || ret.y as u64 + res as u64 > self.height as u64 {
            return None;
        }
        proof {
            vstd::arithmetic::div_mod::lemma_mod_add_multiples_vanish(ret.x as int, res as int);
            vstd::arithmetic::div_mod::lemma_mod_add_multiples_vanish(ret.y as int, res as int);
            vstd::arithmetic::div_mod::lemma_mod_self_0(res as int);
        }
        self.curr_offset.x = ret.x + res;
        if self.curr_offset.x as u64 + res as u64 > self.width as u64 {
            self.curr_offset.x = 0;
            self.curr_offset.y = ret.y + res;
        }
        Some(ret)
    }

    /// Starting after `start`, frees the slot of every placed cell that was
    /// not sampled, and counts the sampled cells still waiting for a slot
    /// (the one at `start` among them). True when at least as many slots
    /// were freed as are needed.
    pub fn collect_tiles(&mut self, used: &[u32], tiles: &mut Vec<TileOffset>, start: usize) -> (r: bool)
        requires
            old(self).wf(),
            old(self).active(),
            used@.len() == CELL_COUNT,
            old(tiles)@.len() == CELL_COUNT,
            start < CELL_COUNT,
            forall|i: int| 0 <= i < CELL_COUNT ==> old(self).slot_ok(#[trigger] old(tiles)@[i]),
            distinct_slots(
                old(tiles)@,
                old(self).collected_tiles@,
                old(self).curr_offset,
                old(self).width,
                old(self).height,
            ),
        ensures
            distinct_slots(
                final(tiles)@,
                final(self).collected_tiles@,
                final(self).curr_offset,
                final(self).width,
                final(self).height,
            ),
            final(self).wf(),
            final(self).datasets@ == old(self).datasets@,
            final(self).curr_dataset == old(self).curr_dataset,
            final(self).width == old(self).width,
            final(self).height == old(self).height,
            final(self).curr_offset == old(self).curr_offset,
            final(tiles)@.len() == CELL_COUNT,
            forall|i: int| 0 <= i < CELL_COUNT ==> final(self).slot_ok(#[trigger] final(tiles)@[i]),
            forall|i: int|
                0 <= i < CELL_COUNT ==> #[trigger] final(tiles)@[i] == if i > start && freeable(
                    used@,
                    old(tiles)@,
                    old(self).width,
                    old(self).height,
                    i,
                ) {
                    unloaded_at(old(self).height)
                } else {
                    old(tiles)@[i]
                },
            forall|k: int|
                old(self).collected_tiles@.len() <= k < final(self).collected_tiles@.len() ==> freed_from(
                    #[trigger] final(self).collected_tiles@[k],
                    used@,
                    old(tiles)@,
                    old(self).width,
                    old(self).height,
                    start as int,
                ),
            final(self).collected_tiles@.len() == old(self).collected_tiles@.len() + count_freeable(
                used@,
                old(tiles)@,
                old(self).width,
                old(self).height,
                start + 1,
                CELL_COUNT as int,
            ),
            r == (count_freeable(used@, old(tiles)@, old(self).width, old(self).height, start + 1, CELL_COUNT as int)
                >= 1 + count_waiting(used@, old(tiles)@, old(self).height, start + 1, CELL_COUNT as int)),
            forall|i: int|
                0 <= i < CELL_COUNT ==> #[trigger] final(tiles)@[i] == old(tiles)@[i] || (i > start
                    && used@[i] == 0 && final(tiles)@[i] == unloaded_at(old(self).height)
                    && is_origin(old(tiles)@[i], old(self).width, old(self).height, old(self).res())),
            forall|i: int|
                0 <= i < old(self).collected_tiles@.len() ==> #[trigger] final(self).collected_tiles@[i]
                    == old(self).collected_tiles@[i],
            final(self).collected_tiles@.len() >= old(self).collected_tiles@.len(),
            forall|i: int|
                0 <= i < CELL_COUNT && #[trigger] final(tiles)@[i] != old(tiles)@[i]
                    ==> final(self).collected_tiles@.contains(old(tiles)@[i]),
            r ==> final(self).collected_tiles@.len() > old(self).collected_tiles@.len(),
    {
        let unloaded = self.unloaded();
        let not_found = self.not_found();
        let ghost base = self.collected_tiles@.len();
        let mut needed: usize = 1;
        let mut collected: usize = 0;
        let mut i: usize = start + 1;
        while i < CELL_COUNT
            invariant
                self.wf(),
                self.active(),
                self.datasets@ == old(self).datasets@,
                self.curr_dataset == old(self).curr_dataset,
                self.width == old(self).width,
                self.height == old(self).height,
                self.curr_offset == old(self).curr_offset,
                unloaded == unloaded_at(self.height),
                not_found == not_found_at(self.width),
                start < i <= CELL_COUNT,
                needed <= i,
                collected <= i,
                used@.len() == CELL_COUNT,
                tiles@.len() == CELL_COUNT,
                self.collected_tiles@.len() == base + collected,
                forall|j: int| 0 <= j < CELL_COUNT ==> self.slot_ok(#[trigger] tiles@[j]),
                forall|j: int|
                    0 <= j < CELL_COUNT ==> #[trigger] tiles@[j] == old(tiles)@[j] || (j > start
                        && used@[j] == 0 && tiles@[j] == unloaded_at(old(self).height)
                        && is_origin(old(tiles)@[j], old(self).width, old(self).height, old(self).res())),
                forall|j: int| 0 <= j < base ==> #[trigger] self.collected_tiles@[j] == old(self).collected_tiles@[j],
                old(tiles)@.len() == CELL_COUNT,
                base == old(self).collected_tiles@.len(),
                needed >= 1,
                forall|k: int|
                    base <= k < self.collected_tiles@.len() ==> freed_from(
                        #[trigger] self.collected_tiles@[k],
                        used@,
                        old(tiles)@,
                        self.width,
                        self.height,
                        start as int,
                    ),
                collected == count_freeable(used@, old(tiles)@, self.width, self.height, start + 1, i as int),
                needed == 1 + count_waiting(used@, old(tiles)@, self.height, start + 1, i as int),
                forall|j: int|
                    0 <= j < CELL_COUNT ==> #[trigger] tiles@[j] == if start < j < i && freeable(
                        used@,
                        old(tiles)@,
                        self.width,
                        self.height,
                        j,
                    ) {
                        unloaded_at(self.height)
                    } else {
                        old(tiles)@[j]
                    },
                distinct_slots(tiles@, self.collected_tiles@, self.curr_offset, self.width, self.height),
                forall|j: int|
                    0 <= j < CELL_COUNT && #[trigger] tiles@[j] != old(tiles)@[j]
                        ==> self.collected_tiles@.contains(old(tiles)@[j]),
            decreases CELL_COUNT - i,
        {
            let t = tiles[i];
            if used[i] != 0 && t == unloaded {
                needed = needed + 1;
            } else if used[i] == 0 && t != unloaded && t != not_found {
                assert(t == old(tiles)@[i as int]);
                let ghost free0 = self.collected_tiles@;
                let ghost tiles0 = tiles@;
                self.return_tile(t);
                proof {
                    assert forall|j: int| 0 <= j < CELL_COUNT && #[trigger] free0.contains(old(tiles)@[j]) implies self.collected_tiles@.contains(old(tiles)@[j]) by {
                        lemma_contains_extended(free0, self.collected_tiles@, old(tiles)@[j]);
                    }
                    assert(self.collected_tiles@[self.collected_tiles@.len() - 1] == t);
                    lemma_distinct_release(tiles0, free0, self.curr_offset, self.width, self.height, i as int);
                    assert(old(tiles)@[i as int] == t);
                    assert(freed_from(t, used@, old(tiles)@, self.width, self.height, start as int));
                    assert forall|k: int|
                        base <= k < self.collected_tiles@.len() implies freed_from(
                            #[trigger] self.collected_tiles@[k],
                            used@,
                            old(tiles)@,
                            self.width,
                            self.height,
                            start as int,
                        ) by {
                        if k < free0.len() {
                            assert(self.collected_tiles@[k] == free0[k]);
                        }
                    }
                }
                tiles.set(i, unloaded);
                collected = collected + 1;
            }
            i = i + 1;
        }
        collected >= needed
    }

    /// Doubles the atlas's sides, each capped at `max_dimension`, and empties
    /// it. False, and nothing changed, when both sides are at the cap.
    pub fn recreate_atlas(&mut self, max_dimension: u32) -> (r: bool)
        requires
            old(self).wf(),
            old(self).width <= max_dimension,
            old(self).height <= max_dimension,
        ensures
            final(self).wf(),
            final(self).datasets@ == old(self).datasets@,
            final(self).curr_dataset == old(self).curr_dataset,
            r == !(old(self).width == max_dimension && old(self).height == max_dimension),
            r ==> final(self).width == if 2 * old(self).width > max_dimension { max_dimension as int } else { 2 * old(self).width },
            r ==> final(self).height == if 2 * old(self).height > max_dimension { max_dimension as int } else { 2 * old(self).height },
            r ==> final(self).curr_offset == (TileOffset { x: 0, y: 0 }) && final(self).collected_tiles@.len() == 0,
            !r ==> *final(self) == *old(self),
            final(self).width <= max_dimension,
            final(self).height <= max_dimension,
    {
        if self.width == max_dimension && self.height == max_dimension {
            return false;
        }
        let w = self.width as u64 * 2;
        let h = self.height as u64 * 2;
        self.width = if w > max_dimension as u64 { max_dimension } else { w as u32 };
        self.height = if h > max_dimension as u64 { max_dimension } else { h as u32 };
        self.curr_offset = TileOffset { x: 0, y: 0 };
        self.collected_tiles.clear();
        true
    }
}

/// Reads the feedback buffer as the device wrote it: one little-endian
/// `u32` per cell, non-zero where the cell was sampled.
pub fn feedback_from_bytes(bytes: &[u8]) -> (r: Vec<u32>)
    ensures
        r@.len() == bytes@.len() / 4,
        forall|i: int|
            0 <= i < r@.len() ==> #[trigger] r@[i] == spec_u32_from_le_bytes(
                bytes@.subrange(4 * i, 4 * i + 4),
            ),
{
    let n = bytes.len() / 4;
    let mut out: Vec<u32> = Vec::with_capacity(n);
    let mut i: usize = 0;
    while i < n
        invariant
            n == bytes@.len() / 4,
            bytes@.len() <= usize::MAX,
            i <= n,
            out@.len() == i,
            forall|j: int|
                0 <= j < i ==> #[trigger] out@[j] == spec_u32_from_le_bytes(
                    bytes@.subrange(4 * j, 4 * j + 4),
                ),
        decreases n - i,
    {
        assert(4 * i + 4 <= bytes@.len()) by (nonlinear_arith)
            requires i < n, n == bytes@.len() / 4;
        out.push(u32_from_le_bytes(slice_subrange(bytes, 4 * i, 4 * i + 4)));
        i = i + 1;
    }
    out
}

/// A slot that is still accounted for: free for reuse, or handed to one of
/// this frame's uploads.
pub open spec fn held(x: TileOffset, free: Seq<TileOffset>, uploads: Seq<TileUpload>) -> bool {
    free.contains(x) || exists|k: int| 0 <= k < uploads.len() && #[trigger] uploads[k].origin == x
}

proof fn lemma_contains_extended<T>(s: Seq<T>, t: Seq<T>, y: T)
    requires
        s.contains(y),
        s.len() <= t.len(),
        forall|k: int| 0 <= k < s.len() ==> #[trigger] t[k] == s[k],
    ensures
        t.contains(y),
{
    let k = choose|k: int| 0 <= k < s.len() && s[k] == y;
    assert(t[k] == y);
}

proof fn lemma_held_push_free(x: TileOffset, free: Seq<TileOffset>, uploads: Seq<TileUpload>, y: TileOffset)
    requires
        held(x, free, uploads),
    ensures
        held(x, free.push(y), uploads),
{
    if free.contains(x) {
        lemma_contains_extended(free, free.push(y), x);
    }
}

proof fn lemma_held_push_upload(x: TileOffset, free: Seq<TileOffset>, uploads: Seq<TileUpload>, u: TileUpload)
    requires
        held(x, free, uploads),
    ensures
        held(x, free, uploads.push(u)),
{
    if !free.contains(x) {
        let k = choose|k: int| 0 <= k < uploads.len() && #[trigger] uploads[k].origin == x;
        assert(uploads.push(u)[k].origin == x);
    }
}

proof fn lemma_held_pop(x: TileOffset, free: Seq<TileOffset>, uploads: Seq<TileUpload>, u: TileUpload)
    requires
        held(x, free, uploads),
        free.len() > 0,
        u.origin == free.last(),
    ensures
        held(x, free.drop_last(), uploads.push(u)),
{
    if free.contains(x) {
        let k = choose|k: int| 0 <= k < free.len() && free[k] == x;
        if k == free.len() - 1 {
            assert(uploads.push(u)[uploads.len() as int].origin == x);
        } else {
            assert(free.drop_last()[k] == x);
        }
    } else {
        lemma_held_push_upload(x, free.drop_last(), uploads, u);
        let k = choose|k: int| 0 <= k < uploads.len() && #[trigger] uploads[k].origin == x;
        assert(uploads.push(u)[k].origin == x);
    }
}

/// What one frame leaves in a cell's slot, from the slot it started with,
/// whether the cell was sampled, and whether the active dataset has its tile:
/// a cell not sampled loses its slot (a cell known to be absent stays so); a
/// sampled cell that was not loaded gets a slot, or is marked absent; any
/// other sampled cell keeps what it had.
pub open spec fn settled(
    start: TileOffset,
    fin: TileOffset,
    used: u32,
    present: bool,
    width: u32,
    height: u32,
    res: int,
) -> bool {
    if used == 0 {
        if start == not_found_at(width) {
            fin == not_found_at(width)
        } else {
            fin == unloaded_at(height)
        }
    } else if start == unloaded_at(height) {
        if present {
            is_origin(fin, width, height, res)
        } else {
            fin == not_found_at(width)
        }
    } else {
        fin == start
    }
}

/// The slots a frame starts from: all unloaded after a switch of dataset,
/// else those of the previous frame.
pub open spec fn frame_start(tiles: Seq<TileOffset>, switched: bool, height: u32) -> Seq<TileOffset> {
    if switched {
        Seq::new(CELL_COUNT as nat, |i: int| unloaded_at(height))
    } else {
        tiles
    }
}

/// Whether the walk over the cells, column by column and south to north
/// within a column, has passed cell `j` on reaching column `lon`, row `lat`.
pub open spec fn visited(j: int, lon: int, lat: int) -> bool {
    j % 360 < lon || (j % 360 == lon && j / 360 < lat)
}

proof fn lemma_cell_row_col(j: int)
    requires
        0 <= j < CELL_COUNT,
    ensures
        0 <= j / 360 < 180,
        0 <= j % 360 < 360,
{
    assert(0 <= j / 360 < 180) by (nonlinear_arith)
        requires 0 <= j < 64800;
}

/// The tile map as the device holds it: for each cell, `x` then `y`, each a
/// little-endian `u32`.
pub open spec fn tile_map_spec(t: Seq<TileOffset>) -> Seq<u8>
    decreases t.len(),
{
    if t.len() == 0 {
        Seq::empty()
    } else {
        tile_map_spec(t.drop_last()) + spec_u32_to_le_bytes(t.last().x) + spec_u32_to_le_bytes(
            t.last().y,
        )
    }
}

pub struct TileCache {
    pub atlas: Atlas,
    /// The slot of every cell, as the tile map on the device holds it.
    pub tiles: Vec<TileOffset>,
}

/// In a well-formed cache no two cells hold the same atlas slot, and no slot
/// held by a cell is also on the free list.
pub proof fn lemma_no_shared_slots(c: &TileCache, i: int, j: int, k: int)
    requires
        c.wf(),
        0 <= i < CELL_COUNT,
        0 <= j < CELL_COUNT,
        i != j,
        in_use(c.tiles@[i], c.atlas.width, c.atlas.height),
    ensures
        c.tiles@[i] != c.tiles@[j],
        0 <= k < c.atlas.collected_tiles@.len() ==> c.tiles@[i] != c.atlas.collected_tiles@[k],
{
}

impl TileCache {
    pub open spec fn wf(&self) -> bool {
        &&& self.atlas.wf()
        &&& self.tiles@.len() == CELL_COUNT
        &&& forall|i: int| 0 <= i < CELL_COUNT ==> self.atlas.slot_ok(#[trigger] self.tiles@[i])
        &&& distinct_slots(
            self.tiles@,
            self.atlas.collected_tiles@,
            self.atlas.curr_offset,
            self.atlas.width,
            self.atlas.height,
        )
        &&& forall|i: int|
            0 <= i < CELL_COUNT && #[trigger] self.tiles@[i] == not_found_at(self.atlas.width)
                ==> self.atlas.active() && !self.present(i)
    }

    /// What holds during the walk over the cells of one frame, on reaching
    /// column `lon`, row `lat`.
    pub open spec fn walk_inv(
        &self,
        datasets: Seq<Dataset>,
        selected: usize,
        used: Seq<u32>,
        start: Seq<TileOffset>,
        w0: u32,
        h0: u32,
        res0: int,
        max_dimension: u32,
        status: UploadStatus,
        uploads: Seq<TileUpload>,
        done: bool,
        switched: bool,
        lon: int,
        lat: int,
    ) -> bool {
        &&& self.wf()
        &&& self.atlas.active()
        &&& self.atlas.curr_dataset == selected
        &&& self.atlas.datasets@ == datasets
        &&& self.atlas.res() == res0
        &&& res0 > 0
        &&& self.atlas.width <= max_dimension
        &&& self.atlas.height <= max_dimension
        &&& used.len() == CELL_COUNT
        &&& start.len() == CELL_COUNT
        &&& !done ==> {
            &&& status == UploadStatus::NoUploads || status == UploadStatus::Uploads
            &&& self.atlas.width == w0
            &&& self.atlas.height == h0
            &&& forall|j: int|
                0 <= j < CELL_COUNT && visited(j, lon, lat) ==> settled(
                    start[j],
                    #[trigger] self.tiles@[j],
                    used[j],
                    self.present(j),
                    w0,
                    h0,
                    res0,
                )
            &&& forall|j: int|
                0 <= j < CELL_COUNT && !visited(j, lon, lat) ==> #[trigger] self.tiles@[j] == start[j]
                    || (used[j] == 0 && self.tiles@[j] == unloaded_at(h0) && is_origin(
                    start[j],
                    w0,
                    h0,
                    res0,
                ))
            &&& status == UploadStatus::NoUploads ==> forall|j: int|
                0 <= j < CELL_COUNT && visited(j, lon, lat) && used[j] != 0
                    ==> #[trigger] start[j] != unloaded_at(h0)
            &&& forall|j: int|
                0 <= j < CELL_COUNT && used[j] == 0 && is_origin(start[j], w0, h0, res0)
                    && #[trigger] self.tiles@[j] == unloaded_at(h0) ==> held(
                    start[j],
                    self.atlas.collected_tiles@,
                    uploads,
                )
            &&& switched && status == UploadStatus::NoUploads ==> {
                &&& self.atlas.collected_tiles@.len() == 0
                &&& self.atlas.curr_offset == (TileOffset { x: 0, y: 0 })
                &&& forall|j: int| 0 <= j < CELL_COUNT ==> #[trigger] self.tiles@[j] == unloaded_at(h0)
            }
        }
        &&& done ==> status == UploadStatus::Resized || status == UploadStatus::AtlasFull
        &&& status != UploadStatus::NoUploads ==> exists|j: int|
            0 <= j < CELL_COUNT && used[j] != 0 && #[trigger] start[j] == unloaded_at(h0)
        &&& done ==> exists|j: int|
            0 <= j < CELL_COUNT && used[j] != 0 && #[trigger] start[j] == unloaded_at(h0)
                && self.present(j) && (status == UploadStatus::AtlasFull ==> self.tiles@[j]
                == unloaded_at(h0))
        &&& done && status == UploadStatus::Resized ==> {
            &&& self.atlas.width == if 2 * w0 > max_dimension {
                max_dimension as int
            } else {
                2 * w0
            }
            &&& self.atlas.height == if 2 * h0 > max_dimension {
                max_dimension as int
            } else {
                2 * h0
            }
            &&& forall|j: int|
                0 <= j < CELL_COUNT ==> #[trigger] self.tiles@[j] == unloaded_at(self.atlas.height)
            &&& uploads.len() == 0
            &&& self.atlas.curr_offset == (TileOffset { x: 0, y: 0 })
            &&& self.atlas.collected_tiles@.len() == 0
        }
        &&& done && status == UploadStatus::AtlasFull ==> {
            &&& w0 == max_dimension
            &&& h0 == max_dimension
            &&& self.atlas.width == w0
            &&& self.atlas.height == h0
            &&& !is_origin(self.atlas.curr_offset, w0, h0, res0)
            &&& self.stopped_at(used, start, w0, h0, res0)
        }
        &&& forall|k: int|
            0 <= k < uploads.len() ==> {
                &&& (#[trigger] uploads[k]).index < CELL_COUNT
                &&& used[uploads[k].index as int] != 0
                &&& self.tiles@[uploads[k].index as int] == uploads[k].origin
                &&& is_origin(uploads[k].origin, self.atlas.width, self.atlas.height, res0)
                &&& !done ==> visited(uploads[k].index as int, lon, lat)
            }
    }

    /// The walk stopped at a sampled cell `b` of the active dataset that found
    /// no slot: fewer slots are free than cells after `b` still wait for one
    /// (with `b`), and each free one was taken from an unsampled cell after
    /// `b`, every such cell not yet passed having lost its slot; the cells
    /// passed before `b` are settled, the others keep their slot or lost it
    /// to collection.
    pub open spec fn stopped_at(
        &self,
        used: Seq<u32>,
        start: Seq<TileOffset>,
        w0: u32,
        h0: u32,
        res0: int,
    ) -> bool {
        exists|b: int|
            0 <= b < CELL_COUNT && used[b] != 0 && start[b] == unloaded_at(h0) && self.present(b)
                && #[trigger] self.tiles@[b] == unloaded_at(h0)
                && self.atlas.collected_tiles@.len() < 1 + count_waiting(
                used,
                self.tiles@,
                h0,
                b + 1,
                CELL_COUNT as int,
            ) && (forall|j: int|
                b < j < CELL_COUNT && !visited(j, b % 360, b / 360) && used[j] == 0 && in_use(
                    start[j],
                    w0,
                    h0,
                ) ==> #[trigger] self.tiles@[j] == unloaded_at(h0)) && (forall|k: int|
                0 <= k < self.atlas.collected_tiles@.len() ==> freed_from(
                    #[trigger] self.atlas.collected_tiles@[k],
                    used,
                    start,
                    w0,
                    h0,
                    b,
                )) && (forall|j: int|
                0 <= j < CELL_COUNT && visited(j, b % 360, b / 360) ==> settled(
                    start[j],
                    #[trigger] self.tiles@[j],
                    used[j],
                    self.present(j),
                    w0,
                    h0,
                    res0,
                )) && (forall|j: int|
                0 <= j < CELL_COUNT && !visited(j, b % 360, b / 360) ==> #[trigger] self.tiles@[j]
                    == start[j] || (used[j] == 0 && self.tiles@[j] == unloaded_at(h0) && is_origin(
                    start[j],
                    w0,
                    h0,
                    res0,
                )))
    }

    /// The slots a frame that selects dataset `selected` starts from.
    pub open spec fn start_of(&self, selected: usize) -> Seq<TileOffset> {
        frame_start(self.tiles@, selected != self.atlas.curr_dataset, self.atlas.height)
    }

    /// Whether the active dataset holds the tile of cell `i`.
    pub open spec fn present(&self, i: int) -> bool {
        self.atlas.datasets@[self.atlas.curr_dataset as int].tile_map@[i] != 0
    }

    pub fn new(datasets: Vec<Dataset>, max_dimension: u32) -> (r: TileCache)
        requires
            max_dimension > 0,
            forall|k: int|
                0 <= k < datasets@.len() ==> (#[trigger] datasets@[k]).wf()
                    && datasets@[k].metadata.resolution > 0,
        ensures
            r.wf(),
            r.atlas.datasets@ == datasets@,
            !r.atlas.active(),
            r.atlas.width == if max_dimension < INITIAL_ATLAS_SIZE { max_dimension } else { INITIAL_ATLAS_SIZE },
            r.atlas.height == r.atlas.width,
            forall|i: int| 0 <= i < CELL_COUNT ==> #[trigger] r.tiles@[i] == unloaded_at(r.atlas.height),
    {
        let atlas = Atlas::new(datasets, max_dimension);
        let tiles = vec![atlas.unloaded(); CELL_COUNT];
        proof {
            assert(atlas.collected_tiles@ =~= Seq::empty());
            lemma_distinct_empty(tiles@, atlas.curr_offset, atlas.width, atlas.height);
        }
        TileCache { atlas, tiles }
    }

    /// Switches to dataset `selected` and forgets every placement.
    pub fn clear(&mut self, selected: usize)
        requires
            old(self).wf(),
            selected < old(self).atlas.datasets@.len(),
        ensures
            final(self).wf(),
            final(self).atlas.active(),
            final(self).atlas.curr_dataset == selected,
            final(self).atlas.datasets@ == old(self).atlas.datasets@,
            final(self).atlas.width == old(self).atlas.width,
            final(self).atlas.height == old(self).atlas.height,
            final(self).atlas.collected_tiles@.len() == 0,
            final(self).atlas.curr_offset == (TileOffset { x: 0, y: 0 }),
            forall|i: int| 0 <= i < CELL_COUNT ==> #[trigger] final(self).tiles@[i] == unloaded_at(old(self).atlas.height),
    {
        let unloaded = self.atlas.unloaded();
        let mut i: usize = 0;
        while i < CELL_COUNT
            invariant
                self.atlas == old(self).atlas,
                unloaded == unloaded_at(self.atlas.height),
                i <= CELL_COUNT,
                self.tiles@.len() == CELL_COUNT,
                forall|j: int| 0 <= j < i ==> #[trigger] self.tiles@[j] == unloaded,
            decreases CELL_COUNT - i,
        {
            self.tiles.set(i, unloaded);
            i = i + 1;
        }
        self.atlas.clear(selected);
        proof {
            assert(self.atlas.collected_tiles@ =~= Seq::empty());
            lemma_distinct_empty(self.tiles@, self.atlas.curr_offset, self.atlas.width, self.atlas.height);
        }
    }

    /// The side of the tiles of the active dataset.
    pub fn tile_size(&self) -> (r: u32)
        requires
            self.atlas.active(),
        ensures
            r == self.atlas.res(),
    {
        self.atlas.tile_size()
    }

    /// Takes back the slot of a cell whose tile could not be read, so that
    /// the cell counts as not loaded.
    pub fn release(&mut self, index: usize)
        requires
            old(self).wf(),
            index < CELL_COUNT,
        ensures
            final(self).wf(),
            final(self).atlas.datasets@ == old(self).atlas.datasets@,
            final(self).atlas.curr_dataset == old(self).atlas.curr_dataset,
            final(self).atlas.width == old(self).atlas.width,
            final(self).atlas.height == old(self).atlas.height,
            final(self).tiles@ == if old(self).tiles@[index as int] == not_found_at(old(self).atlas.width) {
                old(self).tiles@
            } else {
                old(self).tiles@.update(index as int, unloaded_at(old(self).atlas.height))
            },
    {
        let t = self.tiles[index];
        let unloaded = self.atlas.unloaded();
        let ghost tiles0 = self.tiles@;
        let ghost free0 = self.atlas.collected_tiles@;
        if t != unloaded && t != self.atlas.not_found() {
            self.atlas.return_tile(t);
            proof {
                lemma_distinct_release(tiles0, free0, self.atlas.curr_offset, self.atlas.width, self.atlas.height, index as int);
            }
        }
        if t != self.atlas.not_found() {
            self.tiles.set(index, unloaded);
        }
    }

    /// One frame of residency. `used[i]` is non-zero where the last frame
    /// sampled cell `i`; `selected` is the dataset for this view; the atlas
    /// never grows past `max_dimension` on a side. Returns what changed and
    /// the tiles to copy into the atlas, each at its slot.
    #[verifier::rlimit(100)]
    pub fn populate_tiles(&mut self, used: &[u32], selected: usize, max_dimension: u32) -> (r: (UploadStatus, Vec<TileUpload>))
        requires
            old(self).wf(),
            used@.len() == CELL_COUNT,
            selected < old(self).atlas.datasets@.len(),
            old(self).atlas.width <= max_dimension,
            old(self).atlas.height <= max_dimension,
        ensures
            final(self).wf(),
            final(self).atlas.active(),
            final(self).atlas.curr_dataset == selected,
            final(self).atlas.datasets@ == old(self).atlas.datasets@,
            final(self).atlas.width <= max_dimension,
            final(self).atlas.height <= max_dimension,
            r.0 == UploadStatus::NoUploads || r.0 == UploadStatus::Uploads ==> final(self).atlas.width
                == old(self).atlas.width && final(self).atlas.height == old(self).atlas.height,
            r.0 == UploadStatus::NoUploads || r.0 == UploadStatus::Uploads ==> forall|i: int|
                0 <= i < CELL_COUNT ==> settled(
                    old(self).start_of(selected)[i],
                    #[trigger] final(self).tiles@[i],
                    used@[i],
                    final(self).present(i),
                    old(self).atlas.width,
                    old(self).atlas.height,
                    final(self).atlas.res(),
                ),
            r.0 == UploadStatus::Uploads ==> exists|i: int|
                0 <= i < CELL_COUNT && used@[i] != 0 && #[trigger] old(self).start_of(selected)[i]
                    == unloaded_at(old(self).atlas.height),
            r.0 == UploadStatus::NoUploads ==> forall|i: int|
                0 <= i < CELL_COUNT && used@[i] != 0 ==> #[trigger] old(self).start_of(selected)[i]
                    != unloaded_at(old(self).atlas.height),
            r.0 == UploadStatus::Resized ==> {
                &&& final(self).atlas.width == if 2 * old(self).atlas.width > max_dimension {
                    max_dimension as int
                } else {
                    2 * old(self).atlas.width
                }
                &&& final(self).atlas.height == if 2 * old(self).atlas.height > max_dimension {
                    max_dimension as int
                } else {
                    2 * old(self).atlas.height
                }
                &&& forall|i: int|
                    0 <= i < CELL_COUNT ==> #[trigger] final(self).tiles@[i] == unloaded_at(
                        final(self).atlas.height,
                    )
                &&& r.1@.len() == 0
            },
            selected == old(self).atlas.curr_dataset && (r.0 == UploadStatus::NoUploads || r.0
                == UploadStatus::Uploads) ==> forall|i: int|
                0 <= i < CELL_COUNT && used@[i] == 0 && is_origin(
                    #[trigger] old(self).tiles@[i],
                    old(self).atlas.width,
                    old(self).atlas.height,
                    final(self).atlas.res(),
                ) ==> final(self).tiles@[i] == unloaded_at(final(self).atlas.height) && held(
                    old(self).tiles@[i],
                    final(self).atlas.collected_tiles@,
                    r.1@,
                ),
            r.0 == UploadStatus::Resized ==> final(self).atlas.curr_offset == (TileOffset { x: 0, y: 0 })
                && final(self).atlas.collected_tiles@.len() == 0,
            r.0 != UploadStatus::NoUploads ==> exists|i: int|
                0 <= i < CELL_COUNT && used@[i] != 0 && #[trigger] old(self).start_of(selected)[i]
                    == unloaded_at(old(self).atlas.height),
            r.0 == UploadStatus::Resized || r.0 == UploadStatus::AtlasFull ==> exists|i: int|
                0 <= i < CELL_COUNT && used@[i] != 0 && #[trigger] old(self).start_of(selected)[i]
                    == unloaded_at(old(self).atlas.height) && final(self).present(i),
            r.0 == UploadStatus::AtlasFull ==> {
                &&& final(self).atlas.width == old(self).atlas.width
                &&& final(self).atlas.height == old(self).atlas.height
                &&& !is_origin(
                    final(self).atlas.curr_offset,
                    final(self).atlas.width,
                    final(self).atlas.height,
                    final(self).atlas.res(),
                )
                &&& exists|i: int|
                    0 <= i < CELL_COUNT && used@[i] != 0 && final(self).present(i)
                        && #[trigger] final(self).tiles@[i] == unloaded_at(final(self).atlas.height)
                &&& final(self).stopped_at(
                    used@,
                    old(self).start_of(selected),
                    old(self).atlas.width,
                    old(self).atlas.height,
                    final(self).atlas.res(),
                )
            },
            selected != old(self).atlas.curr_dataset && r.0 == UploadStatus::NoUploads ==> {
                &&& final(self).atlas.collected_tiles@.len() == 0
                &&& final(self).atlas.curr_offset == (TileOffset { x: 0, y: 0 })
            },
            r.0 == UploadStatus::AtlasFull ==> old(self).atlas.width == max_dimension
                && old(self).atlas.height == max_dimension,
            forall|k: int|
                0 <= k < r.1@.len() ==> {
                    &&& (#[trigger] r.1@[k]).index < CELL_COUNT
                    &&& used@[r.1@[k].index as int] != 0
                    &&& final(self).tiles@[r.1@[k].index as int] == r.1@[k].origin
                    &&& is_origin(
                        r.1@[k].origin,
                        final(self).atlas.width,
                        final(self).atlas.height,
                        final(self).atlas.res(),
                    )
                },
    {
        let ghost switched = selected != old(self).atlas.curr_dataset;
        if self.atlas.needs_clear(selected) {
            self.clear(selected);
        }
        let ghost start = self.tiles@;
        let ghost w0 = self.atlas.width;
        let ghost h0 = self.atlas.height;
        let ghost res0 = self.atlas.res();
        proof {
            assert(start =~= old(self).start_of(selected));
        }
        let unloaded = self.atlas.unloaded();
        let not_found = self.atlas.not_found();
        let mut status = UploadStatus::NoUploads;
        let mut uploads: Vec<TileUpload> = Vec::new();
        let mut done = false;
        let mut lon: usize = 0;
        while lon < LON_CELLS && !done
            invariant
                self.walk_inv(
                    old(self).atlas.datasets@, selected, used@, start, w0, h0, res0, max_dimension,
                    status, uploads@, done, switched, lon as int, 0,
                ),
                used@.len() == CELL_COUNT,
                lon <= LON_CELLS,
                !done ==> unloaded == unloaded_at(h0) && not_found == not_found_at(w0),
            decreases LON_CELLS - lon,
        {
            let mut lat: usize = 0;
            while lat < LAT_CELLS && !done
                invariant
                    self.walk_inv(
                        old(self).atlas.datasets@, selected, used@, start, w0, h0, res0, max_dimension,
                        status, uploads@, done, switched, lon as int, lat as int,
                    ),
                    used@.len() == CELL_COUNT,
                    lon < LON_CELLS,
                    lat <= LAT_CELLS,
                    !done ==> unloaded == unloaded_at(h0) && not_found == not_found_at(w0),
                decreases LAT_CELLS - lat,
            {
                let index = lat * LON_CELLS + lon;
                proof {
                    lemma_fundamental_div_mod_converse(index as int, 360, lat as int, lon as int);
                }
                let ghost before = self.tiles@;
                let ghost free_b = self.atlas.collected_tiles@;
                let ghost up_b = uploads@;
                let t = self.tiles[index];
                if used[index] == 0 {
                    if t != unloaded && t != not_found {
                        self.atlas.return_tile(t);
                        self.tiles.set(index, unloaded);
                        proof {
                            assert(t == start[index as int]);
                            assert forall|j: int|
                                0 <= j < CELL_COUNT && used@[j] == 0 && is_origin(start[j], w0, h0, res0)
                                    && #[trigger] self.tiles@[j] == unloaded_at(h0) implies held(
                                    start[j],
                                    self.atlas.collected_tiles@,
                                    uploads@,
                                ) by {
                                if j == index {
                                    assert(self.atlas.collected_tiles@[free_b.len() as int] == start[j]);
                                } else {
                                    assert(before[j] == self.tiles@[j]);
                                    lemma_held_push_free(start[j], free_b, up_b, t);
                                }
                            }
                        }
                    }
                } else if t == unloaded {
                    assert(start[index as int] == unloaded_at(h0));
                    status = UploadStatus::Uploads;
                    let present = self.atlas.datasets[self.atlas.curr_dataset].tile_map[index] != 0;
                    if !present {
                        self.tiles.set(index, not_found);
                    } else {
                        match self.atlas.allocate() {
                            Some(origin) => {
                                self.tiles.set(index, origin);
                                uploads.push(TileUpload { index, origin });
                                proof {
                                    let u = TileUpload { index, origin };
                                    assert forall|j: int|
                                        0 <= j < CELL_COUNT && used@[j] == 0 && is_origin(start[j], w0, h0, res0)
                                            && #[trigger] self.tiles@[j] == unloaded_at(h0) implies held(
                                            start[j],
                                            self.atlas.collected_tiles@,
                                            uploads@,
                                        ) by {
                                        assert(before[j] == self.tiles@[j]);
                                        if free_b.len() > 0 {
                                            lemma_held_pop(start[j], free_b, up_b, u);
                                        } else {
                                            assert(self.atlas.collected_tiles@ =~= free_b);
                                            lemma_held_push_upload(start[j], free_b, up_b, u);
                                        }
                                    }
                                }
                            },
                            None => {
                                let ghost tiles_g = self.tiles@;
                                let ghost free_len_g = self.atlas.collected_tiles@.len();
                                if self.atlas.collect_tiles(used, &mut self.tiles, index) {
                                    let ghost free_c = self.atlas.collected_tiles@;
                                    let ghost tiles_c = self.tiles@;
                                    proof {
                                        assert forall|j: int|
                                            0 <= j < CELL_COUNT && used@[j] == 0 && is_origin(start[j], w0, h0, res0)
                                                && #[trigger] tiles_c[j] == unloaded_at(h0) implies held(
                                                start[j],
                                                free_c,
                                                up_b,
                                            ) by {
                                            if before[j] == tiles_c[j] {
                                                if free_b.contains(start[j]) {
                                                    lemma_contains_extended(free_b, free_c, start[j]);
                                                }
                                            } else {
                                                assert(before[j] == start[j]);
                                            }
                                        }
                                    }
                                    let origin = self.atlas.allocate().unwrap();
                                    self.tiles.set(index, origin);
                                    uploads.push(TileUpload { index, origin });
                                    proof {
                                        let u = TileUpload { index, origin };
                                        assert forall|j: int|
                                            0 <= j < CELL_COUNT && used@[j] == 0 && is_origin(start[j], w0, h0, res0)
                                                && #[trigger] self.tiles@[j] == unloaded_at(h0) implies held(
                                                start[j],
                                                self.atlas.collected_tiles@,
                                                uploads@,
                                            ) by {
                                            assert(tiles_c[j] == self.tiles@[j]);
                                            lemma_held_pop(start[j], free_c, up_b, u);
                                        }
                                    }
                                } else {
                                    if self.atlas.recreate_atlas(max_dimension) {
                                        let fresh = self.atlas.unloaded();
                                        self.fill(fresh);
                                        uploads.clear();
                                        status = UploadStatus::Resized;
                                    } else {
                                        status = UploadStatus::AtlasFull;
                                        proof {
                                            assert(free_len_g == 0);
                                            assert forall|j: int| index + 1 <= j < CELL_COUNT implies waiting(used@, tiles_g, h0, j) == waiting(used@, self.tiles@, h0, j) by {
                                                assert(h0 == self.atlas.height);
                                            }
                                            lemma_count_waiting_same(used@, tiles_g, self.tiles@, h0, index + 1, CELL_COUNT as int);
                                            assert(index as int % 360 == lon && index as int / 360 == lat);
                                            assert forall|k: int|
                                                0 <= k < self.atlas.collected_tiles@.len() implies freed_from(
                                                    #[trigger] self.atlas.collected_tiles@[k],
                                                    used@,
                                                    start,
                                                    w0,
                                                    h0,
                                                    index as int,
                                                ) by {
                                                let x = self.atlas.collected_tiles@[k];
                                                assert(freed_from(x, used@, tiles_g, w0, h0, index as int));
                                                let j = choose|j: int|
                                                    index < j < CELL_COUNT && freeable(used@, tiles_g, w0, h0, j)
                                                        && #[trigger] tiles_g[j] == x;
                                                if visited(j, lon as int, lat as int) {
                                                    assert(settled(start[j], tiles_g[j], used@[j], self.present(j), w0, h0, res0));
                                                }
                                                assert(start[j] == x);
                                            }
                                            assert(self.tiles@[index as int] == unloaded_at(h0));
                                            assert(self.stopped_at(used@, start, w0, h0, res0));
                                        }
                                    }
                                    done = true;
                                }
                            },
                        }
                    }
                }
                lat = lat + 1;
            }
            proof {
                if !done {
                    assert forall|j: int| 0 <= j < CELL_COUNT implies visited(j, lon as int, LAT_CELLS as int) == visited(j, lon + 1, 0) by {
                        lemma_cell_row_col(j);
                    }
                }
            }
            lon = lon + 1;
        }
        proof {
            assert(h0 == old(self).atlas.height);
            if status != UploadStatus::NoUploads {
                let j = choose|j: int|
                    0 <= j < CELL_COUNT && used@[j] != 0 && #[trigger] start[j] == unloaded_at(h0);
                assert(old(self).start_of(selected)[j] == start[j]);
            }
            if done {
                let j = choose|j: int|
                    0 <= j < CELL_COUNT && used@[j] != 0 && #[trigger] start[j] == unloaded_at(h0)
                        && self.present(j) && (status == UploadStatus::AtlasFull ==> self.tiles@[j]
                        == unloaded_at(h0));
                assert(old(self).start_of(selected)[j] == start[j]);
                if status == UploadStatus::AtlasFull {
                    assert(self.tiles@[j] == unloaded_at(self.atlas.height));
                    assert(start == old(self).start_of(selected));
                }
            }
        }
        (status, uploads)
    }

    /// The bytes to write to the tile map after a frame that changed it.
    pub fn tile_map_bytes(&self) -> (r: Vec<u8>)
        ensures
            r@ == tile_map_spec(self.tiles@),
    {
        let mut out: Vec<u8> = Vec::new();
        let mut i: usize = 0;
        while i < self.tiles.len()
            invariant
                i <= self.tiles@.len(),
                out@ == tile_map_spec(self.tiles@.subrange(0, i as int)),
            decreases self.tiles@.len() - i,
        {
            let t = self.tiles[i];
            let mut x = u32_to_le_bytes(t.x);
            let mut y = u32_to_le_bytes(t.y);
            proof {
                let next = self.tiles@.subrange(0, i + 1);
                assert(next.drop_last() =~= self.tiles@.subrange(0, i as int));
            }
            out.append(&mut x);
            out.append(&mut y);
            i = i + 1;
            assert(out@ =~= tile_map_spec(self.tiles@.subrange(0, i as int)));
        }
        assert(self.tiles@.subrange(0, self.tiles@.len() as int) =~= self.tiles@);
        out
    }

    fn fill(&mut self, value: TileOffset)
        requires
            old(self).atlas.wf(),
            old(self).atlas.collected_tiles@.len() == 0,
            old(self).tiles@.len() == CELL_COUNT,
            value == unloaded_at(old(self).atlas.height),
        ensures
            final(self).wf(),
            final(self).atlas == old(self).atlas,
            forall|i: int| 0 <= i < CELL_COUNT ==> #[trigger] final(self).tiles@[i] == value,
    {
        let mut i: usize = 0;
        while i < CELL_COUNT
            invariant
                self.atlas == old(self).atlas,
                self.atlas.wf(),
                value == unloaded_at(self.atlas.height),
                i <= CELL_COUNT,
                self.tiles@.len() == CELL_COUNT,
                forall|j: int| 0 <= j < i ==> #[trigger] self.tiles@[j] == value,
            decreases CELL_COUNT - i,
        {
            self.tiles.set(i, value);
            i = i + 1;
        }
        proof {
            assert(self.atlas.collected_tiles@ =~= Seq::empty());
            lemma_distinct_empty(self.tiles@, self.atlas.curr_offset, self.atlas.width, self.atlas.height);
        }
    }
}

} // verus!
