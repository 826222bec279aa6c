//! The kernel's dynamic memory allocator: a first-fit free-list heap whose
//! block metadata lives inside the arena itself.
//!
//! The arena is modeled as a flat array of machine words; every block is
//! bracketed by a four-word header (sentinel, size, state tag, state payload)
//! and a one-word footer holding the header's offset, so a block can be
//! walked forward by its size and validated backward through its footer.
//! Free blocks are singly linked through the header payload; there is no
//! coalescing of adjacent free blocks and no best-fit search — first fit in
//! list order is deliberate, observable behavior. The arena grows only at
//! its tail, in whole pages, up to the capacity the virtual-memory service
//! can supply.
//!
//! Internally all offsets and block sizes are counted in words; requested
//! sizes and returned pointers are in bytes, as callers see them.

use vstd::prelude::*;
use crate::num::{round_up, round_up_spec, lemma_round_up_bounds};
use vstd::arithmetic::div_mod::lemma_fundamental_div_mod;

verus! {

/// Sentinel found at the start of every header; anything else is corruption.
pub const MAGIC: usize = 0x71ff11a1;

/// Header footprint in bytes.
pub const HEADER_SIZE: usize = 32;

/// Footer footprint in bytes.
pub const FOOTER_SIZE: usize = 8;

/// Metadata bytes carried by every block.
pub const OVERHEAD: usize = 40;

/// Block sizes are multiples of this many bytes.
pub const GRANULARITY: usize = 32;

/// The architecture's page size in bytes; the arena grows in whole pages.
pub const PAGE_SIZE: usize = 4096;

/// The smallest block: the granularity multiple that still holds the
/// overhead. A split never leaves a remainder smaller than this.
pub const MIN_BLOCK: usize = 64;

/// Free-list terminator, distinguishable from any offset into the arena.
pub const NO_NEXT: usize = usize::MAX;

pub const WORD: usize = 8;

pub const HEADER_WORDS: usize = 4;

pub const MIN_WORDS: usize = 8;

pub const PAGE_WORDS: usize = 512;

pub const TAG_FREE: usize = 0;

pub const TAG_USED: usize = 1;

/// Which heap an allocation goes to. Only the global heap exists so far;
/// process-local heaps are a reserved distinction.
#[derive(Clone, Copy, PartialEq, Eq, Structural, Debug)]
pub enum HeapId {
    LocalHeap,
    GlobalHeap,
}

/// A block's state: on the free list (with the word offset of the next free
/// block's header, if any), or in use (recording the requested byte count).
pub ghost enum BlockState {
    Free { next: Option<int> },
    Used { requested: int },
}

/// One block of the arena, as the model sees it: its size in words and its
/// state. Its key in the block map is its header's word offset.
pub ghost struct BlockSpec {
    pub size: int,
    pub state: BlockState,
}

/// The word a free block's payload holds for a given successor.
pub open spec fn next_word(n: Option<int>) -> int {
    match n {
        Some(x) => x,
        None => NO_NEXT as int,
    }
}

/// The heap arena: backing words, whether the arena has been born, the tail
/// block's header offset, the free-list head, and the page budget the
/// virtual-memory service can still honor. The ghost block map and free-list
/// order are the model every contract speaks of.
pub struct HeapDef {
    words: Vec<usize>,
    started: bool,
    last_head: usize,
    first_free: usize,
    capacity: usize,
    blocks: Ghost<Map<int, BlockSpec>>,
    free_list: Ghost<Seq<int>>,
}

impl HeapDef {
    /// The arena's words, for contracts.
    pub closed spec fn mem(self) -> Seq<usize> {
        self.words@
    }

    /// Arena size in bytes.
    pub open spec fn arena_size(self) -> int {
        self.mem().len() * 8int
    }

    /// The blocks tiling the arena, keyed by header word offset.
    pub closed spec fn blocks_spec(self) -> Map<int, BlockSpec> {
        self.blocks@
    }

    /// The free list, as the sequence of free-block header offsets in link
    /// order starting from the list head.
    pub closed spec fn free_list_spec(self) -> Seq<int> {
        self.free_list@
    }

    pub closed spec fn started_spec(self) -> bool {
        self.started
    }

    /// Header word offset of the tail-most block.
    pub closed spec fn last_head_spec(self) -> int {
        self.last_head as int
    }

    /// Capacity in bytes beyond which the virtual-memory service refuses.
    pub closed spec fn capacity_spec(self) -> int {
        self.capacity as int
    }

    pub closed spec fn first_free_spec(self) -> int {
        self.first_free as int
    }

    /// Shape of one block: aligned to the granularity, no smaller than the
    /// minimum, inside the arena, and—when in use—large enough for the
    /// request plus metadata.
    pub open spec fn block_shape(self, o: int) -> bool {
        let b = self.blocks_spec()[o];
        &&& 0 <= o
        &&& o % 4 == 0
        &&& b.size % 4 == 0
        &&& MIN_WORDS <= b.size
        &&& o + b.size <= self.mem().len()
        &&& (b.state matches BlockState::Used { requested } ==> 0 <= requested && requested
            + OVERHEAD <= b.size * 8)
    }

    /// The header/footer words a block writes into the arena.
    pub open spec fn encode_at(w: Seq<usize>, o: int, b: BlockSpec) -> bool {
        &&& w[o] == MAGIC
        &&& w[o + 1] as int == b.size
        &&& (match b.state {
            BlockState::Free { next } => w[o + 2] == TAG_FREE && w[o + 3] as int == next_word(
                next,
            ),
            BlockState::Used { requested } => w[o + 2] == TAG_USED && w[o + 3] as int
                == requested,
        })
        &&& w[o + b.size - 1] as int == o
    }

    /// The free-list successor recorded in a block's state, if it is free.
    pub open spec fn free_next(b: BlockSpec) -> Option<int> {
        match b.state {
            BlockState::Free { next } => next,
            BlockState::Used { .. } => None,
        }
    }

    /// Configuration and extent: the capacity is page-whole and small
    /// enough that byte arithmetic cannot overflow; the arena is page-whole
    /// and within capacity; an unborn arena is empty; a born one ends
    /// exactly where its tail block does.
    pub open spec fn wf_config(self) -> bool {
        let dom = self.blocks_spec().dom();
        let b = self.blocks_spec();
        let f = self.free_list_spec();
        &&& self.capacity_spec() % (PAGE_SIZE as int) == 0
        &&& self.capacity_spec() <= (usize::MAX as int) / 2
        &&& self.arena_size() <= self.capacity_spec()
        &&& (!self.started_spec() ==> self.mem().len() == 0 && dom =~= Set::<int>::empty()
            && f.len() == 0)
        &&& (self.started_spec() ==> {
            &&& self.arena_size() % (PAGE_SIZE as int) == 0
            &&& self.arena_size() >= PAGE_SIZE
            &&& dom.contains(self.last_head_spec())
            &&& self.last_head_spec() + b[self.last_head_spec()].size == self.mem().len()
        })
    }

    /// Every block is well-shaped and encoded in the arena's words.
    pub open spec fn wf_blocks(self) -> bool {
        let dom = self.blocks_spec().dom();
        let b = self.blocks_spec();
        &&& (forall|o: int| dom.contains(o) ==> #[trigger] self.block_shape(o))
        &&& (forall|o: int|
            dom.contains(o) ==> #[trigger] Self::encode_at(self.mem(), o, b[o]))
    }

    /// Blocks never overlap: of two distinct blocks, the lower ends at or
    /// before the higher begins.
    pub open spec fn disjoint_pair(self, o1: int, o2: int) -> bool {
        self.blocks_spec().dom().contains(o1) && self.blocks_spec().dom().contains(o2)
            && o1 < o2 ==> o1 + self.blocks_spec()[o1].size <= o2
    }

    pub open spec fn wf_disjoint(self) -> bool {
        forall|o1: int, o2: int| #[trigger] self.disjoint_pair(o1, o2)
    }

    /// The free list enumerates exactly the free blocks, without
    /// duplicates, linked in order from the list head.
    pub open spec fn wf_free(self) -> bool {
        let dom = self.blocks_spec().dom();
        let b = self.blocks_spec();
        let f = self.free_list_spec();
        &&& (forall|j: int|
            0 <= j < f.len() ==> dom.contains(#[trigger] f[j]) && b[f[j]].state is Free)
        &&& (forall|i: int, j: int| 0 <= i < j < f.len() ==> f[i] != f[j])
        &&& (f.len() == 0 ==> self.first_free_spec() == NO_NEXT as int)
        &&& (f.len() > 0 ==> self.first_free_spec() == f[0])
        &&& (forall|j: int|
            0 <= j < f.len() ==> Self::free_next(b[#[trigger] f[j]]) == (if j + 1 < f.len() {
                Some(f[j + 1])
            } else {
                None
            }))
        &&& (forall|o: int|
            dom.contains(o) && b[o].state is Free ==> #[trigger] f.contains(o))
    }

    /// The heap's invariant.
    pub open spec fn wf(self) -> bool {
        &&& self.wf_config()
        &&& self.wf_blocks()
        &&& self.wf_disjoint()
        &&& self.wf_free()
    }

    /// A fresh, unborn heap over a virtual-memory budget of `capacity`
    /// bytes. The limit keeps all byte arithmetic within the machine word.
    pub fn new(capacity: usize) -> (h: HeapDef)
        requires
            capacity % PAGE_SIZE == 0,
            capacity <= usize::MAX / 2,
        ensures
            h.wf(),
            !h.started_spec(),
            h.capacity_spec() == capacity,
            h.arena_size() == 0,
            h.blocks_spec().dom() =~= Set::<int>::empty(),
            h.free_list_spec().len() == 0,
    {
        HeapDef {
            words: Vec::new(),
            started: false,
            last_head: 0,
            first_free: NO_NEXT,
            capacity,
            blocks: Ghost(Map::empty()),
            free_list: Ghost(Seq::empty()),
        }
    }

    /// Arena size in bytes, as grown so far.
    pub fn arena_len(&self) -> (r: usize)
        requires
            self.wf(),
        ensures
            r as int == self.arena_size(),
    {
        proof {
            assert(self.mem().len() * 8 <= usize::MAX as int);
        }
        self.words.len() * 8
    }

    /// Byte offset of the tail-most block's header — the block whose footer
    /// `last_footer` denotes.
    pub fn last_block(&self) -> (r: usize)
        requires
            self.wf(),
            self.started_spec(),
        ensures
            r as int == self.last_head_spec() * 8,
    {
        proof {
            assert(self.blocks_spec().dom().contains(self.last_head_spec()));
            assert(self.block_shape(self.last_head_spec()));
        }
        self.last_head * 8
    }

    /// Whether the arena has been born (grown at least once).
    pub fn is_started(&self) -> (r: bool)
        ensures
            r == self.started_spec(),
    {
        self.started
    }

    /// Probe the block whose header sits at byte offset `at`: its size in
    /// bytes and whether it is free, or nothing if no well-formed header is
    /// there. Exact for every real block; a stray sentinel elsewhere in the
    /// arena is the caller's corruption to interpret.
    pub fn probe_block(&self, at: usize) -> (r: Option<(usize, bool)>)
        requires
            self.wf(),
        ensures
            at % 8 == 0 && self.blocks_spec().dom().contains(at as int / 8) ==> {
                let b = self.blocks_spec()[at as int / 8];
                &&& r.is_some()
                &&& r.unwrap().0 as int == 8 * b.size
                &&& r.unwrap().1 == b.state is Free
            },
    {
        if at % 8 != 0 {
            return None;
        }
        let o = at / 8;
        if o >= self.words.len() || self.words.len() - o < HEADER_WORDS {
            proof {
                if self.blocks_spec().dom().contains(o as int) {
                    assert(self.block_shape(o as int));
                }
            }
            return None;
        }
        if self.words[o] != MAGIC {
            proof {
                if self.blocks_spec().dom().contains(o as int) {
                    assert(Self::encode_at(self.mem(), o as int, self.blocks_spec()[o as int]));
                }
            }
            return None;
        }
        let size = self.words[o + 1];
        let tag = self.words[o + 2];
        proof {
            if self.blocks_spec().dom().contains(o as int) {
                let b = self.blocks_spec()[o as int];
                assert(Self::encode_at(self.mem(), o as int, b));
                assert(self.block_shape(o as int));
                assert(size * 8 <= self.mem().len() * 8);
            }
        }
        if size > self.words.len() {
            return None;
        }
        Some((size * 8, tag == TAG_FREE))
    }
}


impl HeapDef {
    /// A used block's payload starts at byte offset `ptr`: the header sits
    /// one header-length before it.
    pub open spec fn live_at(self, ptr: int) -> bool {
        &&& ptr % 8 == 0
        &&& ptr / 8 >= 4
        &&& self.blocks_spec().dom().contains(ptr / 8 - 4)
        &&& self.blocks_spec()[ptr / 8 - 4].state is Used
    }

    /// Disjointness only depends on the domain and the sizes: any update
    /// that preserves both preserves it.
    proof fn lemma_disjoint_preserved(h1: HeapDef, h2: HeapDef)
        requires
            h1.wf_disjoint(),
            h2.blocks_spec().dom() =~= h1.blocks_spec().dom(),
            forall|o: int|
                h1.blocks_spec().dom().contains(o) ==> (#[trigger] h2.blocks_spec()[o]).size
                    == h1.blocks_spec()[o].size,
        ensures
            h2.wf_disjoint(),
    {
        assert forall|o1: int, o2: int| #[trigger] h2.disjoint_pair(o1, o2) by {
            if h2.blocks_spec().dom().contains(o1) && h2.blocks_spec().dom().contains(o2)
                && o1 < o2 {
                assert(h1.blocks_spec().dom().contains(o1));
                assert(h1.blocks_spec().dom().contains(o2));
                assert(h1.blocks_spec()[o1].size == h2.blocks_spec()[o1].size);
                assert(h1.disjoint_pair(o1, o2));
            }
        }
    }

    /// Write one word of the arena.
    fn write_word(&mut self, i: usize, v: usize)
        requires
            i < old(self).mem().len(),
        ensures
            final(self).mem().len() == old(self).mem().len(),
            final(self).mem() == old(self).mem().update(i as int, v),
            final(self).blocks_spec() == old(self).blocks_spec(),
            final(self).free_list_spec() == old(self).free_list_spec(),
            final(self).started_spec() == old(self).started_spec(),
            final(self).last_head_spec() == old(self).last_head_spec(),
            final(self).first_free_spec() == old(self).first_free_spec(),
            final(self).capacity_spec() == old(self).capacity_spec(),
    {
        self.words.set(i, v);
    }

    /// Write a whole block frame at `o`: sentinel, size, state words, and
    /// the footer at its far end.
    fn write_block(&mut self, o: usize, size: usize, tag: usize, val: usize)
        requires
            o + size <= old(self).mem().len(),
            5 <= size,
        ensures
            final(self).mem().len() == old(self).mem().len(),
            final(self).mem()[o as int] == MAGIC,
            final(self).mem()[o as int + 1] == size,
            final(self).mem()[o as int + 2] == tag,
            final(self).mem()[o as int + 3] == val,
            final(self).mem()[o as int + size - 1] == o,
            forall|i: int|
                0 <= i < old(self).mem().len() && i != o && i != o + 1 && i != o + 2 && i != o
                    + 3 && i != o + size - 1 ==> final(self).mem()[i] == old(self).mem()[i],
            final(self).blocks_spec() == old(self).blocks_spec(),
            final(self).free_list_spec() == old(self).free_list_spec(),
            final(self).started_spec() == old(self).started_spec(),
            final(self).last_head_spec() == old(self).last_head_spec(),
            final(self).first_free_spec() == old(self).first_free_spec(),
            final(self).capacity_spec() == old(self).capacity_spec(),
    {
        let n = self.words.len();
        assert(o + size <= n);
        self.words.set(o, MAGIC);
        self.words.set(o + 1, size);
        self.words.set(o + 2, tag);
        self.words.set(o + 3, val);
        self.words.set(o + size - 1, o);
    }

    /// Write only a block's two state words.
    fn write_state(&mut self, o: usize, tag: usize, val: usize)
        requires
            o + 4 <= old(self).mem().len(),
        ensures
            final(self).mem().len() == old(self).mem().len(),
            final(self).mem()[o as int + 2] == tag,
            final(self).mem()[o as int + 3] == val,
            forall|i: int|
                0 <= i < old(self).mem().len() && i != o + 2 && i != o + 3
                    ==> final(self).mem()[i] == old(self).mem()[i],
            final(self).blocks_spec() == old(self).blocks_spec(),
            final(self).free_list_spec() == old(self).free_list_spec(),
            final(self).started_spec() == old(self).started_spec(),
            final(self).last_head_spec() == old(self).last_head_spec(),
            final(self).first_free_spec() == old(self).first_free_spec(),
            final(self).capacity_spec() == old(self).capacity_spec(),
    {
        let n = self.words.len();
        assert(o + 4 <= n);
        self.words.set(o + 2, tag);
        self.words.set(o + 3, val);
    }

    /// A block's encoding survives writes confined to two windows that both
    /// miss its word range.
    proof fn lemma_encode_frame2(
        w1: Seq<usize>,
        w2: Seq<usize>,
        o: int,
        b: BlockSpec,
        lo1: int,
        hi1: int,
        lo2: int,
        hi2: int,
    )
        requires
            w2.len() >= w1.len(),
            Self::encode_at(w1, o, b),
            0 <= o,
            b.size >= 5,
            o + b.size <= w1.len(),
            forall|i: int|
                0 <= i < w1.len() && !(lo1 <= i < hi1) && !(lo2 <= i < hi2) ==> w2[i] == w1[i],
            hi1 <= o || o + b.size <= lo1,
            hi2 <= o || o + b.size <= lo2,
        ensures
            Self::encode_at(w2, o, b),
    {
    }

    /// A block's encoding survives writes that stay outside its word range.
    proof fn lemma_encode_frame(w1: Seq<usize>, w2: Seq<usize>, o: int, b: BlockSpec, lo: int, hi: int)
        requires
            w2.len() >= w1.len(),
            Self::encode_at(w1, o, b),
            0 <= o,
            b.size >= 5,
            o + b.size <= w1.len(),
            forall|i: int| 0 <= i < w1.len() && !(lo <= i < hi) ==> w2[i] == w1[i],
            hi <= o || o + b.size <= lo,
        ensures
            Self::encode_at(w2, o, b),
    {
    }

    /// Return the block owning the payload at byte offset `ptr` to the pool:
    /// the header is recovered immediately before the payload, its sentinel
    /// and footer back-pointer are re-validated, and the block is pushed on
    /// the free-list head. Nothing is unmapped and adjacent free neighbors
    /// are never merged — fragmentation is accepted, specified behavior.
    #[verifier::rlimit(80)]
    pub fn deallocate(&mut self, ptr: usize)
        requires
            old(self).wf(),
            old(self).live_at(ptr as int),
        ensures
            final(self).wf(),
            final(self).arena_size() == old(self).arena_size(),
            final(self).capacity_spec() == old(self).capacity_spec(),
            final(self).started_spec() == old(self).started_spec(),
            final(self).last_head_spec() == old(self).last_head_spec(),
            ({
                let o = ptr as int / 8 - 4;
                let oldb = old(self).blocks_spec()[o];
                let hd = if old(self).free_list_spec().len() > 0 {
                    Some(old(self).free_list_spec()[0])
                } else {
                    None
                };
                &&& final(self).free_list_spec() == old(self).free_list_spec().insert(0, o)
                &&& final(self).blocks_spec() == old(self).blocks_spec().insert(
                    o,
                    BlockSpec { size: oldb.size, state: BlockState::Free { next: hd } },
                )
            }),
    {
        let o = ptr / 8 - 4;
        let ghost o_i = o as int;
        proof {
            assert(o_i == ptr as int / 8 - 4);
            assert(self.blocks_spec().dom().contains(o_i));
            assert(self.block_shape(o_i));
            assert(Self::encode_at(self.mem(), o_i, self.blocks_spec()[o_i]));
        }
        // The corruption checks the original made fatal; under the invariant
        // they are provably clean for any live pointer.
        let size = self.words[o + 1];
        let magic = self.words[o];
        assert(magic == MAGIC);
        let foot = self.words[o + size - 1];
        assert(foot == o);

        let hd = self.first_free;
        self.words.set(o + 2, TAG_FREE);
        self.words.set(o + 3, hd);
        self.first_free = o;
        let ghost oldh = *old(self);
        let ghost oldb = oldh.blocks_spec()[o_i];
        let ghost hd_s = if oldh.free_list_spec().len() > 0 {
            Some(oldh.free_list_spec()[0])
        } else {
            Option::<int>::None
        };
        let ghost newb = BlockSpec { size: oldb.size, state: BlockState::Free { next: hd_s } };
        proof {
            self.blocks@ = oldh.blocks_spec().insert(o_i, newb);
            self.free_list@ = oldh.free_list_spec().insert(0, o_i);
        }
        proof {
            let dom = self.blocks_spec().dom();
            let b = self.blocks_spec();
            let f = self.free_list_spec();
            let oldf = oldh.free_list_spec();
            assert(dom =~= oldh.blocks_spec().dom());
            assert(next_word(hd_s) == hd as int);
            // The freed block was not on the free list.
            assert(!oldf.contains(o_i)) by {
                if oldf.contains(o_i) {
                    let j = oldf.index_of(o_i);
                    assert(oldh.blocks_spec()[oldf[j]].state is Free);
                }
            }
            // Encoding: the two written words lie inside the freed block.
            assert forall|o2: int| dom.contains(o2) implies #[trigger] Self::encode_at(
                self.mem(),
                o2,
                self.blocks_spec()[o2],
            ) by {
                assert(oldh.block_shape(o2));
                if o2 == o_i {
                    assert(self.mem()[o_i] == MAGIC);
                    assert(self.mem()[o_i + 1] as int == newb.size);
                    assert(self.mem()[o_i + b[o_i].size - 1] as int == o_i);
                } else {
                    assert(Self::encode_at(oldh.mem(), o2, oldh.blocks_spec()[o2]));
                    if o2 < o_i {
                        assert(oldh.disjoint_pair(o2, o_i));
                        assert(o2 + oldh.blocks_spec()[o2].size <= o_i);
                    } else {
                        assert(oldh.disjoint_pair(o_i, o2));
                        assert(o_i + oldh.blocks_spec()[o_i].size <= o2);
                    }
                    Self::lemma_encode_frame(
                        oldh.mem(),
                        self.mem(),
                        o2,
                        b[o2],
                        o_i,
                        o_i + oldb.size,
                    );
                }
            }
            assert forall|o2: int| dom.contains(o2) implies #[trigger] self.block_shape(o2) by {
                assert(oldh.block_shape(o2));
            }
            Self::lemma_disjoint_preserved(oldh, *self);
            // Free-list clauses.
            assert(f == oldf.insert(0, o_i));
            assert(f[0] == o_i);
            assert forall|j: int| 0 <= j < f.len() implies dom.contains(#[trigger] f[j])
                && b[f[j]].state is Free by {
                if j > 0 {
                    assert(f[j] == oldf[j - 1]);
                    assert(oldh.blocks_spec()[oldf[j - 1]].state is Free);
                    assert(oldf[j - 1] != o_i);
                }
            }
            assert forall|i: int, j: int| 0 <= i < j < f.len() implies f[i] != f[j] by {
                if i == 0 {
                    assert(f[j] == oldf[j - 1]);
                    assert(!oldf.contains(o_i));
                } else {
                    assert(f[i] == oldf[i - 1] && f[j] == oldf[j - 1]);
                }
            }
            assert forall|j: int| 0 <= j < f.len() implies Self::free_next(b[#[trigger] f[j]])
                == (if j + 1 < f.len() {
                    Some(f[j + 1])
                } else {
                    None
                }) by {
                if j == 0 {
                    assert(b[o_i] == newb);
                    if oldf.len() > 0 {
                        assert(f[1] == oldf[0]);
                    }
                } else {
                    assert(f[j] == oldf[j - 1]);
                    assert(oldf[j - 1] != o_i);
                    assert(b[f[j]] == oldh.blocks_spec()[oldf[j - 1]]);
                    assert(Self::free_next(oldh.blocks_spec()[oldf[j - 1]]) == (if j
                        < oldf.len() {
                        Some(oldf[j])
                    } else {
                        None
                    }));
                    if j + 1 < f.len() {
                        assert(f[j + 1] == oldf[j]);
                    }
                }
            }
            assert forall|o2: int| dom.contains(o2) && b[o2].state is Free implies #[trigger] f
                .contains(o2) by {
                if o2 == o_i {
                    assert(f[0] == o2);
                } else {
                    assert(oldh.blocks_spec()[o2].state is Free);
                    assert(oldf.contains(o2));
                    let j = oldf.index_of(o2);
                    assert(f[j + 1] == o2);
                }
            }
            if self.started_spec() {
                assert(self.block_shape(self.last_head_spec()));
                assert(b[self.last_head_spec()].size
                    == oldh.blocks_spec()[oldh.last_head_spec()].size);
            }
            assert(self.wf_config());
            assert(self.wf_blocks());
            assert(self.wf_disjoint());
            assert(self.wf_free());
        }
    }
}


impl HeapDef {
    /// Words needed for a request of `size` bytes: the granularity multiple
    /// covering the request plus metadata, counted in words.
    pub open spec fn blocksize_spec(size: int) -> int {
        round_up_spec(size + OVERHEAD, GRANULARITY as int) / 8
    }

    /// Some free block can hold `bs` words.
    pub open spec fn fits(self, bs: int) -> bool {
        exists|j: int|
            0 <= j < self.free_list_spec().len() && (#[trigger] self.blocks_spec()[
                self.free_list_spec()[j]
            ]).size >= bs
    }

    /// No block on the free list can hold `bs` words.
    pub open spec fn all_free_blocks_smaller(self, bs: int) -> bool {
        forall|k: int|
            0 <= k < self.free_list_spec().len() ==> (#[trigger] self.blocks_spec()[
                self.free_list_spec()[k]
            ]).size < bs
    }

    /// Position `j` holds the first block in list order that fits `bs`
    /// words; earlier positions are all too small. First fit, not best fit:
    /// the tie-break by list order is observable, deliberate behavior.
    pub open spec fn first_fit_at(self, bs: int, j: int) -> bool {
        &&& 0 <= j < self.free_list_spec().len()
        &&& self.blocks_spec()[self.free_list_spec()[j]].size >= bs
        &&& forall|k: int|
            0 <= k < j ==> (#[trigger] self.blocks_spec()[self.free_list_spec()[k]]).size < bs
    }

    /// The tail-most block is free, so growth can extend it in place.
    pub open spec fn tail_is_free(self) -> bool {
        self.started_spec() && self.blocks_spec()[self.last_head_spec()].state is Free
    }

    /// Words of fresh mapping needed before the tail can hold `bs` words.
    pub open spec fn grow_need(self, bs: int) -> int {
        if self.tail_is_free() {
            if self.blocks_spec()[self.last_head_spec()].size >= bs {
                0
            } else {
                bs - self.blocks_spec()[self.last_head_spec()].size
            }
        } else {
            bs
        }
    }

    /// Words the virtual-memory service must map: whole pages covering the
    /// need.
    pub open spec fn grow_amount(self, bs: int) -> int {
        round_up_spec(self.grow_need(bs), PAGE_WORDS as int)
    }

    /// The service can still supply that many pages within its budget.
    pub open spec fn can_grow(self, bs: int) -> bool {
        (self.mem().len() + self.grow_amount(bs)) * 8 <= self.capacity_spec()
    }

    /// An allocation of `size` bytes succeeds exactly when a free block
    /// already fits it or the arena can grow enough to hold it.
    pub open spec fn satisfiable(self, size: int) -> bool {
        self.fits(Self::blocksize_spec(size)) || self.can_grow(Self::blocksize_spec(size))
    }

    /// First-fit walk: follow the free list from its head and stop at the
    /// first block of at least `bs` words. Returns the offsets of the
    /// predecessor (or the list terminator) and the found block (or the
    /// terminator when nothing fits), with the found block's list position.
    #[verifier::rlimit(100)]
    #[verifier::spinoff_prover]
    fn find_fit(&self, bs: usize) -> (r: (usize, usize, Ghost<int>))
        requires
            self.wf(),
        ensures
            ({
                let (prev, cur, j) = r;
                &&& 0 <= j@ <= self.free_list_spec().len()
                &&& (j@ == self.free_list_spec().len() ==> cur == NO_NEXT
                    && self.all_free_blocks_smaller(bs as int))
                &&& (j@ < self.free_list_spec().len() ==> cur as int
                    == self.free_list_spec()[j@] && self.first_fit_at(bs as int, j@))
                &&& (j@ == 0 ==> prev == NO_NEXT)
                &&& (j@ > 0 ==> 0 <= j@ - 1 < self.free_list_spec().len() && prev as int
                    == self.free_list_spec()[j@ - 1])
            }),
    {
        let ghost f = self.free_list_spec();
        let mut prev: usize = NO_NEXT;
        let mut cur: usize = self.first_free;
        let ghost mut j: int = 0;
        loop
            invariant
                self.wf(),
                f == self.free_list_spec(),
                0 <= j <= f.len(),
                (j < f.len() ==> cur as int == f[j]),
                (j == f.len() ==> cur == NO_NEXT),
                (j == 0 ==> prev == NO_NEXT),
                (j > 0 ==> 0 <= j - 1 < f.len() && prev as int == f[j - 1]),
                forall|k: int|
                    0 <= k < j ==> (#[trigger] self.blocks_spec()[f[k]]).size < bs,
            decreases f.len() - j,
        {
            if cur == NO_NEXT {
                proof {
                    if j < f.len() {
                        assert(self.block_shape(f[j]));
                        assert(f[j] + self.blocks_spec()[f[j]].size <= self.mem().len());
                        assert(self.mem().len() * 8 <= self.capacity_spec());
                    }
                    assert(j == f.len());
                    assert(self.all_free_blocks_smaller(bs as int));
                }
                return (prev, cur, Ghost(j));
            }
            proof {
                assert(self.block_shape(f[j]));
                assert(Self::encode_at(self.mem(), f[j], self.blocks_spec()[f[j]]));
            }
            let sz = self.words[cur + 1];
            if sz >= bs {
                return (prev, cur, Ghost(j));
            }
            prev = cur;
            let nxt = self.words[cur + 3];
            proof {
                assert(Self::free_next(self.blocks_spec()[f[j]]) == (if j + 1 < f.len() {
                    Some(f[j + 1])
                } else {
                    None
                }));
                if j + 1 < f.len() {
                    assert(self.block_shape(f[j + 1]));
                    assert(nxt as int == f[j + 1]);
                }
                j = j + 1;
            }
            cur = nxt;
        }
    }

    /// Take the free block at list position `j` out of the list and mark it
    /// used for a request of `req` bytes, leaving its size unchanged.
    #[verifier::rlimit(100)]
    #[verifier::spinoff_prover]
    fn unlink_use(&mut self, prev: usize, cur: usize, Ghost(j): Ghost<int>, req: usize)
        requires
            old(self).wf(),
            0 <= j < old(self).free_list_spec().len(),
            cur as int == old(self).free_list_spec()[j],
            (j == 0 ==> prev == NO_NEXT),
            (j > 0 ==> prev as int == old(self).free_list_spec()[j - 1]),
            req + OVERHEAD <= old(self).blocks_spec()[cur as int].size * 8,
        ensures
            final(self).wf(),
            final(self).mem().len() == old(self).mem().len(),
            final(self).capacity_spec() == old(self).capacity_spec(),
            final(self).started_spec() == old(self).started_spec(),
            final(self).last_head_spec() == old(self).last_head_spec(),
            final(self).free_list_spec() == old(self).free_list_spec().remove(j),
            final(self).blocks_spec().dom() =~= old(self).blocks_spec().dom(),
            final(self).blocks_spec()[cur as int] == (BlockSpec {
                size: old(self).blocks_spec()[cur as int].size,
                state: BlockState::Used { requested: req as int },
            }),
            forall|o: int|
                old(self).blocks_spec().dom().contains(o) && o != cur as int && o != prev as int
                    ==> final(self).blocks_spec()[o] == old(self).blocks_spec()[o],
            (j > 0 ==> final(self).blocks_spec()[prev as int] == (BlockSpec {
                size: old(self).blocks_spec()[prev as int].size,
                state: BlockState::Free {
                    next: Self::free_next(old(self).blocks_spec()[cur as int]),
                },
            })),
            forall|o: int|
                old(self).blocks_spec().dom().contains(o) ==> (#[trigger] final(self).blocks_spec()[o]).size
                    == old(self).blocks_spec()[o].size,
    {
        let ghost oldh = *old(self);
        let ghost o_i = cur as int;
        let ghost f = oldh.free_list_spec();
        proof {
            assert(oldh.blocks_spec().dom().contains(o_i));
            assert(self.block_shape(o_i));
            assert(Self::encode_at(self.mem(), o_i, self.blocks_spec()[o_i]));
            if j > 0 {
                assert(oldh.blocks_spec().dom().contains(prev as int));
                assert(self.block_shape(prev as int));
                assert(Self::encode_at(self.mem(), prev as int, self.blocks_spec()[prev as int]));
                assert(f[j - 1] != f[j]);
            }
        }
        let fnext = self.words[cur + 3];
        self.words.set(cur + 2, TAG_USED);
        self.words.set(cur + 3, req);
        if prev == NO_NEXT {
            proof {
                if j > 0 {
                    assert(self.block_shape(prev as int));
                    assert(prev as int + oldh.blocks_spec()[prev as int].size
                        <= self.mem().len());
                    assert(self.mem().len() * 8 <= self.capacity_spec());
                }
                assert(j == 0);
            }
            self.first_free = fnext;
        } else {
            proof {
                if j == 0 {
                    assert(oldh.block_shape(o_i));
                }
            }
            self.words.set(prev + 3, fnext);
        }
        let ghost newcur = BlockSpec {
            size: oldh.blocks_spec()[o_i].size,
            state: BlockState::Used { requested: req as int },
        };
        let ghost nxt_s = Self::free_next(oldh.blocks_spec()[o_i]);
        proof {
            if j == 0 {
                self.blocks@ = oldh.blocks_spec().insert(o_i, newcur);
            } else {
                let newprev = BlockSpec {
                    size: oldh.blocks_spec()[prev as int].size,
                    state: BlockState::Free { next: nxt_s },
                };
                self.blocks@ = oldh.blocks_spec().insert(o_i, newcur).insert(
                    prev as int,
                    newprev,
                );
            }
            self.free_list@ = f.remove(j);
        }
        proof {
            let dom = self.blocks_spec().dom();
            let fl = self.free_list_spec();
            assert(dom =~= oldh.blocks_spec().dom());
            assert(next_word(nxt_s) == fnext as int);
            // Encoding for every block.
            assert forall|o2: int| dom.contains(o2) implies #[trigger] Self::encode_at(
                self.mem(),
                o2,
                self.blocks_spec()[o2],
            ) by {
                assert(oldh.block_shape(o2));
                assert(Self::encode_at(oldh.mem(), o2, oldh.blocks_spec()[o2]));
                if o2 == o_i {
                    if j > 0 {
                        assert(oldh.block_shape(prev as int));
                        if (prev as int) < o_i {
                            assert(oldh.disjoint_pair(prev as int, o_i));
                        } else {
                            assert(oldh.disjoint_pair(o_i, prev as int));
                        }
                    }
                    let b2 = self.blocks_spec()[o_i];
                    assert(self.mem()[o_i] == MAGIC);
                    assert(self.mem()[o_i + 1] as int == b2.size);
                    assert(self.mem()[o_i + 2] == TAG_USED);
                    assert(self.mem()[o_i + 3] as int == req as int);
                    assert(self.mem()[o_i + b2.size - 1] as int == o_i);
                } else if j > 0 && o2 == prev as int {
                    if o2 < o_i {
                        assert(oldh.disjoint_pair(o2, o_i));
                    } else {
                        assert(oldh.disjoint_pair(o_i, o2));
                    }
                    let b2 = self.blocks_spec()[o2];
                    assert(self.mem()[o2] == MAGIC);
                    assert(self.mem()[o2 + 1] as int == b2.size);
                    assert(self.mem()[o2 + 2] == TAG_FREE);
                    assert(self.mem()[o2 + 3] as int == next_word(nxt_s));
                    assert(self.mem()[o2 + b2.size - 1] as int == o2);
                } else {
                    if o2 < o_i {
                        assert(oldh.disjoint_pair(o2, o_i));
                    } else {
                        assert(oldh.disjoint_pair(o_i, o2));
                    }
                    if j > 0 {
                        if o2 < prev as int {
                            assert(oldh.disjoint_pair(o2, prev as int));
                        } else if o2 > prev as int {
                            assert(oldh.disjoint_pair(prev as int, o2));
                        }
                    }
                }
            }
            assert forall|o2: int| dom.contains(o2) implies #[trigger] self.block_shape(o2) by {
                assert(oldh.block_shape(o2));
            }
            Self::lemma_disjoint_preserved(oldh, *self);
            // Free list.
            assert forall|k: int| 0 <= k < fl.len() implies dom.contains(#[trigger] fl[k])
                && self.blocks_spec()[fl[k]].state is Free by {
                if k < j {
                    assert(fl[k] == f[k]);
                    assert(f[k] != f[j]);
                } else {
                    assert(fl[k] == f[k + 1]);
                    assert(f[k + 1] != f[j]);
                }
            }
            assert forall|i2: int, k2: int| 0 <= i2 < k2 < fl.len() implies fl[i2]
                != fl[k2] by {
                let a = if i2 < j { i2 } else { i2 + 1 };
                let b2 = if k2 < j { k2 } else { k2 + 1 };
                assert(fl[i2] == f[a] && fl[k2] == f[b2]);
            }
            if fl.len() > 0 {
                if j == 0 {
                    assert(fl[0] == f[1]);
                } else {
                    assert(fl[0] == f[0]);
                }
            }
            assert forall|k: int| 0 <= k < fl.len() implies Self::free_next(
                self.blocks_spec()[#[trigger] fl[k]],
            ) == (if k + 1 < fl.len() {
                Some(fl[k + 1])
            } else {
                None
            }) by {
                if k < j - 1 {
                    assert(fl[k] == f[k]);
                    assert(f[k] != f[j]);
                    assert(j > 0 && f[k] != f[j - 1] || j == 0);
                    assert(fl[k + 1] == f[k + 1]);
                } else if j > 0 && k == j - 1 {
                    assert(fl[k] == f[j - 1]);
                    if k + 1 < fl.len() {
                        assert(fl[k + 1] == f[j + 1]);
                    }
                } else {
                    assert(fl[k] == f[k + 1]);
                    assert(f[k + 1] != f[j]);
                    if j > 0 {
                        assert(f[k + 1] != f[j - 1]);
                    }
                    if k + 1 < fl.len() {
                        assert(fl[k + 1] == f[k + 2]);
                    }
                }
            }
            assert forall|o2: int| dom.contains(o2) && self.blocks_spec()[o2].state is Free
                implies #[trigger] fl.contains(o2) by {
                assert(oldh.blocks_spec()[o2].state is Free || o2 == prev as int);
                assert(f.contains(o2));
                let i2 = f.index_of(o2);
                assert(i2 != j);
                if i2 < j {
                    assert(fl[i2] == o2);
                } else {
                    assert(fl[i2 - 1] == o2);
                }
            }
            assert(self.wf_config());
            assert(self.wf_blocks());
            assert(self.wf_free());
        }
    }
}


impl HeapDef {
    /// Replacing the block at one list position with a fresh free block that
    /// inherits its successor, while the old occupant becomes used, keeps
    /// the free list well-formed.
    #[verifier::rlimit(100)]
    #[verifier::spinoff_prover]
    proof fn lemma_splice_free(oldh: HeapDef, newh: HeapDef, j: int, cur: int, prev: int, far: int)
        requires
            oldh.wf_free(),
            0 <= j < oldh.free_list_spec().len(),
            cur == oldh.free_list_spec()[j],
            !oldh.blocks_spec().dom().contains(far),
            newh.free_list_spec() == oldh.free_list_spec().update(j, far),
            newh.blocks_spec().dom() =~= oldh.blocks_spec().dom().insert(far),
            newh.blocks_spec()[far].state is Free,
            Self::free_next(newh.blocks_spec()[far]) == Self::free_next(
                oldh.blocks_spec()[cur],
            ),
            newh.blocks_spec()[cur].state is Used,
            (j == 0 ==> newh.first_free_spec() == far),
            (j > 0 ==> {
                &&& prev == oldh.free_list_spec()[j - 1]
                &&& newh.blocks_spec()[prev].state is Free
                &&& Self::free_next(newh.blocks_spec()[prev]) == Some(far)
                &&& newh.first_free_spec() == oldh.first_free_spec()
            }),
            forall|o: int|
                oldh.blocks_spec().dom().contains(o) && o != cur && !(j > 0 && o == prev)
                    ==> #[trigger] newh.blocks_spec()[o] == oldh.blocks_spec()[o],
        ensures
            newh.wf_free(),
    {
        let f = oldh.free_list_spec();
        let fl = newh.free_list_spec();
        let dom = newh.blocks_spec().dom();
        assert forall|k: int| 0 <= k < fl.len() implies dom.contains(#[trigger] fl[k])
            && newh.blocks_spec()[fl[k]].state is Free by {
            if k != j {
                assert(fl[k] == f[k]);
                assert(f[k] != f[j]);
                assert(oldh.blocks_spec().dom().contains(f[k]));
                assert(f[k] != far);
                if !(j > 0 && f[k] == prev) {
                    assert(newh.blocks_spec()[f[k]] == oldh.blocks_spec()[f[k]]);
                }
            }
        }
        assert forall|i2: int, k2: int| 0 <= i2 < k2 < fl.len() implies fl[i2] != fl[k2] by {
            if i2 != j && k2 != j {
                assert(fl[i2] == f[i2] && fl[k2] == f[k2]);
            } else if i2 == j {
                assert(fl[k2] == f[k2]);
                assert(oldh.blocks_spec().dom().contains(f[k2]));
            } else {
                assert(fl[i2] == f[i2]);
                assert(oldh.blocks_spec().dom().contains(f[i2]));
            }
        }
        assert forall|k: int| 0 <= k < fl.len() implies Self::free_next(
            newh.blocks_spec()[#[trigger] fl[k]],
        ) == (if k + 1 < fl.len() {
            Some(fl[k + 1])
        } else {
            None
        }) by {
            if k == j {
                if k + 1 < fl.len() {
                    assert(fl[k + 1] == f[k + 1]);
                }
            } else if j > 0 && k == j - 1 {
                assert(fl[k] == f[j - 1]);
                assert(fl[k + 1] == far);
            } else {
                assert(fl[k] == f[k]);
                assert(f[k] != f[j]);
                if j > 0 {
                    assert(f[k] != f[j - 1]);
                }
                assert(f[k] != far);
                assert(newh.blocks_spec()[f[k]] == oldh.blocks_spec()[f[k]]);
                if k + 1 < fl.len() {
                    if k + 1 == j {
                        assert(fl[k + 1] == far);
                        assert(Self::free_next(oldh.blocks_spec()[f[k]]) == Some(f[j]));
                    } else {
                        assert(fl[k + 1] == f[k + 1]);
                    }
                }
            }
        }
        assert forall|o2: int| dom.contains(o2) && newh.blocks_spec()[o2].state is Free
            implies #[trigger] fl.contains(o2) by {
            if o2 == far {
                assert(fl[j] == far);
            } else if j > 0 && o2 == prev {
                assert(fl[j - 1] == f[j - 1]);
            } else {
                assert(newh.blocks_spec()[o2] == oldh.blocks_spec()[o2]);
                assert(oldh.blocks_spec()[o2].state is Free);
                assert(f.contains(o2));
                let i2 = f.index_of(o2);
                assert(i2 != j);
                assert(fl[i2] == o2);
            }
        }
        if fl.len() > 0 {
            if j == 0 {
                assert(fl[0] == far);
            } else {
                assert(fl[0] == f[0]);
            }
        }
    }

    /// Splitting one block into two that exactly tile its range keeps all
    /// blocks pairwise disjoint.
    #[verifier::rlimit(100)]
    #[verifier::spinoff_prover]
    proof fn lemma_split_disjoint(oldh: HeapDef, newh: HeapDef, o_i: int, bs: int)
        requires
            oldh.wf_disjoint(),
            oldh.blocks_spec().dom().contains(o_i),
            0 < bs < oldh.blocks_spec()[o_i].size,
            newh.blocks_spec().dom() =~= oldh.blocks_spec().dom().insert(o_i + bs),
            newh.blocks_spec()[o_i].size == bs,
            newh.blocks_spec()[o_i + bs].size == oldh.blocks_spec()[o_i].size - bs,
            forall|o: int|
                oldh.blocks_spec().dom().contains(o) && o != o_i
                    ==> (#[trigger] newh.blocks_spec()[o]).size == oldh.blocks_spec()[o].size,
        ensures
            newh.wf_disjoint(),
    {
        let far_i = o_i + bs;
        let dom = newh.blocks_spec().dom();
        assert forall|o1: int, o2: int| #[trigger] newh.disjoint_pair(o1, o2) by {
            if dom.contains(o1) && dom.contains(o2) && o1 < o2 {
                if o1 == o_i && o2 == far_i {
                } else if o1 == far_i {
                    assert(oldh.disjoint_pair(o_i, o2));
                } else if o2 == far_i {
                    if o1 < o_i {
                        assert(oldh.disjoint_pair(o1, o_i));
                    } else if o1 > o_i {
                        assert(oldh.disjoint_pair(o_i, o1));
                    }
                } else {
                    assert(oldh.disjoint_pair(o1, o2));
                    if o1 != o_i {
                        assert(newh.blocks_spec()[o1].size == oldh.blocks_spec()[o1].size);
                    }
                    if o2 != o_i && o1 < o_i < o2 {
                        assert(oldh.disjoint_pair(o_i, o2));
                    }
                }
            }
        }
    }

    /// After a split's writes, every block in the new map is correctly
    /// encoded: the two new frames were written outright, the predecessor
    /// (if any) had only its payload word repointed, and every other block's
    /// words lie outside both written regions.
    #[verifier::rlimit(100)]
    #[verifier::spinoff_prover]
    proof fn lemma_split_encode(
        oldh: HeapDef,
        newh: HeapDef,
        o_i: int,
        bs: int,
        req: int,
        prev: int,
        has_prev: bool,
    )
        requires
            oldh.wf_blocks(),
            oldh.wf_disjoint(),
            oldh.blocks_spec().dom().contains(o_i),
            MIN_WORDS <= bs,
            bs % 4 == 0,
            0 <= req,
            req + OVERHEAD <= bs * 8,
            oldh.blocks_spec()[o_i].size >= bs + MIN_WORDS,
            newh.mem().len() == oldh.mem().len(),
            newh.blocks_spec().dom() =~= oldh.blocks_spec().dom().insert(o_i + bs),
            !oldh.blocks_spec().dom().contains(o_i + bs),
            newh.blocks_spec()[o_i] == (BlockSpec {
                size: bs,
                state: BlockState::Used { requested: req },
            }),
            newh.blocks_spec()[o_i + bs] == (BlockSpec {
                size: oldh.blocks_spec()[o_i].size - bs,
                state: BlockState::Free { next: Self::free_next(oldh.blocks_spec()[o_i]) },
            }),
            (has_prev ==> {
                &&& oldh.blocks_spec().dom().contains(prev)
                &&& prev != o_i
                &&& oldh.blocks_spec()[prev].state is Free
                &&& newh.blocks_spec()[prev] == (BlockSpec {
                    size: oldh.blocks_spec()[prev].size,
                    state: BlockState::Free { next: Some(o_i + bs) },
                })
            }),
            forall|o: int|
                oldh.blocks_spec().dom().contains(o) && o != o_i && !(has_prev && o == prev)
                    ==> #[trigger] newh.blocks_spec()[o] == oldh.blocks_spec()[o],
            // the written words
            newh.mem()[o_i] == MAGIC,
            newh.mem()[o_i + 1] as int == bs,
            newh.mem()[o_i + 2] == TAG_USED,
            newh.mem()[o_i + 3] as int == req,
            newh.mem()[o_i + bs - 1] as int == o_i,
            newh.mem()[o_i + bs] == MAGIC,
            newh.mem()[o_i + bs + 1] as int == oldh.blocks_spec()[o_i].size - bs,
            newh.mem()[o_i + bs + 2] == TAG_FREE,
            newh.mem()[o_i + bs + 3] as int == next_word(
                Self::free_next(oldh.blocks_spec()[o_i]),
            ),
            newh.mem()[o_i + oldh.blocks_spec()[o_i].size - 1] as int == o_i + bs,
            (has_prev ==> newh.mem()[prev + 3] as int == o_i + bs),
            // everything else untouched
            forall|i: int|
                0 <= i < oldh.mem().len() && !(o_i <= i < o_i + oldh.blocks_spec()[o_i].size)
                    && !(has_prev && i == prev + 3) ==> newh.mem()[i] == oldh.mem()[i],
        ensures
            newh.wf_blocks(),
    {
        let oldb = oldh.blocks_spec()[o_i];
        let far_i = o_i + bs;
        let dom = newh.blocks_spec().dom();
        assert(oldh.block_shape(o_i));
        assert forall|o2: int| dom.contains(o2) implies #[trigger] newh.block_shape(o2) by {
            if o2 == o_i || o2 == far_i {
                assert(oldh.block_shape(o_i));
            } else {
                assert(oldh.block_shape(o2));
            }
        }
        assert forall|o2: int| dom.contains(o2) implies #[trigger] Self::encode_at(
            newh.mem(),
            o2,
            newh.blocks_spec()[o2],
        ) by {
            if o2 == o_i {
            } else if o2 == far_i {
            } else if has_prev && o2 == prev {
                let b2 = newh.blocks_spec()[o2];
                assert(oldh.block_shape(o2));
                assert(Self::encode_at(oldh.mem(), o2, oldh.blocks_spec()[o2]));
                if prev < o_i {
                    assert(oldh.disjoint_pair(prev, o_i));
                } else {
                    assert(oldh.disjoint_pair(o_i, prev));
                }
                assert(newh.mem()[o2] == MAGIC);
                assert(newh.mem()[o2 + 1] as int == b2.size);
                assert(newh.mem()[o2 + 2] == TAG_FREE);
                assert(newh.mem()[o2 + b2.size - 1] as int == o2);
            } else {
                assert(oldh.block_shape(o2));
                assert(Self::encode_at(oldh.mem(), o2, oldh.blocks_spec()[o2]));
                if o2 < o_i {
                    assert(oldh.disjoint_pair(o2, o_i));
                } else {
                    assert(oldh.disjoint_pair(o_i, o2));
                }
                if has_prev {
                    if o2 < prev {
                        assert(oldh.disjoint_pair(o2, prev));
                    } else if o2 > prev {
                        assert(oldh.disjoint_pair(prev, o2));
                    }
                    assert(oldh.block_shape(prev));
                }
                Self::lemma_encode_frame2(
                    oldh.mem(),
                    newh.mem(),
                    o2,
                    newh.blocks_spec()[o2],
                    o_i,
                    o_i + oldb.size,
                    if has_prev { prev + 3 } else { o_i },
                    if has_prev { prev + 4 } else { o_i },
                );
            }
        }
    }

    /// Split the oversized free block at list position `j`: shrink it to
    /// `bs` words and mark it used for `req` bytes; the remainder becomes a
    /// fresh free block spliced into the list at the very position the
    /// original occupied, keeping both the predecessor linkage and the
    /// successor pointer.
    #[verifier::rlimit(100)]
    #[verifier::spinoff_prover]
    fn split_free(&mut self, prev: usize, cur: usize, Ghost(j): Ghost<int>, bs: usize, req: usize)
        requires
            old(self).wf(),
            0 <= j < old(self).free_list_spec().len(),
            cur as int == old(self).free_list_spec()[j],
            (j == 0 ==> prev == NO_NEXT),
            (j > 0 ==> prev as int == old(self).free_list_spec()[j - 1]),
            old(self).blocks_spec()[cur as int].size >= bs + MIN_WORDS,
            bs % 4 == 0,
            MIN_WORDS <= bs,
            req + OVERHEAD <= bs * 8,
        ensures
            final(self).wf(),
            final(self).mem().len() == old(self).mem().len(),
            final(self).capacity_spec() == old(self).capacity_spec(),
            final(self).started_spec() == old(self).started_spec(),
            final(self).blocks_spec().dom() =~= old(self).blocks_spec().dom().insert(
                cur as int + bs,
            ),
            final(self).blocks_spec()[cur as int] == (BlockSpec {
                size: bs as int,
                state: BlockState::Used { requested: req as int },
            }),
            final(self).blocks_spec()[cur as int + bs] == (BlockSpec {
                size: old(self).blocks_spec()[cur as int].size - bs,
                state: BlockState::Free {
                    next: Self::free_next(old(self).blocks_spec()[cur as int]),
                },
            }),
            final(self).free_list_spec() == old(self).free_list_spec().update(
                j,
                cur as int + bs,
            ),
            forall|o: int|
                old(self).blocks_spec().dom().contains(o) && o != cur as int && o != prev as int
                    ==> final(self).blocks_spec()[o] == old(self).blocks_spec()[o],
            final(self).last_head_spec() == (if old(self).last_head_spec() == cur as int {
                cur as int + bs
            } else {
                old(self).last_head_spec()
            }),
    {
        let ghost oldh = *old(self);
        let ghost o_i = cur as int;
        let ghost f = oldh.free_list_spec();
        let ghost oldb = oldh.blocks_spec()[o_i];
        proof {
            assert(oldh.blocks_spec().dom().contains(o_i));
            assert(self.block_shape(o_i));
            assert(Self::encode_at(self.mem(), o_i, oldb));
            if j > 0 {
                assert(oldh.blocks_spec().dom().contains(prev as int));
                assert(self.block_shape(prev as int));
                assert(Self::encode_at(self.mem(), prev as int, self.blocks_spec()[prev as int]));
                assert(f[j - 1] != f[j]);
                if (prev as int) < o_i {
                    assert(oldh.disjoint_pair(prev as int, o_i));
                } else {
                    assert(oldh.disjoint_pair(o_i, prev as int));
                }
            }
            // The split point lies strictly inside the chosen block, so it
            // is no existing block's offset.
            assert forall|o2: int| oldh.blocks_spec().dom().contains(o2) implies o2 != o_i
                + bs by {
                if o2 < o_i {
                    assert(oldh.disjoint_pair(o2, o_i));
                    assert(oldh.block_shape(o2));
                } else if o2 > o_i {
                    assert(oldh.disjoint_pair(o_i, o2));
                }
            }
        }
        let fsize = self.words[cur + 1];
        let fnext = self.words[cur + 3];
        let far = cur + bs;
        // Shrink the chosen block, mark it used, give it a fresh footer;
        // then frame the remainder over the split point — its footer is the
        // original block's footer, repointed.
        self.write_block(cur, bs, TAG_USED, req);
        self.write_block(far, fsize - bs, TAG_FREE, fnext);
        // Splice the remainder into the list where the original stood.
        if prev == NO_NEXT {
            self.first_free = far;
        } else {
            self.write_word(prev + 3, far);
        }
        if self.last_head == cur {
            self.last_head = far;
        }
        let ghost far_i = o_i + bs;
        let ghost newcur = BlockSpec {
            size: bs as int,
            state: BlockState::Used { requested: req as int },
        };
        let ghost newfar = BlockSpec {
            size: oldb.size - bs,
            state: BlockState::Free { next: Self::free_next(oldb) },
        };
        proof {
            if j == 0 {
                self.blocks@ = oldh.blocks_spec().insert(o_i, newcur).insert(far_i, newfar);
            } else {
                let newprev = BlockSpec {
                    size: oldh.blocks_spec()[prev as int].size,
                    state: BlockState::Free { next: Some(far_i) },
                };
                self.blocks@ = oldh.blocks_spec().insert(o_i, newcur).insert(far_i, newfar)
                    .insert(prev as int, newprev);
            }
            self.free_list@ = f.update(j, far_i);
        }
        proof {
            let dom = self.blocks_spec().dom();
            assert(dom =~= oldh.blocks_spec().dom().insert(far_i));
            assert(next_word(Self::free_next(oldb)) == fnext as int);
            // Shapes and encodings.
            Self::lemma_split_encode(
                oldh,
                *self,
                o_i,
                bs as int,
                req as int,
                prev as int,
                j > 0,
            );
            // Disjointness.
            Self::lemma_split_disjoint(oldh, *self, o_i, bs as int);
            // Free list.
            Self::lemma_splice_free(oldh, *self, j, o_i, prev as int, far_i);
            assert(self.wf_config());
            assert(self.wf_blocks());
        }
    }
}


impl HeapDef {
    /// Map `n` fresh words (whole pages) at the arena's end.
    fn grow_words(&mut self, n: usize)
        requires
            old(self).mem().len() + n <= usize::MAX,
        ensures
            final(self).mem().len() == old(self).mem().len() + n,
            forall|i: int|
                0 <= i < old(self).mem().len() ==> final(self).mem()[i] == old(self).mem()[i],
            final(self).blocks_spec() == old(self).blocks_spec(),
            final(self).free_list_spec() == old(self).free_list_spec(),
            final(self).started_spec() == old(self).started_spec(),
            final(self).last_head_spec() == old(self).last_head_spec(),
            final(self).first_free_spec() == old(self).first_free_spec(),
            final(self).capacity_spec() == old(self).capacity_spec(),
    {
        let mut k: usize = 0;
        while k < n
            invariant
                k <= n,
                self.mem().len() == old(self).mem().len() + k,
                forall|i: int|
                    0 <= i < old(self).mem().len() ==> self.mem()[i] == old(self).mem()[i],
                self.blocks_spec() == old(self).blocks_spec(),
                self.free_list_spec() == old(self).free_list_spec(),
                self.started_spec() == old(self).started_spec(),
                self.last_head_spec() == old(self).last_head_spec(),
                self.first_free_spec() == old(self).first_free_spec(),
                self.capacity_spec() == old(self).capacity_spec(),
                old(self).mem().len() + n <= usize::MAX,
            decreases n - k,
        {
            self.words.push(0);
            k = k + 1;
        }
    }

    /// Grow the arena by `n` fresh words and lay a new free block over them,
    /// pushed onto the free-list head. Used on first growth and whenever the
    /// tail block is in use.
    #[verifier::rlimit(100)]
    #[verifier::spinoff_prover]
    fn append_free(&mut self, n: usize)
        requires
            old(self).wf(),
            n % PAGE_WORDS == 0,
            n > 0,
            (old(self).mem().len() + n) * 8 <= old(self).capacity_spec(),
        ensures
            final(self).wf(),
            final(self).capacity_spec() == old(self).capacity_spec(),
            final(self).started_spec(),
            final(self).mem().len() == old(self).mem().len() + n,
            final(self).last_head_spec() == old(self).mem().len(),
            final(self).blocks_spec().dom() =~= old(self).blocks_spec().dom().insert(
                old(self).mem().len() as int,
            ),
            final(self).blocks_spec()[old(self).mem().len() as int] == (BlockSpec {
                size: n as int,
                state: BlockState::Free {
                    next: if old(self).free_list_spec().len() > 0 {
                        Some(old(self).free_list_spec()[0])
                    } else {
                        None
                    },
                },
            }),
            final(self).free_list_spec() == old(self).free_list_spec().insert(
                0,
                old(self).mem().len() as int,
            ),
            forall|o: int|
                old(self).blocks_spec().dom().contains(o)
                    ==> #[trigger] final(self).blocks_spec()[o] == old(self).blocks_spec()[o],
    {
        let ghost oldh = *old(self);
        let c = self.words.len();
        let ghost c_i = c as int;
        proof {
            // The fresh offset is no existing block's offset.
            assert forall|o: int| oldh.blocks_spec().dom().contains(o) implies o != c_i by {
                assert(oldh.block_shape(o));
            }
            assert(!oldh.free_list_spec().contains(c_i)) by {
                if oldh.free_list_spec().contains(c_i) {
                    let k = oldh.free_list_spec().index_of(c_i);
                    assert(oldh.blocks_spec().dom().contains(oldh.free_list_spec()[k]));
                }
            }
            if oldh.started_spec() {
                assert(oldh.block_shape(oldh.last_head_spec()));
            }
        }
        self.grow_words(n);
        let hd = self.first_free;
        self.write_block(c, n, TAG_FREE, hd);
        self.first_free = c;
        self.started = true;
        self.last_head = c;
        let ghost hd_s = if oldh.free_list_spec().len() > 0 {
            Some(oldh.free_list_spec()[0])
        } else {
            Option::<int>::None
        };
        let ghost newb = BlockSpec { size: n as int, state: BlockState::Free { next: hd_s } };
        proof {
            self.blocks@ = oldh.blocks_spec().insert(c_i, newb);
            self.free_list@ = oldh.free_list_spec().insert(0, c_i);
        }
        proof {
            let dom = self.blocks_spec().dom();
            let f = self.free_list_spec();
            let oldf = oldh.free_list_spec();
            assert(dom =~= oldh.blocks_spec().dom().insert(c_i));
            assert(next_word(hd_s) == hd as int);
            assert forall|o2: int| dom.contains(o2) implies #[trigger] self.block_shape(o2) by {
                if o2 != c_i {
                    assert(oldh.block_shape(o2));
                }
            }
            assert forall|o2: int| dom.contains(o2) implies #[trigger] Self::encode_at(
                self.mem(),
                o2,
                self.blocks_spec()[o2],
            ) by {
                if o2 == c_i {
                    assert(self.mem()[c_i] == MAGIC);
                    assert(self.mem()[c_i + 1] as int == n as int);
                    assert(self.mem()[c_i + 2] == TAG_FREE);
                    assert(self.mem()[c_i + 3] as int == next_word(hd_s));
                    assert(self.mem()[c_i + n - 1] as int == c_i);
                } else {
                    assert(oldh.block_shape(o2));
                    assert(Self::encode_at(oldh.mem(), o2, oldh.blocks_spec()[o2]));
                    Self::lemma_encode_frame2(
                        oldh.mem(),
                        self.mem(),
                        o2,
                        self.blocks_spec()[o2],
                        c_i,
                        c_i + n,
                        c_i,
                        c_i,
                    );
                }
            }
            assert forall|o1: int, o2: int| #[trigger] self.disjoint_pair(o1, o2) by {
                if dom.contains(o1) && dom.contains(o2) && o1 < o2 {
                    if o2 == c_i {
                        assert(oldh.block_shape(o1));
                        assert(self.blocks_spec()[o1].size == oldh.blocks_spec()[o1].size);
                    } else if o1 == c_i {
                        assert(oldh.block_shape(o2));
                    } else {
                        assert(oldh.disjoint_pair(o1, o2));
                        assert(self.blocks_spec()[o1].size == oldh.blocks_spec()[o1].size);
                    }
                }
            }
            // Free list: a push at the head, like a deallocation.
            assert forall|k: int| 0 <= k < f.len() implies dom.contains(#[trigger] f[k])
                && self.blocks_spec()[f[k]].state is Free by {
                if k > 0 {
                    assert(f[k] == oldf[k - 1]);
                    assert(oldh.blocks_spec()[oldf[k - 1]].state is Free);
                    assert(oldf[k - 1] != c_i);
                }
            }
            assert forall|i2: int, k2: int| 0 <= i2 < k2 < f.len() implies f[i2] != f[k2] by {
                if i2 == 0 {
                    assert(f[k2] == oldf[k2 - 1]);
                    assert(!oldf.contains(c_i));
                } else {
                    assert(f[i2] == oldf[i2 - 1] && f[k2] == oldf[k2 - 1]);
                }
            }
            assert forall|k: int| 0 <= k < f.len() implies Self::free_next(
                self.blocks_spec()[#[trigger] f[k]],
            ) == (if k + 1 < f.len() {
                Some(f[k + 1])
            } else {
                None
            }) by {
                if k == 0 {
                    if oldf.len() > 0 {
                        assert(f[1] == oldf[0]);
                    }
                } else {
                    assert(f[k] == oldf[k - 1]);
                    assert(oldf[k - 1] != c_i);
                    assert(self.blocks_spec()[f[k]] == oldh.blocks_spec()[oldf[k - 1]]);
                    if k + 1 < f.len() {
                        assert(f[k + 1] == oldf[k]);
                    }
                }
            }
            assert forall|o2: int| dom.contains(o2) && self.blocks_spec()[o2].state is Free
                implies #[trigger] f.contains(o2) by {
                if o2 == c_i {
                    assert(f[0] == o2);
                } else {
                    assert(oldh.blocks_spec()[o2].state is Free);
                    assert(oldf.contains(o2));
                    let k = oldf.index_of(o2);
                    assert(f[k + 1] == o2);
                }
            }
            assert(self.wf_config());
            assert(self.wf_blocks());
            assert(self.wf_free());
        }
    }

    /// Extend the free tail block in place over `n` freshly mapped words:
    /// its size grows, its footer moves to the new arena end, and its place
    /// in the free list is untouched.
    #[verifier::rlimit(100)]
    #[verifier::spinoff_prover]
    fn grow_free_tail(&mut self, n: usize)
        requires
            old(self).wf(),
            old(self).tail_is_free(),
            n % PAGE_WORDS == 0,
            n > 0,
            (old(self).mem().len() + n) * 8 <= old(self).capacity_spec(),
        ensures
            final(self).wf(),
            final(self).capacity_spec() == old(self).capacity_spec(),
            final(self).started_spec(),
            final(self).mem().len() == old(self).mem().len() + n,
            final(self).last_head_spec() == old(self).last_head_spec(),
            final(self).blocks_spec().dom() =~= old(self).blocks_spec().dom(),
            final(self).blocks_spec()[old(self).last_head_spec()] == (BlockSpec {
                size: old(self).blocks_spec()[old(self).last_head_spec()].size + n,
                state: old(self).blocks_spec()[old(self).last_head_spec()].state,
            }),
            final(self).free_list_spec() == old(self).free_list_spec(),
            forall|o: int|
                old(self).blocks_spec().dom().contains(o) && o != old(self).last_head_spec()
                    ==> #[trigger] final(self).blocks_spec()[o] == old(self).blocks_spec()[o],
    {
        let ghost oldh = *old(self);
        let c = self.last_head;
        let ghost c_i = c as int;
        let ghost oldb = oldh.blocks_spec()[c_i];
        proof {
            assert(oldh.blocks_spec().dom().contains(c_i));
            assert(oldh.block_shape(c_i));
            assert(Self::encode_at(oldh.mem(), c_i, oldb));
            // The tail is the highest block.
            assert forall|o: int| oldh.blocks_spec().dom().contains(o) implies o <= c_i by {
                if o > c_i {
                    assert(oldh.disjoint_pair(c_i, o));
                    assert(oldh.block_shape(o));
                }
            }
        }
        let osize = self.words[c + 1];
        self.grow_words(n);
        let nsize = osize + n;
        self.write_word(c + 1, nsize);
        self.write_word(c + nsize - 1, c);
        let ghost newb = BlockSpec { size: oldb.size + n, state: oldb.state };
        proof {
            self.blocks@ = oldh.blocks_spec().insert(c_i, newb);
        }
        proof {
            let dom = self.blocks_spec().dom();
            let f = self.free_list_spec();
            assert(dom =~= oldh.blocks_spec().dom());
            assert forall|o2: int| dom.contains(o2) implies #[trigger] self.block_shape(o2) by {
                assert(oldh.block_shape(o2));
            }
            assert forall|o2: int| dom.contains(o2) implies #[trigger] Self::encode_at(
                self.mem(),
                o2,
                self.blocks_spec()[o2],
            ) by {
                assert(oldh.block_shape(o2));
                assert(Self::encode_at(oldh.mem(), o2, oldh.blocks_spec()[o2]));
                if o2 == c_i {
                    assert(self.mem()[c_i] == MAGIC);
                    assert(self.mem()[c_i + 1] as int == newb.size);
                    assert(self.mem()[c_i + newb.size - 1] as int == c_i);
                } else {
                    assert(oldh.disjoint_pair(o2, c_i));
                    Self::lemma_encode_frame2(
                        oldh.mem(),
                        self.mem(),
                        o2,
                        self.blocks_spec()[o2],
                        c_i + 1,
                        c_i + 2,
                        c_i + newb.size - 1,
                        c_i + newb.size,
                    );
                }
            }
            assert forall|o1: int, o2: int| #[trigger] self.disjoint_pair(o1, o2) by {
                if dom.contains(o1) && dom.contains(o2) && o1 < o2 {
                    assert(oldh.disjoint_pair(o1, o2));
                    assert(o2 <= c_i);
                    assert(o1 != c_i);
                    assert(self.blocks_spec()[o1].size == oldh.blocks_spec()[o1].size);
                }
            }
            // Free list: same members, same order, same links; only the
            // tail's size changed.
            assert forall|k: int| 0 <= k < f.len() implies dom.contains(#[trigger] f[k])
                && self.blocks_spec()[f[k]].state is Free by {
                assert(oldh.blocks_spec()[f[k]].state is Free);
            }
            assert forall|k: int| 0 <= k < f.len() implies Self::free_next(
                self.blocks_spec()[#[trigger] f[k]],
            ) == (if k + 1 < f.len() {
                Some(f[k + 1])
            } else {
                None
            }) by {
                assert(Self::free_next(oldh.blocks_spec()[f[k]]) == (if k + 1 < f.len() {
                    Some(f[k + 1])
                } else {
                    None
                }));
                if f[k] == c_i {
                    assert(Self::free_next(self.blocks_spec()[c_i]) == Self::free_next(oldb));
                }
            }
            assert forall|o2: int| dom.contains(o2) && self.blocks_spec()[o2].state is Free
                implies #[trigger] f.contains(o2) by {
                assert(oldh.blocks_spec()[o2].state is Free);
            }
            assert(self.wf_config());
            assert(self.wf_blocks());
            assert(self.wf_free());
        }
    }
}


impl HeapDef {
    /// Facts about the block size a request needs.
    proof fn lemma_blocksize(size: int)
        requires
            0 <= size,
        ensures
            8 <= Self::blocksize_spec(size),
            Self::blocksize_spec(size) % 4 == 0,
            Self::blocksize_spec(size) * 8 == round_up_spec(size + OVERHEAD, GRANULARITY as int),
            size + OVERHEAD <= Self::blocksize_spec(size) * 8,
            Self::blocksize_spec(size) * 8 < size + OVERHEAD + GRANULARITY,
    {
        let r = round_up_spec(size + OVERHEAD, GRANULARITY as int);
        lemma_round_up_bounds(size + OVERHEAD, GRANULARITY as int);
        lemma_fundamental_div_mod(r, 32);
        let k = r / 32;
        assert(r == 32 * k);
        assert(r / 8 == 4 * k) by (nonlinear_arith)
            requires r == 32 * k;
        assert(Self::blocksize_spec(size) == 4 * k);
        assert(4 * k * 8 == 32 * k) by (nonlinear_arith);
        assert(r >= 40);
        assert(k >= 2) by (nonlinear_arith)
            requires r == 32 * k, r >= 40;
    }

    /// Allocate `size` bytes: first fit from the free-list head, splitting
    /// an oversized match; if nothing fits, grow the arena at its tail (in
    /// whole pages, extending a free tail block in place) and carve the
    /// block out of the new space. Returns the byte offset just past the
    /// chosen block's header, or nothing when the request cannot be met
    /// within the virtual-memory budget — in which case the heap is
    /// untouched.
    #[verifier::rlimit(100)]
    #[verifier::spinoff_prover]
    pub fn allocate(&mut self, size: usize) -> (r: Option<usize>)
        requires
            old(self).wf(),
        ensures
            final(self).wf(),
            final(self).capacity_spec() == old(self).capacity_spec(),
            r.is_some() == old(self).satisfiable(size as int),
            r.is_none() ==> *final(self) == *old(self),
            old(self).fits(Self::blocksize_spec(size as int)) ==> final(self).arena_size()
                == old(self).arena_size() && final(self).started_spec() == old(
                self,
            ).started_spec(),
            r.is_some() ==> ({
                let bs = Self::blocksize_spec(size as int);
                let p = r.unwrap() as int;
                let c = p / 8 - 4;
                &&& p == (c + 4) * 8
                &&& final(self).live_at(p)
                &&& !old(self).live_at(p)
                &&& (old(self).fits(bs) ==> exists|j: int|
                    old(self).first_fit_at(bs, j) && c == old(self).free_list_spec()[j])
                &&& (!old(self).fits(bs) && old(self).tail_is_free() ==> c == old(
                    self,
                ).last_head_spec())
                &&& (!old(self).fits(bs) && !old(self).tail_is_free() ==> c == old(
                    self,
                ).mem().len())
                &&& final(self).blocks_spec().dom().contains(c)
                &&& final(self).blocks_spec()[c].state == (BlockState::Used {
                    requested: size as int,
                })
                &&& bs <= final(self).blocks_spec()[c].size
                &&& final(self).blocks_spec()[c].size < bs + MIN_WORDS
                &&& size + OVERHEAD <= final(self).blocks_spec()[c].size * 8
                &&& final(self).started_spec()
                &&& forall|o: int|
                    old(self).blocks_spec().dom().contains(o) && o != c && (#[trigger] old(
                        self,
                    ).blocks_spec()[o]).state is Used ==> final(self).blocks_spec().dom().contains(
                        o,
                    ) && final(self).blocks_spec()[o] == old(self).blocks_spec()[o]
            }),
            // When the list's head block is the first fit, the whole
            // transition is pinned: the block is taken whole when under one
            // granule over the need, else split with exact size
            // conservation, the remainder keeping the head position and the
            // successor pointer.
            r.is_some() && old(self).first_fit_at(Self::blocksize_spec(size as int), 0) ==> ({
                let bs = Self::blocksize_spec(size as int);
                let c = old(self).free_list_spec()[0];
                let osize = old(self).blocks_spec()[c].size;
                &&& r.unwrap() as int == (c + 4) * 8
                &&& (osize < bs + MIN_WORDS ==> {
                    &&& final(self).blocks_spec() == old(self).blocks_spec().insert(
                        c,
                        BlockSpec { size: osize, state: BlockState::Used { requested: size as int } },
                    )
                    &&& final(self).free_list_spec() == old(self).free_list_spec().remove(0)
                    &&& final(self).last_head_spec() == old(self).last_head_spec()
                })
                &&& (osize >= bs + MIN_WORDS ==> {
                    &&& final(self).blocks_spec() == old(self).blocks_spec().insert(
                        c,
                        BlockSpec { size: bs, state: BlockState::Used { requested: size as int } },
                    ).insert(
                        c + bs,
                        BlockSpec {
                            size: osize - bs,
                            state: BlockState::Free {
                                next: Self::free_next(old(self).blocks_spec()[c]),
                            },
                        },
                    )
                    &&& final(self).free_list_spec() == old(self).free_list_spec().update(
                        0,
                        c + bs,
                    )
                    &&& final(self).last_head_spec() == (if old(self).last_head_spec() == c {
                        c + bs
                    } else {
                        old(self).last_head_spec()
                    })
                })
            }),
            // The growth path's post-state: the arena gains exactly the
            // mapped pages; the carved block and the free remainder (when
            // one exists) are pinned, and the tail footer then denotes the
            // remainder.
            r.is_some() && !old(self).fits(Self::blocksize_spec(size as int)) ==> ({
                let bs = Self::blocksize_spec(size as int);
                let g = old(self).grow_amount(bs);
                let c = if old(self).tail_is_free() {
                    old(self).last_head_spec()
                } else {
                    old(self).mem().len() as int
                };
                let newsize = (if old(self).tail_is_free() {
                    old(self).blocks_spec()[old(self).last_head_spec()].size
                } else {
                    0
                }) + g;
                let nx = if old(self).tail_is_free() {
                    Self::free_next(old(self).blocks_spec()[old(self).last_head_spec()])
                } else if old(self).free_list_spec().len() > 0 {
                    Some(old(self).free_list_spec()[0])
                } else {
                    None
                };
                &&& final(self).mem().len() == old(self).mem().len() + g
                &&& final(self).arena_size() == old(self).arena_size() + g * 8
                &&& (newsize < bs + MIN_WORDS ==> {
                    &&& final(self).blocks_spec()[c].size == newsize
                    &&& final(self).free_list_spec() == (if old(self).tail_is_free() {
                        old(self).free_list_spec().remove(
                            old(self).free_list_spec().index_of(old(self).last_head_spec()),
                        )
                    } else {
                        old(self).free_list_spec()
                    })
                    &&& final(self).last_head_spec() == c
                })
                &&& (newsize >= bs + MIN_WORDS ==> {
                    &&& final(self).blocks_spec()[c].size == bs
                    &&& final(self).blocks_spec().dom().contains(c + bs)
                    &&& final(self).blocks_spec()[c + bs] == (BlockSpec {
                        size: newsize - bs,
                        state: BlockState::Free { next: nx },
                    })
                    &&& final(self).free_list_spec() == (if old(self).tail_is_free() {
                        old(self).free_list_spec().update(
                            old(self).free_list_spec().index_of(old(self).last_head_spec()),
                            c + bs,
                        )
                    } else {
                        old(self).free_list_spec().insert(0, c + bs)
                    })
                    &&& final(self).last_head_spec() == c + bs
                })
            }),
    {
        let ghost bs_g = Self::blocksize_spec(size as int);
        proof {
            Self::lemma_blocksize(size as int);
        }
        if size > self.capacity {
            proof {
                // Too big to ever fit: every block and every growth stays
                // within the capacity, but this request does not.
                assert forall|k: int|
                    0 <= k < old(self).free_list_spec().len() implies (#[trigger] old(self).blocks_spec()[
                        old(self).free_list_spec()[k]
                    ]).size < bs_g by {
                    assert(old(self).block_shape(old(self).free_list_spec()[k]));
                }
                assert(old(self).all_free_blocks_smaller(bs_g));
                assert(!old(self).fits(bs_g)) by {
                    if old(self).fits(bs_g) {
                        let w = choose|k: int|
                            0 <= k < old(self).free_list_spec().len() && (#[trigger] old(
                                self,
                            ).blocks_spec()[old(self).free_list_spec()[k]]).size >= bs_g;
                        assert(old(self).blocks_spec()[old(self).free_list_spec()[w]].size
                            < bs_g);
                    }
                }
                if old(self).tail_is_free() {
                    assert(old(self).block_shape(old(self).last_head_spec()));
                    lemma_round_up_bounds(old(self).grow_need(bs_g), PAGE_WORDS as int);
                } else {
                    lemma_round_up_bounds(old(self).grow_need(bs_g), PAGE_WORDS as int);
                }
            }
            return None;
        }
        let bs_bytes = round_up(size + OVERHEAD, GRANULARITY);
        let bs = bs_bytes / 8;
        proof {
            assert(bs as int == bs_g);
        }
        let (prev, cur, j) = self.find_fit(bs);
        if cur != NO_NEXT {
            let p = self.fit_carve(prev, cur, Ghost(j@), bs, size);
            return Some(p);
        }
        // Nothing fits: every free block is too small.
        proof {
            assert(*self == *old(self));
            if j@ < self.free_list_spec().len() {
                assert(self.block_shape(self.free_list_spec()[j@]));
                assert(self.mem().len() * 8 <= self.capacity_spec());
                assert(false);
            }
            assert(self.all_free_blocks_smaller(bs_g));
            assert(old(self).all_free_blocks_smaller(bs_g));
            assert(!old(self).fits(bs_g)) by {
                if old(self).fits(bs_g) {
                    let w = choose|k: int|
                        0 <= k < old(self).free_list_spec().len() && (#[trigger] old(
                            self,
                        ).blocks_spec()[old(self).free_list_spec()[k]]).size >= bs_g;
                    assert(old(self).blocks_spec()[old(self).free_list_spec()[w]].size < bs_g);
                }
            }
            if old(self).tail_is_free() {
                assert(old(self).free_list_spec().contains(old(self).last_head_spec()));
                let k = old(self).free_list_spec().index_of(old(self).last_head_spec());
                assert(old(self).blocks_spec()[old(self).free_list_spec()[k]].size < bs_g);
            }
        }
        let mut need = bs;
        let mut tail_free = false;
        if self.started {
            proof {
                assert(self.block_shape(self.last_head_spec()));
                assert(Self::encode_at(
                    self.mem(),
                    self.last_head_spec(),
                    self.blocks_spec()[self.last_head_spec()],
                ));
            }
            let tag = self.words[self.last_head + 2];
            if tag == TAG_FREE {
                tail_free = true;
                need = bs - self.words[self.last_head + 1];
            }
        }
        proof {
            assert(need as int == old(self).grow_need(bs_g));
        }
        let n = round_up(need, PAGE_WORDS);
        proof {
            assert(n as int == old(self).grow_amount(bs_g));
            assert(self.capacity as int % 8 == 0) by {
                lemma_fundamental_div_mod(self.capacity as int, 4096);
            }
            lemma_fundamental_div_mod(self.capacity as int, 8);
        }
        let budget = self.capacity / 8;
        if n > budget - self.words.len() {
            proof {
                assert(!old(self).can_grow(bs_g));
            }
            return None;
        }
        proof {
            assert(old(self).can_grow(bs_g));
            assert(n % PAGE_WORDS == 0);
            assert(n > 0);
        }
        let p = self.grow_carve(bs, size, n);
        Some(p)
    }
}



impl HeapDef {
    /// Grow the arena to satisfy a request nothing currently fits, then
    /// carve the block out of the grown tail: a free tail block is extended
    /// in place, otherwise a fresh free block covers the new pages, and the
    /// first-fit carve then necessarily lands on it.
    #[verifier::rlimit(100)]
    #[verifier::spinoff_prover]
    fn grow_carve(&mut self, bs: usize, size: usize, n: usize) -> (p: usize)
        requires
            old(self).wf(),
            bs as int == Self::blocksize_spec(size as int),
            MIN_WORDS <= bs,
            bs % 4 == 0,
            size + OVERHEAD <= bs * 8,
            old(self).all_free_blocks_smaller(bs as int),
            n as int == old(self).grow_amount(bs as int),
            n % PAGE_WORDS == 0,
            n > 0,
            (old(self).mem().len() + n) * 8 <= old(self).capacity_spec(),
        ensures
            final(self).wf(),
            final(self).capacity_spec() == old(self).capacity_spec(),
            final(self).mem().len() == old(self).mem().len() + n,
            final(self).started_spec(),
            !old(self).live_at(p as int),
            ({
                let c = if old(self).tail_is_free() {
                    old(self).last_head_spec()
                } else {
                    old(self).mem().len() as int
                };
                let newsize = (if old(self).tail_is_free() {
                    old(self).blocks_spec()[old(self).last_head_spec()].size
                } else {
                    0
                }) + n;
                let nx = if old(self).tail_is_free() {
                    Self::free_next(old(self).blocks_spec()[old(self).last_head_spec()])
                } else if old(self).free_list_spec().len() > 0 {
                    Some(old(self).free_list_spec()[0])
                } else {
                    None
                };
                &&& p as int == (c + 4) * 8
                &&& p as int / 8 - 4 == c
                &&& final(self).live_at(p as int)
                &&& final(self).blocks_spec().dom().contains(c)
                &&& final(self).blocks_spec()[c].state == (BlockState::Used {
                    requested: size as int,
                })
                &&& bs <= final(self).blocks_spec()[c].size
                &&& final(self).blocks_spec()[c].size < bs + MIN_WORDS
                &&& size + OVERHEAD <= final(self).blocks_spec()[c].size * 8
                &&& (newsize < bs + MIN_WORDS ==> {
                    &&& final(self).blocks_spec()[c].size == newsize
                    &&& final(self).free_list_spec() == (if old(self).tail_is_free() {
                        old(self).free_list_spec().remove(
                            old(self).free_list_spec().index_of(old(self).last_head_spec()),
                        )
                    } else {
                        old(self).free_list_spec()
                    })
                    &&& final(self).last_head_spec() == c
                })
                &&& (newsize >= bs + MIN_WORDS ==> {
                    &&& final(self).blocks_spec()[c].size == bs as int
                    &&& final(self).blocks_spec().dom().contains(c + bs)
                    &&& final(self).blocks_spec()[c + bs] == (BlockSpec {
                        size: newsize - bs,
                        state: BlockState::Free { next: nx },
                    })
                    &&& final(self).free_list_spec() == (if old(self).tail_is_free() {
                        old(self).free_list_spec().update(
                            old(self).free_list_spec().index_of(old(self).last_head_spec()),
                            c + bs,
                        )
                    } else {
                        old(self).free_list_spec().insert(0, c + bs)
                    })
                    &&& final(self).last_head_spec() == c + bs
                })
                &&& forall|o: int|
                    old(self).blocks_spec().dom().contains(o) && o != c && (#[trigger] old(
                        self,
                    ).blocks_spec()[o]).state is Used ==> final(self).blocks_spec().dom().contains(
                        o,
                    ) && final(self).blocks_spec()[o] == old(self).blocks_spec()[o]
            }),
    {
        let ghost oldh = *old(self);
        let ghost bs_g = bs as int;
        let tail_free: bool;
        if self.started {
            proof {
                assert(self.block_shape(self.last_head_spec()));
                assert(Self::encode_at(
                    self.mem(),
                    self.last_head_spec(),
                    self.blocks_spec()[self.last_head_spec()],
                ));
                if oldh.tail_is_free() {
                    assert(oldh.free_list_spec().contains(oldh.last_head_spec()));
                    let k = oldh.free_list_spec().index_of(oldh.last_head_spec());
                    assert(oldh.blocks_spec()[oldh.free_list_spec()[k]].size < bs_g);
                }
            }
            let tag = self.words[self.last_head + 2];
            tail_free = tag == TAG_FREE;
        } else {
            tail_free = false;
        }
        let c: usize;
        if tail_free {
            c = self.last_head;
            self.grow_free_tail(n);
            proof {
                assert(self.blocks_spec()[c as int].size >= bs as int);
                assert(self.free_list_spec().contains(c as int)) by {
                    assert(oldh.free_list_spec().contains(c as int));
                }
            }
        } else {
            c = self.words.len();
            self.append_free(n);
            proof {
                assert(self.free_list_spec()[0] == c as int);
                assert(self.blocks_spec()[c as int].size >= bs as int);
            }
        }
        let ghost midh = *self;
        // The grown tail is now the one and only fit.
        proof {
            assert forall|k: int|
                0 <= k < midh.free_list_spec().len() && midh.free_list_spec()[k] != c as int
                    implies (#[trigger] midh.blocks_spec()[midh.free_list_spec()[k]]).size
                    < bs_g by {
                if oldh.tail_is_free() {
                    let o2 = midh.free_list_spec()[k];
                    assert(oldh.free_list_spec().contains(o2)) by {
                        assert(midh.free_list_spec() == oldh.free_list_spec());
                    }
                    let k0 = oldh.free_list_spec().index_of(o2);
                    assert(oldh.blocks_spec()[oldh.free_list_spec()[k0]].size < bs_g);
                    assert(midh.blocks_spec()[o2] == oldh.blocks_spec()[o2]);
                } else {
                    let o2 = midh.free_list_spec()[k];
                    assert(k > 0);
                    assert(o2 == oldh.free_list_spec()[k - 1]);
                    assert(oldh.blocks_spec()[oldh.free_list_spec()[k - 1]].size < bs_g);
                    assert(midh.blocks_spec()[o2] == oldh.blocks_spec()[o2]);
                }
            }
        }
        let (prev2, cur2, j2) = self.find_fit(bs);
        proof {
            // A fit exists, so the walk cannot have reached the end.
            if oldh.tail_is_free() {
                let k = midh.free_list_spec().index_of(c as int);
                assert(midh.blocks_spec()[midh.free_list_spec()[k]].size >= bs_g);
            } else {
                assert(midh.blocks_spec()[midh.free_list_spec()[0]].size >= bs_g);
            }
            assert(midh.fits(bs_g));
            assert(j2@ < midh.free_list_spec().len());
            // And the fit can only be the grown tail.
            assert(cur2 == c);
            // Pin down the tail's list position.
            if oldh.tail_is_free() {
                assert(midh.free_list_spec() == oldh.free_list_spec());
                let idx = oldh.free_list_spec().index_of(c as int);
                assert(oldh.free_list_spec()[idx] == c as int);
                assert(midh.free_list_spec()[j2@] == c as int);
                if j2@ != idx {
                    assert(midh.free_list_spec()[j2@] != midh.free_list_spec()[idx]);
                }
                assert(j2@ == idx);
            } else {
                if j2@ > 0 {
                    let o2 = midh.free_list_spec()[j2@];
                    assert(o2 == oldh.free_list_spec()[j2@ - 1]);
                    assert(oldh.blocks_spec().dom().contains(o2));
                    assert(oldh.block_shape(o2));
                    assert(false);
                }
                assert(j2@ == 0);
            }
            // The fresh offset was never a block before.
            if !oldh.tail_is_free() {
                if oldh.blocks_spec().dom().contains(c as int) {
                    assert(oldh.block_shape(c as int));
                    assert(false);
                }
            }
        }
        proof {
            assert(self.block_shape(cur2 as int));
            assert(Self::encode_at(self.mem(), cur2 as int, self.blocks_spec()[cur2 as int]));
        }
        let fsize2 = self.words[cur2 + 1];
        if fsize2 >= bs + MIN_WORDS {
            self.split_free(prev2, cur2, Ghost(j2@), bs, size);
        } else {
            self.unlink_use(prev2, cur2, Ghost(j2@), size);
        }
        proof {
            assert((cur2 as int + 4) * 8 == cur2 as int * 8 + 32);
            assert((cur2 as int * 8 + 32) / 8 - 4 == cur2 as int);
            // Relate the carve's list splice back to the pre-growth list.
            let c_i = c as int;
            let oldf = oldh.free_list_spec();
            let newsize = midh.blocks_spec()[c_i].size;
            if oldh.tail_is_free() {
                let idx = oldf.index_of(c_i);
                if newsize >= bs as int + MIN_WORDS {
                    assert(self.free_list_spec() == oldf.update(idx, c_i + bs));
                } else {
                    assert(self.free_list_spec() == oldf.remove(idx));
                }
            } else {
                if newsize >= bs as int + MIN_WORDS {
                    assert(midh.free_list_spec().update(0, c_i + bs) =~= oldf.insert(
                        0,
                        c_i + bs,
                    ));
                    assert(self.free_list_spec() == oldf.insert(0, c_i + bs));
                } else {
                    assert(midh.free_list_spec().remove(0) =~= oldf);
                    assert(self.free_list_spec() == oldf);
                }
            }
            // Old used blocks survived both the growth and the carve.
            assert forall|o: int|
                oldh.blocks_spec().dom().contains(o) && o != c as int && (#[trigger] oldh
                    .blocks_spec()[o]).state is Used implies self.blocks_spec().dom().contains(o)
                && self.blocks_spec()[o] == oldh.blocks_spec()[o] by {
                assert(oldh.block_shape(o));
                assert(midh.blocks_spec()[o] == oldh.blocks_spec()[o]);
                assert(!(midh.free_list_spec()[j2@] == o));
                if j2@ > 0 && midh.free_list_spec()[j2@ - 1] == o {
                    assert(midh.blocks_spec()[midh.free_list_spec()[j2@ - 1]].state is Free);
                    assert(false);
                }
            }
        }
        cur2 * 8 + HEADER_SIZE
    }
}


impl HeapDef {
    /// Carve a request out of the fitting free block found at list position
    /// `j`: split it when oversized, else take it whole.
    #[verifier::rlimit(100)]
    #[verifier::spinoff_prover]
    fn fit_carve(&mut self, prev: usize, cur: usize, Ghost(j): Ghost<int>, bs: usize, size: usize) -> (p: usize)
        requires
            old(self).wf(),
            old(self).first_fit_at(bs as int, j),
            cur as int == old(self).free_list_spec()[j],
            (j == 0 ==> prev == NO_NEXT),
            (j > 0 ==> prev as int == old(self).free_list_spec()[j - 1]),
            MIN_WORDS <= bs,
            bs % 4 == 0,
            size + OVERHEAD <= bs * 8,
        ensures
            final(self).wf(),
            final(self).capacity_spec() == old(self).capacity_spec(),
            final(self).mem().len() == old(self).mem().len(),
            p as int == (cur as int + 4) * 8,
            p as int / 8 - 4 == cur as int,
            final(self).live_at(p as int),
            final(self).blocks_spec().dom().contains(cur as int),
            final(self).blocks_spec()[cur as int].state == (BlockState::Used {
                requested: size as int,
            }),
            bs <= final(self).blocks_spec()[cur as int].size,
            final(self).blocks_spec()[cur as int].size < bs + MIN_WORDS,
            size + OVERHEAD <= final(self).blocks_spec()[cur as int].size * 8,
            final(self).started_spec() == old(self).started_spec(),
            old(self).blocks_spec()[cur as int].state is Free,
            forall|o: int|
                old(self).blocks_spec().dom().contains(o) && o != cur as int && (#[trigger] old(
                    self,
                ).blocks_spec()[o]).state is Used ==> final(self).blocks_spec().dom().contains(o)
                    && final(self).blocks_spec()[o] == old(self).blocks_spec()[o],
            // Exact fit: the block is taken whole off the list.
            (old(self).blocks_spec()[cur as int].size < bs + MIN_WORDS ==> {
                &&& final(self).blocks_spec()[cur as int].size == old(self).blocks_spec()[
                    cur as int
                ].size
                &&& final(self).free_list_spec() == old(self).free_list_spec().remove(j)
                &&& final(self).last_head_spec() == old(self).last_head_spec()
                &&& (j == 0 ==> final(self).blocks_spec() == old(self).blocks_spec().insert(
                    cur as int,
                    BlockSpec {
                        size: old(self).blocks_spec()[cur as int].size,
                        state: BlockState::Used { requested: size as int },
                    },
                ))
            }),
            // Oversized: split, the remainder inheriting the list position
            // and successor; sizes are conserved exactly.
            (old(self).blocks_spec()[cur as int].size >= bs + MIN_WORDS ==> {
                &&& final(self).blocks_spec()[cur as int].size == bs as int
                &&& final(self).blocks_spec().dom().contains(cur as int + bs)
                &&& final(self).blocks_spec()[cur as int + bs] == (BlockSpec {
                    size: old(self).blocks_spec()[cur as int].size - bs,
                    state: BlockState::Free {
                        next: Self::free_next(old(self).blocks_spec()[cur as int]),
                    },
                })
                &&& final(self).free_list_spec() == old(self).free_list_spec().update(
                    j,
                    cur as int + bs,
                )
                &&& final(self).last_head_spec() == (if old(self).last_head_spec() == cur as int {
                    cur as int + bs
                } else {
                    old(self).last_head_spec()
                })
                &&& (j == 0 ==> final(self).blocks_spec() == old(self).blocks_spec().insert(
                    cur as int,
                    BlockSpec { size: bs as int, state: BlockState::Used { requested: size as int } },
                ).insert(
                    cur as int + bs,
                    BlockSpec {
                        size: old(self).blocks_spec()[cur as int].size - bs,
                        state: BlockState::Free {
                            next: Self::free_next(old(self).blocks_spec()[cur as int]),
                        },
                    },
                ))
            }),
    {
        let ghost oldh = *old(self);
        proof {
            assert(self.first_fit_at(bs as int, j));
            assert(self.block_shape(self.free_list_spec()[j]));
            assert(Self::encode_at(self.mem(), cur as int, self.blocks_spec()[cur as int]));
        }
        let fsize = self.words[cur + 1];
        if fsize >= bs + MIN_WORDS {
            self.split_free(prev, cur, Ghost(j), bs, size);
            proof {
                if j == 0 {
                    let used = BlockSpec {
                        size: bs as int,
                        state: BlockState::Used { requested: size as int },
                    };
                    let rem = BlockSpec {
                        size: oldh.blocks_spec()[cur as int].size - bs,
                        state: BlockState::Free {
                            next: Self::free_next(oldh.blocks_spec()[cur as int]),
                        },
                    };
                    let target = oldh.blocks_spec().insert(cur as int, used).insert(
                        cur as int + bs,
                        rem,
                    );
                    assert(self.blocks_spec() =~= target) by {
                        assert forall|o: int| self.blocks_spec().dom().contains(o)
                            implies self.blocks_spec()[o] == target[o] by {
                            if o != cur as int && o != cur as int + bs {
                                assert(oldh.block_shape(o));
                                assert(o != NO_NEXT as int);
                                assert(self.blocks_spec()[o] == oldh.blocks_spec()[o]);
                            }
                        }
                    }
                }
            }
        } else {
            self.unlink_use(prev, cur, Ghost(j), size);
            proof {
                if j == 0 {
                    let used = BlockSpec {
                        size: oldh.blocks_spec()[cur as int].size,
                        state: BlockState::Used { requested: size as int },
                    };
                    let target = oldh.blocks_spec().insert(cur as int, used);
                    assert(self.blocks_spec() =~= target) by {
                        assert forall|o: int| self.blocks_spec().dom().contains(o)
                            implies self.blocks_spec()[o] == target[o] by {
                            if o != cur as int {
                                assert(oldh.block_shape(o));
                                assert(o != NO_NEXT as int);
                                assert(self.blocks_spec()[o] == oldh.blocks_spec()[o]);
                            }
                        }
                    }
                }
            }
        }
        proof {
            assert((cur as int + 4) * 8 == cur as int * 8 + 32);
            assert((cur as int * 8 + 32) / 8 - 4 == cur as int);
            assert forall|o: int|
                oldh.blocks_spec().dom().contains(o) && o != cur as int && (#[trigger] oldh
                    .blocks_spec()[o]).state is Used implies self.blocks_spec().dom().contains(o)
                && self.blocks_spec()[o] == oldh.blocks_spec()[o] by {
                assert(oldh.block_shape(o));
                if j > 0 && o == prev as int {
                    assert(oldh.blocks_spec()[oldh.free_list_spec()[j - 1]].state is Free);
                    assert(false);
                }
            }
        }
        cur * 8 + HEADER_SIZE
    }
}


/// The byte count a used block was asked for; zero for a free block.
pub open spec fn requested_of(b: BlockSpec) -> int {
    match b.state {
        BlockState::Used { requested } => requested,
        BlockState::Free { .. } => 0,
    }
}

/// A returned pointer's payload lies strictly inside its own block: writing
/// the full requested size never touches the block's header or footer, nor
/// any neighbor's metadata.
pub proof fn lemma_payload_in_block(h: &HeapDef, p: int)
    requires
        h.wf(),
        h.live_at(p),
    ensures
        ({
            let o = p / 8 - 4;
            &&& p == o * 8 + 32
            &&& p + requested_of(h.blocks_spec()[o]) <= (o + h.blocks_spec()[o].size) * 8 - 8
        }),
{
    let o = p / 8 - 4;
    assert(h.block_shape(o));
}

/// Any two distinct live allocations are pairwise non-overlapping: their
/// requested byte ranges are disjoint.
pub proof fn lemma_live_regions_disjoint(h: &HeapDef, p1: int, p2: int)
    requires
        h.wf(),
        h.live_at(p1),
        h.live_at(p2),
        p1 != p2,
    ensures
        p1 + requested_of(h.blocks_spec()[p1 / 8 - 4]) <= p2 || p2 + requested_of(
            h.blocks_spec()[p2 / 8 - 4],
        ) <= p1,
{
    let o1 = p1 / 8 - 4;
    let o2 = p2 / 8 - 4;
    assert(h.block_shape(o1));
    assert(h.block_shape(o2));
    if o1 < o2 {
        assert(h.disjoint_pair(o1, o2));
    } else {
        assert(h.disjoint_pair(o2, o1));
    }
}

/// Prepare the allocator subsystem. The arena itself is born lazily, on the
/// first allocation.
pub fn init() {
}

/// Allocate from the chosen heap. Only the global heap exists; asking for a
/// process-local heap is a caller error the original treated as fatal. The
/// contract restates the arena method's in full: what comes back is exactly
/// what `HeapDef::allocate` returns.
pub fn allocate(heap: HeapId, h: &mut HeapDef, size: usize) -> (r: Option<usize>)
    requires
        heap == HeapId::GlobalHeap,
        old(h).wf(),
        ensures
            final(h).wf(),
            final(h).capacity_spec() == old(h).capacity_spec(),
            r.is_some() == old(h).satisfiable(size as int),
            r.is_none() ==> *final(h) == *old(h),
            old(h).fits(HeapDef::blocksize_spec(size as int)) ==> final(h).arena_size()
                == old(h).arena_size() && final(h).started_spec() == old(h).started_spec(),
            r.is_some() ==> ({
                let bs = HeapDef::blocksize_spec(size as int);
                let p = r.unwrap() as int;
                let c = p / 8 - 4;
                &&& p == (c + 4) * 8
                &&& final(h).live_at(p)
                &&& !old(h).live_at(p)
                &&& (old(h).fits(bs) ==> exists|j: int|
                    old(h).first_fit_at(bs, j) && c == old(h).free_list_spec()[j])
                &&& (!old(h).fits(bs) && old(h).tail_is_free() ==> c == old(h).last_head_spec())
                &&& (!old(h).fits(bs) && !old(h).tail_is_free() ==> c == old(h).mem().len())
                &&& final(h).blocks_spec().dom().contains(c)
                &&& final(h).blocks_spec()[c].state == (BlockState::Used {
                    requested: size as int,
                })
                &&& bs <= final(h).blocks_spec()[c].size
                &&& final(h).blocks_spec()[c].size < bs + MIN_WORDS
                &&& size + OVERHEAD <= final(h).blocks_spec()[c].size * 8
                &&& final(h).started_spec()
                &&& forall|o: int|
                    old(h).blocks_spec().dom().contains(o) && o != c && (#[trigger] old(h).blocks_spec()[o]).state is Used ==> final(h).blocks_spec().dom().contains(
                        o,
                    ) && final(h).blocks_spec()[o] == old(h).blocks_spec()[o]
            }),
            // When the list's head block is the first fit, the whole
            // transition is pinned: the block is taken whole when under one
            // granule over the need, else split with exact size
            // conservation, the remainder keeping the head position and the
            // successor pointer.
            r.is_some() && old(h).first_fit_at(HeapDef::blocksize_spec(size as int), 0) ==> ({
                let bs = HeapDef::blocksize_spec(size as int);
                let c = old(h).free_list_spec()[0];
                let osize = old(h).blocks_spec()[c].size;
                &&& r.unwrap() as int == (c + 4) * 8
                &&& (osize < bs + MIN_WORDS ==> {
                    &&& final(h).blocks_spec() == old(h).blocks_spec().insert(
                        c,
                        BlockSpec { size: osize, state: BlockState::Used { requested: size as int } },
                    )
                    &&& final(h).free_list_spec() == old(h).free_list_spec().remove(0)
                    &&& final(h).last_head_spec() == old(h).last_head_spec()
                })
                &&& (osize >= bs + MIN_WORDS ==> {
                    &&& final(h).blocks_spec() == old(h).blocks_spec().insert(
                        c,
                        BlockSpec { size: bs, state: BlockState::Used { requested: size as int } },
                    ).insert(
                        c + bs,
                        BlockSpec {
                            size: osize - bs,
                            state: BlockState::Free {
                                next: HeapDef::free_next(old(h).blocks_spec()[c]),
                            },
                        },
                    )
                    &&& final(h).free_list_spec() == old(h).free_list_spec().update(
                        0,
                        c + bs,
                    )
                    &&& final(h).last_head_spec() == (if old(h).last_head_spec() == c {
                        c + bs
                    } else {
                        old(h).last_head_spec()
                    })
                })
            }),
            // The growth path's post-state: the arena gains exactly the
            // mapped pages; the carved block and the free remainder (when
            // one exists) are pinned, and the tail footer then denotes the
            // remainder.
            r.is_some() && !old(h).fits(HeapDef::blocksize_spec(size as int)) ==> ({
                let bs = HeapDef::blocksize_spec(size as int);
                let g = old(h).grow_amount(bs);
                let c = if old(h).tail_is_free() {
                    old(h).last_head_spec()
                } else {
                    old(h).mem().len() as int
                };
                let newsize = (if old(h).tail_is_free() {
                    old(h).blocks_spec()[old(h).last_head_spec()].size
                } else {
                    0
                }) + g;
                let nx = if old(h).tail_is_free() {
                    HeapDef::free_next(old(h).blocks_spec()[old(h).last_head_spec()])
                } else if old(h).free_list_spec().len() > 0 {
                    Some(old(h).free_list_spec()[0])
                } else {
                    None
                };
                &&& final(h).mem().len() == old(h).mem().len() + g
                &&& final(h).arena_size() == old(h).arena_size() + g * 8
                &&& (newsize < bs + MIN_WORDS ==> {
                    &&& final(h).blocks_spec()[c].size == newsize
                    &&& final(h).free_list_spec() == (if old(h).tail_is_free() {
                        old(h).free_list_spec().remove(
                            old(h).free_list_spec().index_of(old(h).last_head_spec()),
                        )
                    } else {
                        old(h).free_list_spec()
                    })
                    &&& final(h).last_head_spec() == c
                })
                &&& (newsize >= bs + MIN_WORDS ==> {
                    &&& final(h).blocks_spec()[c].size == bs
                    &&& final(h).blocks_spec().dom().contains(c + bs)
                    &&& final(h).blocks_spec()[c + bs] == (BlockSpec {
                        size: newsize - bs,
                        state: BlockState::Free { next: nx },
                    })
                    &&& final(h).free_list_spec() == (if old(h).tail_is_free() {
                        old(h).free_list_spec().update(
                            old(h).free_list_spec().index_of(old(h).last_head_spec()),
                            c + bs,
                        )
                    } else {
                        old(h).free_list_spec().insert(0, c + bs)
                    })
                    &&& final(h).last_head_spec() == c + bs
                })
            }),
{
    match heap {
        HeapId::GlobalHeap => h.allocate(size),
        HeapId::LocalHeap => unreached(),
    }
}

/// Allocate room for one value of `size` bytes; exhaustion is fatal at this
/// layer, so the caller must know the request is satisfiable.
pub fn alloc_value(h: &mut HeapDef, size: usize) -> (p: usize)
    requires
        old(h).wf(),
        old(h).satisfiable(size as int),
    ensures
        final(h).wf(),
        final(h).live_at(p as int),
        !old(h).live_at(p as int),
        size + OVERHEAD <= final(h).blocks_spec()[p as int / 8 - 4].size * 8,
        forall|o: int|
            old(h).blocks_spec().dom().contains(o) && o != p as int / 8 - 4 && (#[trigger] old(
                h,
            ).blocks_spec()[o]).state is Used ==> final(h).blocks_spec().dom().contains(o)
                && final(h).blocks_spec()[o] == old(h).blocks_spec()[o],
{
    match h.allocate(size) {
        Some(p) => p,
        None => unreached(),
    }
}

/// Allocate room for an array of `count` items of `elem_size` bytes each;
/// exhaustion is fatal here too.
pub fn alloc_array(h: &mut HeapDef, count: usize, elem_size: usize) -> (p: usize)
    requires
        old(h).wf(),
        count * elem_size <= usize::MAX,
        old(h).satisfiable((count * elem_size) as int),
    ensures
        final(h).wf(),
        final(h).live_at(p as int),
        !old(h).live_at(p as int),
        count * elem_size + OVERHEAD <= final(h).blocks_spec()[p as int / 8 - 4].size * 8,
        forall|o: int|
            old(h).blocks_spec().dom().contains(o) && o != p as int / 8 - 4 && (#[trigger] old(
                h,
            ).blocks_spec()[o]).state is Used ==> final(h).blocks_spec().dom().contains(o)
                && final(h).blocks_spec()[o] == old(h).blocks_spec()[o],
{
    let size = count * elem_size;
    match h.allocate(size) {
        Some(p) => p,
        None => unreached(),
    }
}

/// Return an allocation to the global heap: the block is validated and
/// pushed onto the free-list head, exactly as the arena method does.
pub fn deallocate(h: &mut HeapDef, ptr: usize)
    requires
        old(h).wf(),
        old(h).live_at(ptr as int),
    ensures
        final(h).wf(),
        final(h).arena_size() == old(h).arena_size(),
        final(h).capacity_spec() == old(h).capacity_spec(),
        final(h).started_spec() == old(h).started_spec(),
        final(h).last_head_spec() == old(h).last_head_spec(),
        ({
            let o = ptr as int / 8 - 4;
            let oldb = old(h).blocks_spec()[o];
            let hd = if old(h).free_list_spec().len() > 0 {
                Some(old(h).free_list_spec()[0])
            } else {
                None
            };
            &&& final(h).free_list_spec() == old(h).free_list_spec().insert(0, o)
            &&& final(h).blocks_spec() == old(h).blocks_spec().insert(
                o,
                BlockSpec { size: oldb.size, state: BlockState::Free { next: hd } },
            )
        }),
{
    h.deallocate(ptr);
}


/// Repeated allocate-then-free of one size is stable. From the second round
/// on, the freed block sits at the free-list head and fits the request
/// without a split (it was carved to under one granule over the need), and
/// then one allocate–deallocate round restores the heap model identically:
/// same blocks, same free list, same arena size, same tail block. By
/// induction over the rounds, every round returns the same pointer and the
/// arena never grows beyond what the one live allocation required.
///
/// `h1` is `h0` after `allocate(size)` returned `Some(p)` (the head-fit,
/// exact-size case of its contract), and `h2` is `h1` after `deallocate(p)`;
/// the hypotheses are those contracts' clauses.
pub proof fn lemma_realloc_round_identity(h0: HeapDef, h1: HeapDef, h2: HeapDef, size: int, p: int)
    requires
        h0.wf(),
        h0.free_list_spec().len() > 0,
        h0.first_fit_at(HeapDef::blocksize_spec(size), 0),
        h0.blocks_spec()[h0.free_list_spec()[0]].size < HeapDef::blocksize_spec(size)
            + MIN_WORDS,
        p == (h0.free_list_spec()[0] + 4) * 8,
        h1.blocks_spec() == h0.blocks_spec().insert(
            h0.free_list_spec()[0],
            BlockSpec {
                size: h0.blocks_spec()[h0.free_list_spec()[0]].size,
                state: BlockState::Used { requested: size },
            },
        ),
        h1.free_list_spec() == h0.free_list_spec().remove(0),
        h1.mem().len() == h0.mem().len(),
        h1.last_head_spec() == h0.last_head_spec(),
        h2.blocks_spec() == h1.blocks_spec().insert(
            p / 8 - 4,
            BlockSpec {
                size: h1.blocks_spec()[p / 8 - 4].size,
                state: BlockState::Free {
                    next: if h1.free_list_spec().len() > 0 {
                        Some(h1.free_list_spec()[0])
                    } else {
                        None
                    },
                },
            },
        ),
        h2.free_list_spec() == h1.free_list_spec().insert(0, p / 8 - 4),
        h2.mem().len() == h1.mem().len(),
        h2.last_head_spec() == h1.last_head_spec(),
    ensures
        h2.blocks_spec() == h0.blocks_spec(),
        h2.free_list_spec() == h0.free_list_spec(),
        h2.arena_size() == h0.arena_size(),
        h2.last_head_spec() == h0.last_head_spec(),
{
    let c = h0.free_list_spec()[0];
    assert(c >= 0) by {
        assert(h0.block_shape(c));
    }
    assert(p / 8 - 4 == c) by {
        assert((c + 4) * 8 / 8 == c + 4) by (nonlinear_arith)
            requires c >= 0;
    }
    assert(h2.free_list_spec() =~= h0.free_list_spec());
    // The freed block comes back with the successor the list's linkage gave
    // it before the round.
    assert(HeapDef::free_next(h0.blocks_spec()[c]) == (if h0.free_list_spec().len() > 1 {
        Some(h0.free_list_spec()[1])
    } else {
        None
    }));
    assert(h0.blocks_spec()[c].state is Free);
    assert(h0.blocks_spec()[c].state == (BlockState::Free {
        next: HeapDef::free_next(h0.blocks_spec()[c]),
    }));
    assert(h2.blocks_spec() =~= h0.blocks_spec()) by {
        assert forall|o: int| h2.blocks_spec().dom().contains(o)
            implies h2.blocks_spec()[o] == h0.blocks_spec()[o] by {
            if o == c {
                if h1.free_list_spec().len() > 0 {
                    assert(h1.free_list_spec()[0] == h0.free_list_spec()[1]);
                }
            }
        }
    }
}


} // verus!
