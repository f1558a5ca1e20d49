use vstd::prelude::*;

use std::collections::HashMap;

use crate::model::{Vector2D, key, key_of, lemma_key_injective};

verus! {

broadcast use vstd::std_specs::hash::group_hash_axioms;

/// Side of the square tiles of the spatial index, in pixels.
pub const TILE: u32 = 1024;

/// A bordered rectangle found by the scanner: corners `(x1, y1)` and
/// `(x2, y2)`, both inclusive, and its number in discovery order.
#[derive(Clone, Copy, Debug, PartialEq, Eq, Structural)]
pub struct Block {
    pub x1: u32,
    pub y1: u32,
    pub x2: u32,
    pub y2: u32,
    pub block_id: usize,
}

impl Block {
    pub open spec fn holds(self, x: int, y: int) -> bool {
        self.x1 <= x && self.y1 <= y && x <= self.x2 && y <= self.y2
    }

    pub fn contains(&self, x: u32, y: u32) -> (r: bool)
        ensures
            r == self.holds(x as int, y as int),
    {
        x >= self.x1 && y >= self.y1 && x <= self.x2 && y <= self.y2
    }
}

pub open spec fn tile_key(tx: int, ty: int) -> u64 {
    key_of(Vector2D { x: tx as u32, y: ty as u32 })
}

/// Blocks in discovery order, with an index from 1024 x 1024 tiles to the
/// blocks that overlap each tile.
pub struct BlocksMap {
    map: HashMap<u64, Vec<Block>>,
    blocks: Vec<Block>,
}

proof fn lemma_tiles_model()
    ensures
        vstd::std_specs::hash::obeys_key_model::<u64>(),
        vstd::std_specs::hash::builds_valid_hashers::<std::hash::RandomState>(),
{
}

proof fn lemma_tile_of(a: int, x: int, b: int)
    requires
        0 <= a <= x <= b,
    ensures
        a / 1024 <= x / 1024 <= b / 1024,
{
    vstd::arithmetic::div_mod::lemma_div_is_ordered(a, x, 1024);
    vstd::arithmetic::div_mod::lemma_div_is_ordered(x, b, 1024);
}

impl BlocksMap {
    pub closed spec fn view(&self) -> Seq<Block> {
        self.blocks@
    }

    /// Block `b` is listed under tile `(tx, ty)`.
    closed spec fn listed(&self, b: Block, tx: int, ty: int) -> bool {
        &&& self.map@.contains_key(tile_key(tx, ty))
        &&& self.map@[tile_key(tx, ty)]@.contains(b)
    }

    pub closed spec fn wf(&self) -> bool {
        &&& forall|i: int|
            0 <= i < self.blocks@.len() ==> {
                &&& (#[trigger] self.blocks@[i]).block_id == i
                &&& self.blocks@[i].x1 <= self.blocks@[i].x2
                &&& self.blocks@[i].y1 <= self.blocks@[i].y2
            }
        &&& forall|k: u64, j: int|
            self.map@.contains_key(k) && 0 <= j < self.map@[k]@.len() ==> {
                let b = #[trigger] self.map@[k]@[j];
                &&& b.block_id < self.blocks@.len()
                &&& self.blocks@[b.block_id as int] == b
            }
        &&& forall|i: int, tx: int, ty: int|
            0 <= i < self.blocks@.len() && self.blocks@[i].x1 / 1024 <= tx <= self.blocks@[i].x2 / 1024
                && self.blocks@[i].y1 / 1024 <= ty <= self.blocks@[i].y2 / 1024 ==> #[trigger] self.listed(
                self.blocks@[i],
                tx,
                ty,
            )
    }

    pub fn new() -> (m: Self)
        ensures
            m.wf(),
            m.view().len() == 0,
    {
        proof {
            lemma_tiles_model();
        }
        BlocksMap { map: HashMap::new(), blocks: Vec::new() }
    }

    pub fn len(&self) -> (n: usize)
        ensures
            n == self.view().len(),
    {
        self.blocks.len()
    }

    /// All blocks, in the order of their numbers.
    pub fn get_blocks(&self) -> (v: &Vec<Block>)
        ensures
            v@ == self.view(),
    {
        &self.blocks
    }

    fn tile(tx: u32, ty: u32) -> (k: u64)
        ensures
            k == tile_key(tx as int, ty as int),
    {
        key(Vector2D { x: tx, y: ty })
    }

    /// Registers the next block under every tile it overlaps.
    pub fn add(&mut self, block: Block)
        requires
            old(self).wf(),
            block.block_id == old(self).view().len(),
            block.x1 <= block.x2,
            block.y1 <= block.y2,
        ensures
            final(self).wf(),
            final(self).view() == old(self).view().push(block),
    {
        proof {
            lemma_tiles_model();
        }
        self.blocks.push(block);
        let ghost n = self.blocks@.len();
        assert(self.blocks@[n - 1] == block);
        let tx1 = block.x1 / TILE;
        let tx2 = block.x2 / TILE;
        let ty1 = block.y1 / TILE;
        let ty2 = block.y2 / TILE;
        proof {
            lemma_tile_of(block.x1 as int, block.x1 as int, block.x2 as int);
            lemma_tile_of(block.y1 as int, block.y1 as int, block.y2 as int);
            assert forall|i: int, tx: int, ty: int|
                0 <= i < n - 1 && self.blocks@[i].x1 / 1024 <= tx <= self.blocks@[i].x2 / 1024
                    && self.blocks@[i].y1 / 1024 <= ty <= self.blocks@[i].y2 / 1024 implies #[trigger] self.listed(
                self.blocks@[i],
                tx,
                ty,
            ) by {
                assert(old(self).blocks@[i] == self.blocks@[i]);
                assert(old(self).listed(old(self).blocks@[i], tx, ty));
            }
        }
        let mut tx = tx1;
        while tx <= tx2
            invariant
                self.blocks@.len() == n,
                self.blocks@ == old(self).blocks@.push(block),
                tx1 <= tx,
                tx2 < u32::MAX,
                tx1 == block.x1 / 1024,
                tx2 == block.x2 / 1024,
                ty1 == block.y1 / 1024,
                ty2 == block.y2 / 1024,
                ty1 <= ty2,
                tx <= tx2 + 1,
                forall|i: int| 0 <= i < n ==> {
                    &&& (#[trigger] self.blocks@[i]).block_id == i
                    &&& self.blocks@[i].x1 <= self.blocks@[i].x2
                    &&& self.blocks@[i].y1 <= self.blocks@[i].y2
                },
                forall|k: u64, j: int|
                    self.map@.contains_key(k) && 0 <= j < self.map@[k]@.len() ==> {
                        let b = #[trigger] self.map@[k]@[j];
                        &&& b.block_id < n
                        &&& self.blocks@[b.block_id as int] == b
                    },
                forall|i: int, tx0: int, ty0: int|
                    0 <= i < n - 1 && self.blocks@[i].x1 / 1024 <= tx0 <= self.blocks@[i].x2 / 1024
                        && self.blocks@[i].y1 / 1024 <= ty0 <= self.blocks@[i].y2 / 1024 ==> #[trigger] self.listed(
                        self.blocks@[i],
                        tx0,
                        ty0,
                    ),
                forall|tx0: int, ty0: int|
                    tx1 <= tx0 < tx && ty1 <= ty0 <= ty2 ==> #[trigger] self.listed(block, tx0, ty0),
            decreases tx2 + 1 - tx,
        {
            let mut ty = ty1;
            while ty <= ty2
                invariant
                    self.blocks@.len() == n,
                    self.blocks@ == old(self).blocks@.push(block),
                    tx1 <= tx <= tx2,
                    tx2 < u32::MAX,
                    tx1 == block.x1 / 1024,
                    tx2 == block.x2 / 1024,
                    ty1 == block.y1 / 1024,
                    ty2 == block.y2 / 1024,
                    ty2 < u32::MAX,
                    ty1 <= ty <= ty2 + 1,
                    forall|i: int| 0 <= i < n ==> {
                        &&& (#[trigger] self.blocks@[i]).block_id == i
                        &&& self.blocks@[i].x1 <= self.blocks@[i].x2
                        &&& self.blocks@[i].y1 <= self.blocks@[i].y2
                    },
                    forall|k: u64, j: int|
                        self.map@.contains_key(k) && 0 <= j < self.map@[k]@.len() ==> {
                            let b = #[trigger] self.map@[k]@[j];
                            &&& b.block_id < n
                            &&& self.blocks@[b.block_id as int] == b
                        },
                    forall|i: int, tx0: int, ty0: int|
                        0 <= i < n - 1 && self.blocks@[i].x1 / 1024 <= tx0 <= self.blocks@[i].x2 / 1024
                            && self.blocks@[i].y1 / 1024 <= ty0 <= self.blocks@[i].y2 / 1024 ==> #[trigger] self.listed(
                            self.blocks@[i],
                            tx0,
                            ty0,
                        ),
                    forall|tx0: int, ty0: int|
                        ((tx1 <= tx0 < tx && ty1 <= ty0 <= ty2) || (tx0 == tx && ty1 <= ty0 < ty))
                            ==> #[trigger] self.listed(block, tx0, ty0),
                decreases ty2 + 1 - ty,
            {
                let k = Self::tile(tx, ty);
                let ghost before = *self;
                let mut list = match self.map.remove(&k) {
                    Some(v) => v,
                    None => Vec::new(),
                };
                let ghost old_list = list@;
                list.push(block);
                self.map.insert(k, list);
                proof {
                    assert(self.map@ == before.map@.insert(k, list));
                    assert forall|tx0: int, ty0: int, b: Block|
                        #[trigger] before.listed(b, tx0, ty0) implies self.listed(b, tx0, ty0) by {
                        let k0 = tile_key(tx0, ty0);
                        if k0 == k {
                            assert(before.map@[k0]@ == old_list);
                            assert(list@ == old_list.push(block));
                            let j = choose|j: int| 0 <= j < old_list.len() && old_list[j] == b;
                            assert(list@[j] == b);
                        }
                    }
                    assert(list@[list@.len() - 1] == block);
                    assert(self.listed(block, tx as int, ty as int));
                    assert forall|k0: u64, j: int|
                        self.map@.contains_key(k0) && 0 <= j < self.map@[k0]@.len() implies {
                            let b = #[trigger] self.map@[k0]@[j];
                            &&& b.block_id < n
                            &&& self.blocks@[b.block_id as int] == b
                        } by {
                        if k0 == k {
                            if j < old_list.len() {
                                assert(before.map@.contains_key(k));
                                assert(before.map@[k]@ == old_list);
                                assert(before.map@[k]@[j] == self.map@[k0]@[j]);
                            } else {
                                assert(self.map@[k0]@[j] == block);
                                assert(self.blocks@[n - 1] == block);
                            }
                        } else {
                            assert(before.map@[k0] == self.map@[k0]);
                        }
                    }
                    assert forall|i: int, tx0: int, ty0: int|
                        0 <= i < n - 1 && self.blocks@[i].x1 / 1024 <= tx0 <= self.blocks@[i].x2 / 1024
                            && self.blocks@[i].y1 / 1024 <= ty0 <= self.blocks@[i].y2 / 1024 implies #[trigger] self.listed(
                            self.blocks@[i],
                            tx0,
                            ty0,
                        ) by {
                        assert(before.listed(self.blocks@[i], tx0, ty0));
                    }
                    assert forall|tx0: int, ty0: int|
                        ((tx1 <= tx0 < tx && ty1 <= ty0 <= ty2) || (tx0 == tx && ty1 <= ty0 < ty + 1))
                            implies #[trigger] self.listed(block, tx0, ty0) by {
                        if !(tx0 == tx && ty0 == ty) {
                            assert(before.listed(block, tx0, ty0));
                        }
                    }
                }
                ty = ty + 1;
            }
            tx = tx + 1;
        }
        proof {
            assert forall|i: int, tx0: int, ty0: int|
                0 <= i < n && self.blocks@[i].x1 / 1024 <= tx0 <= self.blocks@[i].x2 / 1024
                    && self.blocks@[i].y1 / 1024 <= ty0 <= self.blocks@[i].y2 / 1024 implies #[trigger] self.listed(
                self.blocks@[i],
                tx0,
                ty0,
            ) by {
                if i == n - 1 {
                    assert(self.blocks@[i] == block);
                }
            }
        }
    }

    /// A block that contains `(x, y)`; `None` when no block does.
    pub fn get_block(&self, x: u32, y: u32) -> (r: Option<Block>)
        requires
            self.wf(),
        ensures
            r is None <==> forall|i: int| 0 <= i < self.view().len() ==> !(#[trigger] self.view()[i]).holds(x as int, y as int),
            r matches Some(b) ==> b.holds(x as int, y as int) && b.block_id < self.view().len()
                && self.view()[b.block_id as int] == b,
    {
        proof {
            lemma_tiles_model();
        }
        let k = Self::tile(x / TILE, y / TILE);
        match self.map.get(&k) {
            Some(list) => {
                let mut j: usize = 0;
                while j < list.len()
                    invariant
                        self.wf(),
                        self.map@.contains_key(k),
                        self.map@[k] == *list,
                        j <= list@.len(),
                        forall|jj: int| 0 <= jj < j ==> !(#[trigger] list@[jj]).holds(x as int, y as int),
                    decreases list.len() - j,
                {
                    let b = list[j];
                    if b.contains(x, y) {
                        assert(self.map@[k]@[j as int] == b);
                        assert(self.view()[b.block_id as int].holds(x as int, y as int));
                        return Some(b);
                    }
                    j = j + 1;
                }
                proof {
                    assert forall|i: int| 0 <= i < self.view().len() implies !(#[trigger] self.view()[i]).holds(x as int, y as int) by {
                        let b = self.blocks@[i];
                        if b.holds(x as int, y as int) {
                            lemma_tile_of(b.x1 as int, x as int, b.x2 as int);
                            lemma_tile_of(b.y1 as int, y as int, b.y2 as int);
                            assert(self.listed(b, x as int / 1024, y as int / 1024));
                            let jj = choose|jj: int| 0 <= jj < list@.len() && list@[jj] == b;
                        }
                    }
                }
                None
            },
            None => {
                proof {
                    assert forall|i: int| 0 <= i < self.view().len() implies !(#[trigger] self.view()[i]).holds(x as int, y as int) by {
                        let b = self.blocks@[i];
                        if b.holds(x as int, y as int) {
                            lemma_tile_of(b.x1 as int, x as int, b.x2 as int);
                            lemma_tile_of(b.y1 as int, y as int, b.y2 as int);
                            assert(self.listed(b, x as int / 1024, y as int / 1024));
                        }
                    }
                }
                None
            },
        }
    }

    /// Every block that contains `(x, y)`, as the tile index lists them.
    pub fn holders(&self, x: u32, y: u32) -> (r: Vec<Block>)
        requires
            self.wf(),
        ensures
            forall|k: int| 0 <= k < r@.len() ==> (#[trigger] r@[k]).holds(x as int, y as int) && r@[k].block_id
                < self.view().len() && self.view()[r@[k].block_id as int] == r@[k],
            forall|i: int| 0 <= i < self.view().len() && (#[trigger] self.view()[i]).holds(x as int, y as int) ==> r@.contains(
                self.view()[i],
            ),
    {
        proof {
            lemma_tiles_model();
        }
        let mut out: Vec<Block> = Vec::new();
        let k = Self::tile(x / TILE, y / TILE);
        match self.map.get(&k) {
            Some(list) => {
                let mut j: usize = 0;
                while j < list.len()
                    invariant
                        self.wf(),
                        self.map@.contains_key(k),
                        self.map@[k] == *list,
                        j <= list@.len(),
                        forall|m: int| 0 <= m < out@.len() ==> (#[trigger] out@[m]).holds(x as int, y as int) && out@[m].block_id
                            < self.view().len() && self.view()[out@[m].block_id as int] == out@[m],
                        forall|m: int| 0 <= m < j && (#[trigger] list@[m]).holds(x as int, y as int) ==> out@.contains(list@[m]),
                    decreases list.len() - j,
                {
                    let b = list[j];
                    let ghost o0 = out@;
                    if b.contains(x, y) {
                        assert(self.map@[k]@[j as int] == b);
                        out.push(b);
                        assert(out@[o0.len() as int] == b);
                    }
                    assert forall|m: int| 0 <= m < j + 1 && (#[trigger] list@[m]).holds(x as int, y as int) implies out@.contains(list@[m]) by {
                        if m < j {
                            let q = choose|q: int| 0 <= q < o0.len() && o0[q] == list@[m];
                            assert(out@[q] == list@[m]);
                        }
                    }
                    j = j + 1;
                }
                proof {
                    assert forall|i: int| 0 <= i < self.view().len() && (#[trigger] self.view()[i]).holds(x as int, y as int) implies out@.contains(
                        self.view()[i],
                    ) by {
                        let b = self.blocks@[i];
                        lemma_tile_of(b.x1 as int, x as int, b.x2 as int);
                        lemma_tile_of(b.y1 as int, y as int, b.y2 as int);
                        assert(self.listed(b, x as int / 1024, y as int / 1024));
                        let m = choose|m: int| 0 <= m < list@.len() && list@[m] == b;
                    }
                }
            },
            None => {
                proof {
                    assert forall|i: int| 0 <= i < self.view().len() && (#[trigger] self.view()[i]).holds(x as int, y as int) implies out@.contains(
                        self.view()[i],
                    ) by {
                        let b = self.blocks@[i];
                        lemma_tile_of(b.x1 as int, x as int, b.x2 as int);
                        lemma_tile_of(b.y1 as int, y as int, b.y2 as int);
                        assert(self.listed(b, x as int / 1024, y as int / 1024));
                    }
                }
            },
        }
        out
    }
}

} // verus!
