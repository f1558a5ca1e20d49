use vstd::prelude::*;

use crate::blocks::{Block, BlocksMap};
use crate::colors::RGB;
use crate::image::StorableImage;
use crate::model::{Field, FieldType, Record, Vector2D};
use crate::points::{PointSet, key_space};
use crate::counter::adjacent;
use crate::scan::{meta_at, pixel, px, readable};

verus! {

/// The code of a field that refers to another record: a plus-shaped stamp.
pub const REFERENCE_TYPE: u16 = 0b010_111_010;

/// The blocks lie inside the grid, off its top row and left column, and are
/// numbered by their position in the sequence.
pub open spec fn placed<I: StorableImage>(img: &I, blocks: Seq<Block>) -> bool {
    forall|i: int|
        0 <= i < blocks.len() ==> {
            &&& (#[trigger] blocks[i]).block_id == i
            &&& 1 <= blocks[i].x1 <= blocks[i].x2 < img.spec_width()
            &&& 1 <= blocks[i].y1 <= blocks[i].y2 < img.spec_height()
        }
}

/// Each recorded connection points from a block to one with a smaller number.
pub open spec fn canonical(conn: Seq<Option<usize>>) -> bool {
    forall|t: int| 0 <= t < conn.len() ==> (#[trigger] conn[t] matches Some(f) ==> f < t)
}

/// `p` lies on the one-pixel ring just outside block `b`.
pub open spec fn ring_point(b: Block, p: Vector2D) -> bool {
    ||| b.x1 - 1 <= p.x <= b.x2 + 1 && (p.y == b.y1 - 1 || p.y == b.y2 + 1)
    ||| b.y1 <= p.y <= b.y2 && (p.x == b.x1 - 1 || p.x == b.x2 + 1)
}

/// A corridor walk from the ring of `b`: every point but the last is a
/// marker pixel in no block, and each next point shares an edge with it.
pub open spec fn corridor_walk<I: StorableImage>(img: &I, blocks: Seq<Block>, b: Block, cs: Seq<Vector2D>) -> bool {
    &&& cs.len() >= 1
    &&& ring_point(b, cs[0])
    &&& forall|i: int|
        0 <= i < cs.len() - 1 ==> {
            &&& meta_at(img, (#[trigger] cs[i]).x as int, cs[i].y as int)
            &&& forall|k: int| 0 <= k < blocks.len() ==> !(#[trigger] blocks[k]).holds(cs[i].x as int, cs[i].y as int)
            &&& adjacent(cs[i], cs[i + 1])
        }
}

/// Some corridor walk from the ring of `b` ends at `q`.
pub open spec fn walk_to<I: StorableImage>(img: &I, blocks: Seq<Block>, b: Block, q: Vector2D) -> bool {
    exists|cs: Seq<Vector2D>| #[trigger] corridor_walk(img, blocks, b, cs) && cs.last() == q
}

/// A marker corridor leads from the ring of block `f` into block `t`.
pub open spec fn corridor<I: StorableImage>(img: &I, blocks: Seq<Block>, f: int, t: int) -> bool {
    exists|cs: Seq<Vector2D>|
        #[trigger] corridor_walk(img, blocks, blocks[f], cs) && blocks[t].holds(cs.last().x as int, cs.last().y as int)
}

fn push_point(stack: &mut Vec<Vector2D>, x: u32, y: u32)
    ensures
        final(stack)@ == old(stack)@.push(Vector2D { x, y }),
{
    stack.push(Vector2D { x, y });
}

proof fn lemma_still_contains<A>(a: Seq<A>, b: Seq<A>, x: A)
    requires
        a.contains(x),
        a.len() <= b.len(),
        forall|i: int| 0 <= i < a.len() ==> a[i] == b[i],
    ensures
        b.contains(x),
{
    let i = choose|i: int| 0 <= i < a.len() && a[i] == x;
    assert(b[i] == x);
}

/// The points around the border of `b`: the rows above and below it and
/// the columns left and right of it.
fn ring(b: Block) -> (v: Vec<Vector2D>)
    requires
        1 <= b.x1 <= b.x2 < u32::MAX,
        1 <= b.y1 <= b.y2 < u32::MAX,
    ensures
        forall|i: int| 0 <= i < v@.len() ==> ring_point(b, #[trigger] v@[i]),
        forall|p: Vector2D| ring_point(b, p) ==> #[trigger] v@.contains(p),
{
    let mut v: Vec<Vector2D> = Vec::new();
    let mut x: u64 = b.x1 as u64 - 1;
    while x <= b.x2 as u64 + 1
        invariant
            1 <= b.x1 <= b.x2 < u32::MAX,
            1 <= b.y1 <= b.y2 < u32::MAX,
            b.x1 - 1 <= x <= b.x2 + 2,
            forall|i: int| 0 <= i < v@.len() ==> ring_point(b, #[trigger] v@[i]),
            forall|p: Vector2D| b.x1 - 1 <= p.x < x && (p.y == b.y1 - 1 || p.y == b.y2 + 1) ==> #[trigger] v@.contains(p),
        decreases b.x2 + 2 - x,
    {
        let ghost v0 = v@;
        push_point(&mut v, x as u32, b.y1 - 1);
        push_point(&mut v, x as u32, b.y2 + 1);
        proof {
            assert forall|p: Vector2D| b.x1 - 1 <= p.x < x + 1 && (p.y == b.y1 - 1 || p.y == b.y2 + 1) implies #[trigger] v@.contains(p) by {
                if p.x < x {
                    lemma_still_contains(v0, v@, p);
                } else if p.y == b.y1 - 1 {
                    assert(v@[v0.len() as int] == p);
                } else {
                    assert(v@[v0.len() as int + 1] == p);
                }
            }
        }
        x = x + 1;
    }
    let mut y = b.y1;
    while y <= b.y2
        invariant
            1 <= b.x1 <= b.x2 < u32::MAX,
            1 <= b.y1 <= b.y2 < u32::MAX,
            b.y1 <= y <= b.y2 + 1,
            forall|i: int| 0 <= i < v@.len() ==> ring_point(b, #[trigger] v@[i]),
            forall|p: Vector2D| b.x1 - 1 <= p.x <= b.x2 + 1 && (p.y == b.y1 - 1 || p.y == b.y2 + 1) ==> #[trigger] v@.contains(p),
            forall|p: Vector2D| b.y1 <= p.y < y && (p.x == b.x1 - 1 || p.x == b.x2 + 1) ==> #[trigger] v@.contains(p),
        decreases b.y2 + 1 - y,
    {
        let ghost v0 = v@;
        push_point(&mut v, b.x1 - 1, y);
        push_point(&mut v, b.x2 + 1, y);
        proof {
            assert forall|p: Vector2D| b.x1 - 1 <= p.x <= b.x2 + 1 && (p.y == b.y1 - 1 || p.y == b.y2 + 1) implies #[trigger] v@.contains(p) by {
                lemma_still_contains(v0, v@, p);
            }
            assert forall|p: Vector2D| b.y1 <= p.y < y + 1 && (p.x == b.x1 - 1 || p.x == b.x2 + 1) implies #[trigger] v@.contains(p) by {
                if p.y < y {
                    lemma_still_contains(v0, v@, p);
                } else if p.x == b.x1 - 1 {
                    assert(v@[v0.len() as int] == p);
                } else {
                    assert(v@[v0.len() as int + 1] == p);
                }
            }
        }
        y = y + 1;
    }
    v
}

/// `best` holds a number no larger than `t`.
pub open spec fn at_most(best: Option<usize>, t: int) -> bool {
    best matches Some(bb) && bb <= t
}

/// Block `t`, numbered above `b`, is a candidate of `b`'s flood: a
/// corridor walk from `b`'s ring ends at a marker pixel outside `b` that
/// lies in `t`.
pub open spec fn candidate<I: StorableImage>(img: &I, blocks: Seq<Block>, b: Block, t: int) -> bool {
    &&& b.block_id < t < blocks.len()
    &&& exists|cs: Seq<Vector2D>|
        #[trigger] corridor_walk(img, blocks, b, cs) && meta_at(img, cs.last().x as int, cs.last().y as int) && !b.holds(
            cs.last().x as int,
            cs.last().y as int,
        ) && blocks[t].holds(cs.last().x as int, cs.last().y as int)
}

/// Block `t` is the lowest-numbered candidate of block `f`'s flood.
pub open spec fn first_up<I: StorableImage>(img: &I, blocks: Seq<Block>, f: int, t: int) -> bool {
    &&& 0 <= f < blocks.len()
    &&& candidate(img, blocks, blocks[f], t)
    &&& forall|t2: int| #[trigger] candidate(img, blocks, blocks[f], t2) ==> t <= t2
}

/// The connection map is the one the smaller-id rule gives: block `t`
/// merges into the highest-numbered block whose flood meets `t` first
/// among the blocks above it, and into none if no flood does.
pub open spec fn connections<I: StorableImage>(img: &I, blocks: Seq<Block>, conn: Seq<Option<usize>>, upto: int) -> bool {
    forall|t: int|
        0 <= t < conn.len() ==> match #[trigger] conn[t] {
            Some(f) => f < upto && first_up(img, blocks, f as int, t) && forall|f2: int|
                f < f2 < upto ==> !#[trigger] first_up(img, blocks, f2, t),
            None => forall|f2: int| 0 <= f2 < upto ==> !#[trigger] first_up(img, blocks, f2, t),
        }
}

/// Floods outward from the ring of block `b` through marker pixels that lie
/// in no block, and returns the lowest-numbered block above `b` that it
/// meets. Blocks with a smaller number are passed over: that connection
/// belongs to the other block's flood.
fn flood_from_block<I: StorableImage>(img: &I, blocks: &BlocksMap, b: Block) -> (r: Option<usize>)
    requires
        readable(img),
        blocks.wf(),
        placed(img, blocks.view()),
        b.block_id < blocks.view().len(),
        blocks.view()[b.block_id as int] == b,
    ensures
        r matches Some(t) ==> first_up(img, blocks.view(), b.block_id as int, t as int),
        r is None ==> forall|t: int| !#[trigger] candidate(img, blocks.view(), b, t),
{
    let mut visited = PointSet::new();
    let mut stack = ring(b);
    let mut best: Option<usize> = None;
    let ghost bv = blocks.view();
    proof {
        visited.lemma_size_bound();
        assert forall|i: int| 0 <= i < stack@.len() implies walk_to(img, bv, b, #[trigger] stack@[i]) by {
            let cs = seq![stack@[i]];
            assert(corridor_walk(img, bv, b, cs));
            assert(cs.last() == stack@[i]);
        }
    }
    while stack.len() > 0
        invariant
            readable(img),
            blocks.wf(),
            placed(img, blocks.view()),
            visited.wf(),
            visited.size() <= key_space(),
            b.block_id < blocks.view().len(),
            blocks.view()[b.block_id as int] == b,
            bv == blocks.view(),
            forall|i: int| 0 <= i < stack@.len() ==> walk_to(img, bv, b, #[trigger] stack@[i]),
            best matches Some(t) ==> candidate(img, bv, b, t as int),
            forall|p: Vector2D| ring_point(b, p) ==> #[trigger] visited.has(p) || stack@.contains(p),
            forall|p: Vector2D, q: Vector2D|
                #[trigger] visited.has(p) && meta_at(img, p.x as int, p.y as int) && (forall|k: int| 0 <= k < bv.len() ==> !(#[trigger] bv[k]).holds(p.x as int, p.y as int))
                    && adjacent(p, q) ==> #[trigger] visited.has(q) || stack@.contains(q),
            forall|p: Vector2D, t: int|
                #[trigger] visited.has(p) && meta_at(img, p.x as int, p.y as int) && !b.holds(p.x as int, p.y as int) && b.block_id < t
                    < bv.len() && (#[trigger] bv[t]).holds(p.x as int, p.y as int) ==> at_most(best, t as int),
        decreases key_space() - visited.size(), stack.len(),
    {
        let ghost st = stack@;
        let p = stack.pop().unwrap();
        proof {
            assert(st[st.len() - 1] == p);
            assert(forall|i: int| 0 <= i < stack@.len() ==> stack@[i] == st[i]);
            assert(walk_to(img, bv, b, st[st.len() - 1]));
            assert forall|q: Vector2D| #[trigger] st.contains(q) && q != p implies stack@.contains(q) by {
                let k = choose|k: int| 0 <= k < st.len() && st[k] == q;
                assert(stack@[k] == q);
            }
        }
        let ghost pchain = choose|cs: Seq<Vector2D>| #[trigger] corridor_walk(img, bv, b, cs) && cs.last() == p;
        if visited.contains(p) {
            continue;
        }
        visited.insert(p);
        proof {
            visited.lemma_size_bound();
        }
        if !pixel(img, p.x as i64, p.y as i64).is_meta() {
            continue;
        }
        if b.contains(p.x, p.y) {
            continue;
        }
        let hs = blocks.holders(p.x, p.y);
        if hs.len() > 0 {
            let ghost best0 = best;
            let mut k: usize = 0;
            while k < hs.len()
                invariant
                    blocks.wf(),
                    bv == blocks.view(),
                    k <= hs@.len(),
                    forall|m: int| 0 <= m < hs@.len() ==> (#[trigger] hs@[m]).holds(p.x as int, p.y as int) && hs@[m].block_id
                        < bv.len() && bv[hs@[m].block_id as int] == hs@[m],
                    best matches Some(t) ==> candidate(img, bv, b, t as int),
                    best0 matches Some(t0) ==> at_most(best, t0 as int),
                    forall|m: int| 0 <= m < k && (#[trigger] hs@[m]).block_id > b.block_id ==> at_most(best, hs@[m].block_id as int),
                    corridor_walk(img, bv, b, pchain) && pchain.last() == p,
                    meta_at(img, p.x as int, p.y as int),
                    !b.holds(p.x as int, p.y as int),
                decreases hs.len() - k,
            {
                let id = hs[k].block_id;
                if id > b.block_id {
                    proof {
                        assert(bv[id as int].holds(p.x as int, p.y as int));
                        assert(candidate(img, bv, b, id as int));
                    }
                    match best {
                        Some(bb) => {
                            if id < bb {
                                best = Some(id);
                            }
                        },
                        None => {
                            best = Some(id);
                        },
                    }
                }
                k = k + 1;
            }
            proof {
                assert forall|p2: Vector2D, t: int|
                    #[trigger] visited.has(p2) && meta_at(img, p2.x as int, p2.y as int) && !b.holds(p2.x as int, p2.y as int) && b.block_id
                        < t < bv.len() && (#[trigger] bv[t]).holds(p2.x as int, p2.y as int) implies at_most(best, t as int) by {
                    if p2 == p {
                        assert(hs@.contains(bv[t]));
                        let m = choose|m: int| 0 <= m < hs@.len() && hs@[m] == bv[t];
                        assert(bv[t].block_id == t);
                    }
                }
                let h0 = hs@[0];
                assert(bv[h0.block_id as int].holds(p.x as int, p.y as int));
            }
            continue;
        }
        proof {
            assert forall|k: int| 0 <= k < bv.len() implies !(#[trigger] bv[k]).holds(p.x as int, p.y as int) by {
                if bv[k].holds(p.x as int, p.y as int) {
                    assert(hs@.contains(bv[k]));
                }
            }
        }
        assert(p.x < img.spec_width() && p.y < img.spec_height());
        let ghost s0 = stack@;
        push_point(&mut stack, p.x + 1, p.y);
        if p.x > 0 {
            push_point(&mut stack, p.x - 1, p.y);
        }
        push_point(&mut stack, p.x, p.y + 1);
        if p.y > 0 {
            push_point(&mut stack, p.x, p.y - 1);
        }
        proof {
            assert forall|i: int| 0 <= i < stack@.len() implies walk_to(img, bv, b, #[trigger] stack@[i]) by {
                if i < s0.len() {
                    assert(stack@[i] == s0[i]);
                } else {
                    let q = stack@[i];
                    assert(adjacent(p, q));
                    let cs = pchain.push(q);
                    assert forall|k: int| 0 <= k < cs.len() - 1 implies {
                        &&& meta_at(img, (#[trigger] cs[k]).x as int, cs[k].y as int)
                        &&& forall|m: int| 0 <= m < bv.len() ==> !(#[trigger] bv[m]).holds(cs[k].x as int, cs[k].y as int)
                        &&& adjacent(cs[k], cs[k + 1])
                    } by {
                        if k < pchain.len() - 1 {
                            assert(cs[k] == pchain[k] && cs[k + 1] == pchain[k + 1]);
                        } else {
                            assert(cs[k] == p && cs[k + 1] == q);
                        }
                    }
                    assert(cs[0] == pchain[0]);
                    assert(corridor_walk(img, bv, b, cs));
                    assert(cs.last() == q);
                }
            }
            assert forall|q: Vector2D| adjacent(p, q) implies #[trigger] stack@.contains(q) by {
                if q.x == p.x + 1 {
                    assert(stack@[s0.len() as int] == q);
                } else if q.x + 1 == p.x {
                    assert(stack@[s0.len() as int + 1] == q);
                } else if q.y == p.y + 1 {
                    let k = s0.len() + 1 + if p.x > 0 { 1int } else { 0 };
                    assert(stack@[k] == q);
                } else {
                    let k = s0.len() + 2 + if p.x > 0 { 1int } else { 0 };
                    assert(stack@[k] == q);
                }
            }
            assert forall|q: Vector2D| #[trigger] s0.contains(q) implies stack@.contains(q) by {
                lemma_still_contains(s0, stack@, q);
            }
        }
    }
    proof {
        assert forall|t: int| #[trigger] candidate(img, bv, b, t) implies at_most(best, t as int) by {
            let cs = choose|cs: Seq<Vector2D>|
                #[trigger] corridor_walk(img, bv, b, cs) && meta_at(img, cs.last().x as int, cs.last().y as int) && !b.holds(
                    cs.last().x as int,
                    cs.last().y as int,
                ) && bv[t].holds(cs.last().x as int, cs.last().y as int);
            lemma_walk_visited(img, bv, b, &visited, cs, cs.len() - 1);
        }
    }
    best
}

proof fn lemma_walk_visited<I: StorableImage>(img: &I, bv: Seq<Block>, b: Block, visited: &PointSet, cs: Seq<Vector2D>, k: int)
    requires
        corridor_walk(img, bv, b, cs),
        0 <= k < cs.len(),
        forall|p: Vector2D| ring_point(b, p) ==> #[trigger] visited.has(p),
        forall|p: Vector2D, q: Vector2D|
            #[trigger] visited.has(p) && meta_at(img, p.x as int, p.y as int) && (forall|m: int| 0 <= m < bv.len() ==> !(#[trigger] bv[m]).holds(p.x as int, p.y as int))
                && adjacent(p, q) ==> #[trigger] visited.has(q),
    ensures
        visited.has(cs[k]),
    decreases k,
{
    if k > 0 {
        lemma_walk_visited(img, bv, b, visited, cs, k - 1);
        assert(adjacent(cs[k - 1], cs[k]));
        assert(meta_at(img, cs[k - 1].x as int, cs[k - 1].y as int));
    }
}

/// For every block, in order of their numbers, finds the lowest-numbered
/// block above it that a marker corridor joins it to, and records that the
/// higher one merges into it: the entry at index `t` is the block that
/// block `t` merges into.
pub fn find_connections<I: StorableImage>(img: &I, blocks: &BlocksMap) -> (conn: Vec<Option<usize>>)
    requires
        readable(img),
        blocks.wf(),
        placed(img, blocks.view()),
    ensures
        conn@.len() == blocks.view().len(),
        canonical(conn@),
        connections(img, blocks.view(), conn@, blocks.view().len() as int),
        forall|t: int| 0 <= t < conn@.len() ==> (#[trigger] conn@[t] matches Some(f) ==> corridor(img, blocks.view(), f as int, t)),
{
    let n = blocks.len();
    let mut conn: Vec<Option<usize>> = Vec::new();
    let mut i: usize = 0;
    while i < n
        invariant
            n == blocks.view().len(),
            i <= n,
            conn@.len() == i,
            forall|t: int| 0 <= t < i ==> conn@[t] is None,
        decreases n - i,
    {
        conn.push(None);
        i = i + 1;
    }
    let all = blocks.get_blocks();
    let ghost bv = blocks.view();
    let mut i: usize = 0;
    while i < n
        invariant
            readable(img),
            blocks.wf(),
            placed(img, blocks.view()),
            n == blocks.view().len(),
            bv == blocks.view(),
            all@ == blocks.view(),
            i <= n,
            conn@.len() == n,
            connections(img, bv, conn@, i as int),
        decreases n - i,
    {
        let b = all[i];
        assert(b == blocks.view()[i as int]);
        let ghost c0 = conn@;
        let r = flood_from_block(img, blocks, b);
        match r {
            Some(t) => {
                conn.set(t, Some(i));
            },
            None => {},
        }
        proof {
            assert forall|t: int| 0 <= t < conn@.len() implies match #[trigger] conn@[t] {
                Some(f) => f < i + 1 && first_up(img, bv, f as int, t) && forall|f2: int|
                    f < f2 < i + 1 ==> !#[trigger] first_up(img, bv, f2, t),
                None => forall|f2: int| 0 <= f2 < i + 1 ==> !#[trigger] first_up(img, bv, f2, t),
            } by {
                if first_up(img, bv, i as int, t) {
                    match r {
                        Some(t1) => {
                            assert(first_up(img, bv, i as int, t1 as int));
                            assert(candidate(img, bv, bv[i as int], t1 as int));
                            assert(t1 <= t && t <= t1);
                        },
                        None => {
                            assert(candidate(img, bv, bv[i as int], t));
                        },
                    }
                }
                if r == Some(t as usize) {
                    assert(conn@[t] == Some(i));
                } else {
                    assert(conn@[t] == c0[t]);
                }
            }
        }
        img.optimize();
        i = i + 1;
    }
    proof {
        assert forall|t: int| 0 <= t < conn@.len() implies (#[trigger] conn@[t] matches Some(f) ==> f < t) by {
            match conn@[t] {
                Some(f) => { assert(first_up(img, bv, f as int, t)); },
                None => {},
            }
        }
        assert forall|t: int| 0 <= t < conn@.len() implies (#[trigger] conn@[t] matches Some(f) ==> corridor(img, bv, f as int, t)) by {
            match conn@[t] {
                Some(f) => {
                    assert(first_up(img, bv, f as int, t));
                    let cs = choose|cs: Seq<Vector2D>|
                        #[trigger] corridor_walk(img, bv, bv[f as int], cs) && meta_at(img, cs.last().x as int, cs.last().y as int) && !bv[f as int].holds(
                            cs.last().x as int,
                            cs.last().y as int,
                        ) && bv[t].holds(cs.last().x as int, cs.last().y as int);
                },
                None => {},
            }
        }
    }
    conn
}

/// `b` is within the flood's jump of `a`: up to four pixels back, three on.
pub open spec fn jump(a: Vector2D, b: Vector2D) -> bool {
    -4 <= b.x - a.x < 4 && -4 <= b.y - a.y < 4
}

/// A chain of the reference flood: every point but the last has the marker
/// colour and lies in no block, and each next point is a jump from it.
pub open spec fn marker_chain<I: StorableImage>(img: &I, blocks: Seq<Block>, color: RGB, cs: Seq<Vector2D>) -> bool {
    &&& cs.len() >= 1
    &&& forall|i: int|
        0 <= i < cs.len() - 1 ==> {
            &&& px(img, (#[trigger] cs[i]).x as int, cs[i].y as int) == color
            &&& forall|k: int| 0 <= k < blocks.len() ==> !(#[trigger] blocks[k]).holds(cs[i].x as int, cs[i].y as int)
            &&& jump(cs[i], cs[i + 1])
        }
}

/// Where the reference flood of field `f` starts: the centre of its stamp.
pub open spec fn marker_start(f: Field) -> Vector2D {
    Vector2D { x: (f.type_start.x + 1) as u32, y: (f.type_start.y + 1) as u32 }
}

/// Field `f` now refers to the record anchored at `target`, whose primary
/// field is `g`: it takes `g`'s type and bounds and keeps its own stamp.
pub open spec fn refers(old_f: Field, f: Field, target: Vector2D, g: Field) -> bool {
    &&& f.field_type == g.field_type
    &&& f.data_start == g.data_start
    &&& f.data_end == g.data_end
    &&& f.type_start == old_f.type_start
    &&& f.ref_to_record == Some(target)
}

/// Record `j`'s primary field as it stood while record `i` was resolved:
/// records are resolved in order.
pub open spec fn primary_then(before: Seq<Record>, after: Seq<Record>, i: int, j: int) -> Field {
    if j < i {
        after[j].fields@[0]
    } else {
        before[j].fields@[0]
    }
}

/// The records keep everything but the primary field.
pub open spec fn same_but_primary(a: Record, b: Record) -> bool {
    &&& a.position == b.position
    &&& a.rb_position == b.rb_position
    &&& a.column@ == b.column@
    &&& a.fields@.len() == b.fields@.len()
    &&& forall|k: int| 1 <= k < a.fields@.len() ==> #[trigger] a.fields@[k] == b.fields@[k]
}

pub open spec fn in_grid<I: StorableImage>(img: &I, p: Vector2D) -> bool {
    p.x < img.spec_width() && p.y < img.spec_height()
}

/// Block `j` is a target of the reference flood from `start` for the
/// record anchored at `from`: a marker chain inside the grid leads from
/// `start` to a pixel of block `j`, and `j` belongs to another record.
pub open spec fn ref_candidate<I: StorableImage>(img: &I, blocks: Seq<Block>, recs: Seq<Record>, start: Vector2D, from: Vector2D, j: int) -> bool {
    &&& 0 <= j < blocks.len()
    &&& recs[j].position != from
    &&& exists|cs: Seq<Vector2D>|
        #[trigger] marker_chain(img, blocks, px(img, start.x as int, start.y as int), cs) && cs[0] == start
            && (forall|i: int| 0 <= i < cs.len() ==> in_grid(img, #[trigger] cs[i])) && blocks[j].holds(
            cs.last().x as int,
            cs.last().y as int,
        )
}

/// Block `j` is the lowest-numbered target of that flood.
pub open spec fn ref_first<I: StorableImage>(img: &I, blocks: Seq<Block>, recs: Seq<Record>, start: Vector2D, from: Vector2D, j: int) -> bool {
    &&& ref_candidate(img, blocks, recs, start, from, j)
    &&& forall|j2: int| #[trigger] ref_candidate(img, blocks, recs, start, from, j2) ==> j <= j2
}

/// The primary field of record `i` after resolution: a reference whose
/// flood has targets refers to the lowest-numbered one, taking that
/// record's primary field as it stood then; every other field stays as it was.
pub open spec fn resolved_primary<I: StorableImage>(img: &I, blocks: Seq<Block>, before: Seq<Record>, after: Seq<Record>, i: int) -> bool {
    let f0 = before[i].fields@[0];
    let f1 = after[i].fields@[0];
    let start = marker_start(f0);
    let from = before[i].position;
    if f0.field_type.0 == REFERENCE_TYPE && f0.type_start.x < u32::MAX && f0.type_start.y < u32::MAX {
        &&& forall|j: int| #[trigger] ref_first(img, blocks, before, start, from, j) ==> refers(
            f0,
            f1,
            before[j].position,
            primary_then(before, after, i, j),
        )
        &&& (forall|j: int| !#[trigger] ref_candidate(img, blocks, before, start, from, j)) ==> f1 == f0
    } else {
        f1 == f0
    }
}

proof fn lemma_chain_visited<I: StorableImage>(img: &I, bv: Seq<Block>, color: RGB, visited: &PointSet, cs: Seq<Vector2D>, k: int)
    requires
        marker_chain(img, bv, color, cs),
        forall|i: int| 0 <= i < cs.len() ==> in_grid(img, #[trigger] cs[i]),
        visited.has(cs[0]),
        0 <= k < cs.len(),
        forall|p: Vector2D, q: Vector2D|
            #[trigger] visited.has(p) && in_grid(img, p) && px(img, p.x as int, p.y as int) == color && (forall|m: int|
                0 <= m < bv.len() ==> !(#[trigger] bv[m]).holds(p.x as int, p.y as int)) && in_grid(img, q) && jump(p, q)
                ==> #[trigger] visited.has(q),
    ensures
        visited.has(cs[k]),
    decreases k,
{
    if k > 0 {
        lemma_chain_visited(img, bv, color, visited, cs, k - 1);
        assert(jump(cs[k - 1], cs[k]));
        assert(in_grid(img, cs[k - 1]) && in_grid(img, cs[k]));
        assert(px(img, cs[k - 1].x as int, cs[k - 1].y as int) == color);
    }
}

/// Targets depend on the records' anchors alone.
pub(crate) proof fn lemma_candidate_positions<I: StorableImage>(img: &I, bv: Seq<Block>, a: Seq<Record>, b: Seq<Record>, start: Vector2D, from: Vector2D)
    requires
        a.len() == b.len(),
        a.len() == bv.len(),
        forall|k: int| 0 <= k < a.len() ==> (#[trigger] b[k]).position == a[k].position,
    ensures
        forall|j: int| #[trigger] ref_candidate(img, bv, a, start, from, j) == ref_candidate(img, bv, b, start, from, j),
        forall|j: int| #[trigger] ref_first(img, bv, a, start, from, j) == ref_first(img, bv, b, start, from, j),
{
    assert forall|j: int| #[trigger] ref_candidate(img, bv, a, start, from, j) == ref_candidate(img, bv, b, start, from, j) by {
        if 0 <= j < bv.len() {
            assert(b[j].position == a[j].position);
        }
    }
    assert forall|j: int| #[trigger] ref_first(img, bv, a, start, from, j) == ref_first(img, bv, b, start, from, j) by {
        if ref_first(img, bv, a, start, from, j) {
            assert forall|j2: int| #[trigger] ref_candidate(img, bv, b, start, from, j2) implies j <= j2 by {
                assert(ref_candidate(img, bv, a, start, from, j2));
            }
        }
        if ref_first(img, bv, b, start, from, j) {
            assert forall|j2: int| #[trigger] ref_candidate(img, bv, a, start, from, j2) implies j <= j2 by {
                assert(ref_candidate(img, bv, b, start, from, j2));
            }
        }
    }
}

/// Floods from the marker inside the stamp of reference field `f` through
/// pixels of the marker's colour that lie in no block, with a jump of up to
/// four pixels in each direction, and returns the lowest-numbered block of
/// another record than `from` that it meets.
fn flood_reference<I: StorableImage>(img: &I, blocks: &BlocksMap, records: &Vec<Record>, f: Field, from: Vector2D) -> (r: Option<usize>)
    requires
        readable(img),
        blocks.wf(),
        placed(img, blocks.view()),
        records@.len() == blocks.view().len(),
    ensures
        f.type_start.x < u32::MAX && f.type_start.y < u32::MAX ==> match r {
            Some(j) => ref_first(img, blocks.view(), records@, marker_start(f), from, j as int),
            None => forall|j: int| !#[trigger] ref_candidate(img, blocks.view(), records@, marker_start(f), from, j),
        },
        r matches Some(j) ==> j < records@.len() && records@[j as int].position != from && f.type_start.x < u32::MAX
            && f.type_start.y < u32::MAX,
{
    if f.type_start.x == u32::MAX || f.type_start.y == u32::MAX {
        return None;
    }
    let start = Vector2D { x: f.type_start.x + 1, y: f.type_start.y + 1 };
    let color = pixel(img, start.x as i64, start.y as i64);
    let w = img.width();
    let h = img.height();
    let ghost bv = blocks.view();
    if start.x >= w || start.y >= h {
        proof {
            assert forall|j: int| !#[trigger] ref_candidate(img, bv, records@, start, from, j) by {
                if ref_candidate(img, bv, records@, start, from, j) {
                    let cs = choose|cs: Seq<Vector2D>|
                        #[trigger] marker_chain(img, bv, px(img, start.x as int, start.y as int), cs) && cs[0] == start
                            && (forall|i: int| 0 <= i < cs.len() ==> in_grid(img, #[trigger] cs[i])) && bv[j].holds(
                            cs.last().x as int,
                            cs.last().y as int,
                        );
                    assert(in_grid(img, cs[0]));
                }
            }
        }
        return None;
    }
    let mut stack: Vec<Vector2D> = Vec::new();
    stack.push(start);
    let mut visited = PointSet::new();
    let mut best: Option<usize> = None;
    proof {
        visited.lemma_size_bound();
        let cs = seq![start];
        assert(marker_chain(img, bv, color, cs));
        assert(stack@[0] == start);
    }
    while stack.len() > 0
        invariant
            readable(img),
            w == img.spec_width(),
            h == img.spec_height(),
            blocks.wf(),
            bv == blocks.view(),
            placed(img, blocks.view()),
            records@.len() == blocks.view().len(),
            visited.wf(),
            visited.size() <= key_space(),
            f.type_start.x < u32::MAX,
            f.type_start.y < u32::MAX,
            start == marker_start(f),
            in_grid(img, start),
            color == px(img, start.x as int, start.y as int),
            forall|i: int| 0 <= i < stack@.len() ==> exists|cs: Seq<Vector2D>|
                #[trigger] marker_chain(img, bv, color, cs) && cs[0] == start && (forall|m: int| 0 <= m < cs.len() ==> in_grid(img, #[trigger] cs[m]))
                    && cs.last() == #[trigger] stack@[i],
            best matches Some(j) ==> ref_candidate(img, bv, records@, start, from, j as int),
            visited.has(start) || stack@.contains(start),
            forall|p: Vector2D, q: Vector2D|
                #[trigger] visited.has(p) && in_grid(img, p) && px(img, p.x as int, p.y as int) == color && (forall|m: int|
                    0 <= m < bv.len() ==> !(#[trigger] bv[m]).holds(p.x as int, p.y as int)) && in_grid(img, q) && jump(p, q)
                    ==> #[trigger] visited.has(q) || stack@.contains(q),
            forall|p: Vector2D, j: int|
                #[trigger] visited.has(p) && in_grid(img, p) && 0 <= j < bv.len() && (#[trigger] bv[j]).holds(p.x as int, p.y as int)
                    && records@[j].position != from ==> at_most(best, j),
        decreases key_space() - visited.size(), stack.len(),
    {
        let ghost st = stack@;
        let p = stack.pop().unwrap();
        proof {
            assert(st[st.len() - 1] == p);
            assert(forall|i: int| 0 <= i < stack@.len() ==> stack@[i] == st[i]);
            assert forall|q: Vector2D| #[trigger] st.contains(q) && q != p implies stack@.contains(q) by {
                let k = choose|k: int| 0 <= k < st.len() && st[k] == q;
                assert(stack@[k] == q);
            }
        }
        let ghost pchain = choose|cs: Seq<Vector2D>|
            #[trigger] marker_chain(img, bv, color, cs) && cs[0] == start && (forall|m: int| 0 <= m < cs.len() ==> in_grid(img, #[trigger] cs[m]))
                && cs.last() == p;
        if visited.contains(p) {
            continue;
        }
        visited.insert(p);
        proof {
            visited.lemma_size_bound();
            assert(in_grid(img, pchain[pchain.len() - 1]));
        }
        let hs = blocks.holders(p.x, p.y);
        if hs.len() > 0 {
            let ghost best0 = best;
            let mut k: usize = 0;
            while k < hs.len()
                invariant
                    blocks.wf(),
                    bv == blocks.view(),
                    records@.len() == bv.len(),
                    k <= hs@.len(),
                    forall|m: int| 0 <= m < hs@.len() ==> (#[trigger] hs@[m]).holds(p.x as int, p.y as int) && hs@[m].block_id
                        < bv.len() && bv[hs@[m].block_id as int] == hs@[m],
                    best matches Some(j) ==> ref_candidate(img, bv, records@, start, from, j as int),
                    best0 matches Some(t0) ==> at_most(best, t0 as int),
                    forall|m: int| 0 <= m < k && records@[(#[trigger] hs@[m]).block_id as int].position != from ==> at_most(best, hs@[m].block_id as int),
                    marker_chain(img, bv, color, pchain) && pchain[0] == start && (forall|m: int| 0 <= m < pchain.len() ==> in_grid(img, #[trigger] pchain[m]))
                        && pchain.last() == p,
                    color == px(img, start.x as int, start.y as int),
                decreases hs.len() - k,
            {
                let id = hs[k].block_id;
                if records[id].position != from {
                    proof {
                        assert(bv[id as int].holds(p.x as int, p.y as int));
                        assert(ref_candidate(img, bv, records@, start, from, id as int));
                    }
                    match best {
                        Some(bb) => {
                            if id < bb {
                                best = Some(id);
                            }
                        },
                        None => {
                            best = Some(id);
                        },
                    }
                }
                k = k + 1;
            }
            proof {
                assert forall|p2: Vector2D, j: int|
                    #[trigger] visited.has(p2) && in_grid(img, p2) && 0 <= j < bv.len() && (#[trigger] bv[j]).holds(p2.x as int, p2.y as int)
                        && records@[j].position != from implies at_most(best, j) by {
                    if p2 == p {
                        assert(hs@.contains(bv[j]));
                        let m = choose|m: int| 0 <= m < hs@.len() && hs@[m] == bv[j];
                        assert(bv[j].block_id == j);
                    }
                }
                let h0 = hs@[0];
                assert(bv[h0.block_id as int].holds(p.x as int, p.y as int));
            }
            continue;
        }
        proof {
            assert forall|k: int| 0 <= k < bv.len() implies !(#[trigger] bv[k]).holds(p.x as int, p.y as int) by {
                if bv[k].holds(p.x as int, p.y as int) {
                    assert(hs@.contains(bv[k]));
                }
            }
        }
        if pixel(img, p.x as i64, p.y as i64) == color {
            let ghost sp = stack@;
            let mut dx: i64 = -4;
            while dx < 4
                invariant
                    -4 <= dx <= 4,
                    w == img.spec_width(),
                    h == img.spec_height(),
                    readable(img),
                    marker_chain(img, bv, color, pchain) && pchain[0] == start && (forall|m: int| 0 <= m < pchain.len() ==> in_grid(img, #[trigger] pchain[m]))
                        && pchain.last() == p,
                    px(img, p.x as int, p.y as int) == color,
                    forall|k: int| 0 <= k < bv.len() ==> !(#[trigger] bv[k]).holds(p.x as int, p.y as int),
                    forall|i: int| 0 <= i < stack@.len() ==> exists|cs: Seq<Vector2D>|
                        #[trigger] marker_chain(img, bv, color, cs) && cs[0] == start && (forall|m: int| 0 <= m < cs.len() ==> in_grid(img, #[trigger] cs[m]))
                            && cs.last() == #[trigger] stack@[i],
                    forall|q: Vector2D| #[trigger] sp.contains(q) ==> stack@.contains(q),
                    forall|q: Vector2D| in_grid(img, q) && jump(p, q) && q.x - p.x < dx ==> #[trigger] stack@.contains(q),
                decreases 4 - dx,
            {
                let mut dy: i64 = -4;
                while dy < 4
                    invariant
                        -4 <= dx < 4,
                        -4 <= dy <= 4,
                        w == img.spec_width(),
                        h == img.spec_height(),
                        readable(img),
                        marker_chain(img, bv, color, pchain) && pchain[0] == start && (forall|m: int| 0 <= m < pchain.len() ==> in_grid(img, #[trigger] pchain[m]))
                            && pchain.last() == p,
                        px(img, p.x as int, p.y as int) == color,
                        forall|k: int| 0 <= k < bv.len() ==> !(#[trigger] bv[k]).holds(p.x as int, p.y as int),
                        forall|i: int| 0 <= i < stack@.len() ==> exists|cs: Seq<Vector2D>|
                            #[trigger] marker_chain(img, bv, color, cs) && cs[0] == start && (forall|m: int| 0 <= m < cs.len() ==> in_grid(img, #[trigger] cs[m]))
                                && cs.last() == #[trigger] stack@[i],
                        forall|q: Vector2D| #[trigger] sp.contains(q) ==> stack@.contains(q),
                        forall|q: Vector2D| in_grid(img, q) && jump(p, q) && (q.x - p.x < dx || (q.x - p.x == dx && q.y - p.y < dy)) ==> #[trigger] stack@.contains(q),
                    decreases 4 - dy,
                {
                    let nx = p.x as i64 + dx;
                    let ny = p.y as i64 + dy;
                    let ghost s_it = stack@;
                    if 0 <= nx && nx < w as i64 && 0 <= ny && ny < h as i64 {
                        push_point(&mut stack, nx as u32, ny as u32);
                        proof {
                            let q = Vector2D { x: nx as u32, y: ny as u32 };
                            let cs = pchain.push(q);
                            assert forall|i: int| 0 <= i < cs.len() - 1 implies {
                                &&& px(img, (#[trigger] cs[i]).x as int, cs[i].y as int) == color
                                &&& forall|k: int| 0 <= k < bv.len() ==> !(#[trigger] bv[k]).holds(cs[i].x as int, cs[i].y as int)
                                &&& jump(cs[i], cs[i + 1])
                            } by {
                                if i < pchain.len() - 1 {
                                    assert(cs[i] == pchain[i] && cs[i + 1] == pchain[i + 1]);
                                } else {
                                    assert(cs[i] == p);
                                    assert(cs[i + 1] == q);
                                }
                            }
                            assert(marker_chain(img, bv, color, cs));
                            assert forall|m: int| 0 <= m < cs.len() implies in_grid(img, #[trigger] cs[m]) by {
                                if m < pchain.len() {
                                    assert(cs[m] == pchain[m]);
                                }
                            }
                            assert forall|i: int| 0 <= i < stack@.len() implies exists|cs2: Seq<Vector2D>|
                                #[trigger] marker_chain(img, bv, color, cs2) && cs2[0] == start && (forall|m: int| 0 <= m < cs2.len() ==> in_grid(img, #[trigger] cs2[m]))
                                    && cs2.last() == #[trigger] stack@[i] by {
                                if i < s_it.len() {
                                    assert(stack@[i] == s_it[i]);
                                } else {
                                    assert(stack@[i] == q);
                                    assert(cs[0] == start && cs.last() == q);
                                }
                            }
                            assert(stack@[s_it.len() as int] == q);
                            assert forall|q2: Vector2D| #[trigger] s_it.contains(q2) implies stack@.contains(q2) by {
                                lemma_still_contains(s_it, stack@, q2);
                            }
                        }
                    }
                    proof {
                        assert forall|q: Vector2D| in_grid(img, q) && jump(p, q) && (q.x - p.x < dx || (q.x - p.x == dx && q.y - p.y < dy + 1)) implies #[trigger] stack@.contains(q) by {
                            if q.x - p.x == dx && q.y - p.y == dy {
                                assert(q == Vector2D { x: nx as u32, y: ny as u32 });
                                assert(stack@[s_it.len() as int] == q);
                            } else {
                                assert(s_it.contains(q));
                                lemma_still_contains(s_it, stack@, q);
                            }
                        }
                        assert forall|q: Vector2D| #[trigger] sp.contains(q) implies stack@.contains(q) by {
                            assert(s_it.contains(q));
                            lemma_still_contains(s_it, stack@, q);
                        }
                    }
                    dy = dy + 1;
                }
                dx = dx + 1;
            }
        }
    }
    proof {
        assert forall|j: int| #[trigger] ref_candidate(img, bv, records@, start, from, j) implies at_most(best, j) by {
            let cs = choose|cs: Seq<Vector2D>|
                #[trigger] marker_chain(img, bv, px(img, start.x as int, start.y as int), cs) && cs[0] == start
                    && (forall|i: int| 0 <= i < cs.len() ==> in_grid(img, #[trigger] cs[i])) && bv[j].holds(
                    cs.last().x as int,
                    cs.last().y as int,
                );
            lemma_chain_visited(img, bv, color, &visited, cs, cs.len() - 1);
            assert(in_grid(img, cs[cs.len() - 1]));
        }
    }
    best
}

/// Points every reference field at the lowest-numbered record block its
/// painted marker leads to: the field takes that record's primary type and
/// bounds and records its anchor. A reference that leads nowhere stays as
/// it is.
pub fn resolve_references<I: StorableImage>(img: &I, blocks: &BlocksMap, records: &mut Vec<Record>)
    requires
        readable(img),
        blocks.wf(),
        placed(img, blocks.view()),
        old(records)@.len() == blocks.view().len(),
        forall|i: int| 0 <= i < old(records)@.len() ==> (#[trigger] old(records)@[i]).fields@.len() >= 1,
    ensures
        final(records)@.len() == old(records)@.len(),
        forall|i: int| 0 <= i < old(records)@.len() ==> #[trigger] same_but_primary(old(records)@[i], final(records)@[i]),
        forall|i: int| 0 <= i < old(records)@.len() ==> #[trigger] resolved_primary(img, blocks.view(), old(records)@, final(records)@, i),
{
    let ghost start = records@;
    let ghost bv = blocks.view();
    let n = records.len();
    let mut idx: usize = 0;
    while idx < n
        invariant
            readable(img),
            blocks.wf(),
            bv == blocks.view(),
            placed(img, blocks.view()),
            n == records@.len(),
            n == start.len(),
            n == blocks.view().len(),
            idx <= n,
            forall|i: int| 0 <= i < n ==> (#[trigger] start[i]).fields@.len() >= 1,
            forall|i: int| 0 <= i < n ==> #[trigger] same_but_primary(start[i], records@[i]),
            forall|i: int| idx <= i < n ==> #[trigger] records@[i] == start[i],
            forall|i: int| 0 <= i < idx ==> #[trigger] resolved_primary(img, bv, start, records@, i),
        decreases n - idx,
    {
        let f = records[idx].fields[0];
        let from = records[idx].position;
        proof {
            assert forall|k: int| 0 <= k < n implies (#[trigger] records@[k]).position == start[k].position by {
                assert(same_but_primary(start[k], records@[k]));
            }
            lemma_candidate_positions(img, bv, start, records@, marker_start(f), from);
            assert(records@[idx as int] == start[idx as int]);
        }
        if f.field_type.0 == REFERENCE_TYPE {
            match flood_reference(img, blocks, records, f, from) {
                Some(j) => {
                    assert(same_but_primary(start[j as int], records@[j as int]));
                    let g = records[j].fields[0];
                    let target = records[j].position;
                    let nf = Field {
                        field_type: g.field_type,
                        data_start: g.data_start,
                        data_end: g.data_end,
                        type_start: f.type_start,
                        ref_to_record: Some(target),
                    };
                    let ghost before = records@;
                    let mut rec = records[idx].duplicate();
                    rec.fields.set(0, nf);
                    records.set(idx, rec);
                    proof {
                        assert(ref_first(img, bv, start, marker_start(f), from, j as int));
                        assert forall|j2: int| #[trigger] ref_first(img, bv, start, marker_start(f), from, j2) implies refers(
                            f,
                            nf,
                            start[j2].position,
                            primary_then(start, records@, idx as int, j2),
                        ) by {
                            assert(j2 <= j && j <= j2);
                        }
                        assert(resolved_primary(img, bv, start, records@, idx as int));
                        assert forall|i: int| 0 <= i < idx implies #[trigger] resolved_primary(img, bv, start, records@, i) by {
                            assert(records@[i] == before[i]);
                            assert(resolved_primary(img, bv, start, before, i));
                            assert forall|j2: int| 0 <= j2 < n implies primary_then(start, records@, i, j2) == primary_then(start, before, i, j2) by {
                                if j2 < i {
                                    assert(records@[j2] == before[j2]);
                                }
                            }
                        }
                        assert(same_but_primary(start[idx as int], records@[idx as int]));
                        assert forall|i: int| 0 <= i < n implies #[trigger] same_but_primary(start[i], records@[i]) by {
                            if i != idx {
                                assert(records@[i] == before[i]);
                            }
                        }
                    }
                },
                None => {
                    assert(resolved_primary(img, bv, start, records@, idx as int));
                },
            }
        } else {
            assert(resolved_primary(img, bv, start, records@, idx as int));
        }
        img.optimize();
        idx = idx + 1;
    }
}

} // verus!
