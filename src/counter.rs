use vstd::prelude::*;

use crate::colors::data;
use crate::image::{ImageView, StorableImage};
use crate::model::{DataError, Vector2D};
use crate::points::{PointSet, key_space};
use crate::value::DataValue;

verus! {

/// `p` is a payload pixel inside the window.
pub open spec fn cell_data<I: StorableImage>(v: ImageView, img: &I, p: Vector2D) -> bool {
    v.inside(p.x as int, p.y as int) && data(v.at(img, p.x as int, p.y as int))
}

/// `p` and `q` share an edge.
pub open spec fn adjacent(p: Vector2D, q: Vector2D) -> bool {
    ||| p.x == q.x && (p.y == q.y + 1 || q.y == p.y + 1)
    ||| p.y == q.y && (p.x == q.x + 1 || q.x == p.x + 1)
}

/// A run of payload pixels, each sharing an edge with the next.
pub open spec fn is_path<I: StorableImage>(v: ImageView, img: &I, ps: Seq<Vector2D>) -> bool {
    &&& ps.len() >= 1
    &&& forall|i: int| 0 <= i < ps.len() ==> cell_data(v, img, #[trigger] ps[i])
    &&& forall|i: int| 0 <= i < ps.len() - 1 ==> adjacent(#[trigger] ps[i], ps[i + 1])
}

/// A path of payload pixels leads from `p` to `q`.
pub open spec fn connected<I: StorableImage>(v: ImageView, img: &I, p: Vector2D, q: Vector2D) -> bool {
    exists|ps: Seq<Vector2D>| #[trigger] is_path(v, img, ps) && ps[0] == p && ps.last() == q
}

/// `q` comes before `p` in a row-major scan.
pub open spec fn before(q: Vector2D, p: Vector2D) -> bool {
    q.y < p.y || (q.y == p.y && q.x < p.x)
}

/// `p` is the first pixel of its group in a row-major scan.
pub open spec fn leader<I: StorableImage>(v: ImageView, img: &I, p: Vector2D) -> bool {
    cell_data(v, img, p) && !exists|q: Vector2D| before(q, p) && #[trigger] connected(v, img, q, p)
}

/// Number of group leaders among the first `cols` pixels of row `y`.
pub open spec fn row_leaders<I: StorableImage>(v: ImageView, img: &I, y: int, cols: int) -> int
    decreases cols,
{
    if cols <= 0 {
        0
    } else {
        row_leaders(v, img, y, cols - 1) + if leader(v, img, Vector2D { x: (cols - 1) as u32, y: y as u32 }) {
            1int
        } else {
            0
        }
    }
}

/// Number of groups of 4-connected payload pixels that start in the first
/// `rows` rows of the window.
pub open spec fn groups<I: StorableImage>(v: ImageView, img: &I, rows: int) -> int
    decreases rows,
{
    if rows <= 0 {
        0
    } else {
        groups(v, img, rows - 1) + row_leaders(v, img, rows - 1, v.width as int)
    }
}

proof fn lemma_connected_refl<I: StorableImage>(v: ImageView, img: &I, p: Vector2D)
    requires
        cell_data(v, img, p),
    ensures
        connected(v, img, p, p),
{
    let ps = seq![p];
    assert(is_path(v, img, ps));
}

proof fn lemma_connected_step<I: StorableImage>(v: ImageView, img: &I, p: Vector2D, q: Vector2D, r: Vector2D)
    requires
        connected(v, img, p, q),
        adjacent(q, r),
        cell_data(v, img, r),
    ensures
        connected(v, img, p, r),
{
    let ps = choose|ps: Seq<Vector2D>| #[trigger] is_path(v, img, ps) && ps[0] == p && ps.last() == q;
    let qs = ps.push(r);
    assert forall|i: int| 0 <= i < qs.len() - 1 implies adjacent(#[trigger] qs[i], qs[i + 1]) by {
        if i < ps.len() - 1 {
            assert(qs[i] == ps[i] && qs[i + 1] == ps[i + 1]);
        }
    }
    assert(is_path(v, img, qs));
}

/// Used payload pixels are closed under adjacency within the window.
pub open spec fn closed<I: StorableImage>(v: ImageView, img: &I, used: &PointSet) -> bool {
    forall|u: Vector2D, w: Vector2D|
        #[trigger] used.has(u) && cell_data(v, img, u) && adjacent(u, w) && v.inside(w.x as int, w.y as int)
            ==> #[trigger] used.has(w)
}

proof fn lemma_closed_path<I: StorableImage>(v: ImageView, img: &I, used: &PointSet, ps: Seq<Vector2D>, k: int)
    requires
        closed(v, img, used),
        is_path(v, img, ps),
        used.has(ps[0]),
        0 <= k < ps.len(),
    ensures
        used.has(ps[k]),
    decreases k,
{
    if k > 0 {
        lemma_closed_path(v, img, used, ps, k - 1);
        assert(adjacent(ps[k - 1], ps[k]));
        assert(cell_data(v, img, ps[k - 1]));
        assert(cell_data(v, img, ps[k]));
    }
}

proof fn lemma_closed_connected<I: StorableImage>(v: ImageView, img: &I, used: &PointSet, q: Vector2D, p: Vector2D)
    requires
        closed(v, img, used),
        used.has(q),
        connected(v, img, q, p),
    ensures
        used.has(p),
{
    let ps = choose|ps: Seq<Vector2D>| #[trigger] is_path(v, img, ps) && ps[0] == q && ps.last() == p;
    lemma_closed_path(v, img, used, ps, ps.len() - 1);
}

/// Every used payload pixel is reached from a pixel at or before `s`.
pub open spec fn sourced<I: StorableImage>(v: ImageView, img: &I, used: &PointSet, s: Vector2D, strict: bool) -> bool {
    forall|u: Vector2D|
        #[trigger] used.has(u) && cell_data(v, img, u) ==> exists|q: Vector2D|
            (before(q, s) || (!strict && q == s)) && #[trigger] connected(v, img, q, u)
}

/// Marks every payload pixel 4-connected to `start` as used.
fn fill_group<I: StorableImage>(view: &ImageView, img: &I, used: &mut PointSet, start: Vector2D)
    requires
        view.fits(img),
        old(used).wf(),
        cell_data(*view, img, start),
        closed(*view, img, old(used)),
        sourced(*view, img, old(used), start, true),
    ensures
        final(used).wf(),
        closed(*view, img, final(used)),
        sourced(*view, img, final(used), start, false),
        final(used).has(start),
        forall|p: Vector2D| old(used).has(p) ==> #[trigger] final(used).has(p),
{
    let ghost v = *view;
    let ghost first = *old(used);
    let mut stack: Vec<Vector2D> = Vec::new();
    stack.push(start);
    proof {
        used.lemma_size_bound();
        assert(stack@[0] == start);
    }
    while stack.len() > 0
        invariant
            view.fits(img),
            v == *view,
            used.wf(),
            used.size() <= key_space(),
            cell_data(v, img, start),
            forall|p: Vector2D| first.has(p) ==> #[trigger] used.has(p),
            used.has(start) || stack@.contains(start),
            forall|u: Vector2D, w: Vector2D|
                #[trigger] used.has(u) && cell_data(v, img, u) && adjacent(u, w) && v.inside(w.x as int, w.y as int)
                    ==> #[trigger] used.has(w) || stack@.contains(w),
            forall|i: int|
                0 <= i < stack@.len() ==> (#[trigger] stack@[i] == start || exists|u: Vector2D|
                    #[trigger] used.has(u) && cell_data(v, img, u) && adjacent(u, stack@[i])),
            sourced(v, img, used, start, false),
        decreases key_space() - used.size(), stack.len(),
    {
        let ghost before_stack = stack@;
        let p = stack.pop().unwrap();
        proof {
            assert(before_stack == stack@.push(p));
            assert forall|w: Vector2D| #[trigger] before_stack.contains(w) && w != p implies stack@.contains(w) by {
                let i = choose|i: int| 0 <= i < before_stack.len() && before_stack[i] == w;
                assert(stack@[i] == w);
            }
            assert(before_stack[before_stack.len() - 1] == p);
        }
        if used.contains(p) {
            proof {
                assert forall|i: int| 0 <= i < stack@.len() implies (#[trigger] stack@[i] == start || exists|u: Vector2D|
                    #[trigger] used.has(u) && cell_data(v, img, u) && adjacent(u, stack@[i])) by {
                    assert(stack@[i] == before_stack[i]);
                }
            }
            continue;
        }
        let ghost mid = *used;
        let ghost p_source = p == start || exists|u: Vector2D| #[trigger] used.has(u) && cell_data(v, img, u) && adjacent(u, p);
        proof {
            assert(p_source) by {
                assert(before_stack[before_stack.len() - 1] == p);
            }
        }
        used.insert(p);
        proof {
            used.lemma_size_bound();
        }
        let is_d = view.get_pixel(img, p.x, p.y).is_data();
        if !is_d || p.x >= view.width || p.y >= view.height {
            proof {
                assert(!cell_data(v, img, p));
                assert forall|i: int| 0 <= i < stack@.len() implies (#[trigger] stack@[i] == start || exists|u: Vector2D|
                    #[trigger] used.has(u) && cell_data(v, img, u) && adjacent(u, stack@[i])) by {
                    assert(stack@[i] == before_stack[i]);
                    if stack@[i] != start {
                        let u = choose|u: Vector2D| #[trigger] mid.has(u) && cell_data(v, img, u) && adjacent(u, stack@[i]);
                        assert(used.has(u));
                    }
                }
                assert forall|u: Vector2D| #[trigger] used.has(u) && cell_data(v, img, u) implies exists|q: Vector2D|
                    (before(q, start) || q == start) && #[trigger] connected(v, img, q, u) by {
                    assert(mid.has(u));
                }
            }
            continue;
        }
        proof {
            assert(cell_data(v, img, p));
            if p != start {
                let u = choose|u: Vector2D| #[trigger] mid.has(u) && cell_data(v, img, u) && adjacent(u, p);
                let q = choose|q: Vector2D| (before(q, start) || q == start) && #[trigger] connected(v, img, q, u);
                lemma_connected_step(v, img, q, u, p);
            } else {
                lemma_connected_refl(v, img, p);
            }
        }
        let ghost after_insert = stack@;
        if p.x + 1 < view.width {
            stack.push(Vector2D { x: p.x + 1, y: p.y });
        }
        if p.x > 0 {
            stack.push(Vector2D { x: p.x - 1, y: p.y });
        }
        if p.y + 1 < view.height {
            stack.push(Vector2D { x: p.x, y: p.y + 1 });
        }
        if p.y > 0 {
            stack.push(Vector2D { x: p.x, y: p.y - 1 });
        }
        proof {
            assert forall|w: Vector2D| #[trigger] after_insert.contains(w) implies stack@.contains(w) by {
                let i = choose|i: int| 0 <= i < after_insert.len() && after_insert[i] == w;
                assert(stack@[i] == w);
            }
            assert forall|w: Vector2D| adjacent(p, w) && v.inside(w.x as int, w.y as int) implies #[trigger] stack@.contains(w) by {
                if w.x == p.x + 1 {
                    assert(stack@[after_insert.len() as int] == w);
                } else if w.x + 1 == p.x {
                    let k = after_insert.len() + if p.x + 1 < view.width { 1int } else { 0 };
                    assert(stack@[k] == w);
                } else if w.y == p.y + 1 {
                    let k = after_insert.len() + (if p.x + 1 < view.width { 1int } else { 0 }) + (if p.x > 0 { 1int } else { 0 });
                    assert(stack@[k] == w);
                } else {
                    let k = after_insert.len() + (if p.x + 1 < view.width { 1int } else { 0 }) + (if p.x > 0 { 1int } else { 0 }) + (if p.y + 1 < view.height { 1int } else { 0 });
                    assert(stack@[k] == w);
                }
            }
            assert forall|i: int| 0 <= i < stack@.len() implies (#[trigger] stack@[i] == start || exists|u: Vector2D|
                #[trigger] used.has(u) && cell_data(v, img, u) && adjacent(u, stack@[i])) by {
                if i < after_insert.len() {
                    assert(stack@[i] == before_stack[i]);
                    if stack@[i] != start {
                        let u = choose|u: Vector2D| #[trigger] mid.has(u) && cell_data(v, img, u) && adjacent(u, stack@[i]);
                        assert(used.has(u));
                    }
                } else {
                    assert(used.has(p) && adjacent(p, stack@[i]));
                }
            }
            assert forall|u: Vector2D| #[trigger] used.has(u) && cell_data(v, img, u) implies exists|q: Vector2D|
                (before(q, start) || q == start) && #[trigger] connected(v, img, q, u) by {
                if u != p {
                    assert(mid.has(u));
                }
            }
        }
    }
}

/// Counts the groups of 4-connected payload pixels in the field, up to
/// `i32::MAX`: the pixels that come first of their group in a row-major scan.
pub fn read_counter<I: StorableImage>(view: &ImageView, img: &I) -> (r: Result<DataValue, DataError>)
    requires
        view.fits(img),
    ensures
        r matches Ok(DataValue::Int { value: n }) && n as int == if groups(*view, img, view.height as int) < i32::MAX {
            groups(*view, img, view.height as int)
        } else {
            i32::MAX as int
        },
{
    let ghost v = *view;
    let mut used = PointSet::new();
    let mut found: u64 = 0;
    let mut y: u32 = 0;
    while y < view.height
        invariant
            view.fits(img),
            v == *view,
            used.wf(),
            y <= view.height,
            found == groups(v, img, y as int),
            closed(v, img, &used),
            sourced(v, img, &used, Vector2D { x: 0, y }, true),
            forall|q: Vector2D| before(q, Vector2D { x: 0, y }) && cell_data(v, img, q) ==> #[trigger] used.has(q),
        decreases view.height - y,
    {
        let mut x: u32 = 0;
        while x < view.width
            invariant
                view.fits(img),
                v == *view,
                used.wf(),
                y < view.height,
                x <= view.width,
                found == groups(v, img, y as int) + row_leaders(v, img, y as int, x as int),
                closed(v, img, &used),
                sourced(v, img, &used, Vector2D { x, y }, true),
                forall|q: Vector2D| before(q, Vector2D { x, y }) && cell_data(v, img, q) ==> #[trigger] used.has(q),
            decreases view.width - x,
        {
            let here = Vector2D { x, y };
            let ghost old_used = used;
            if view.get_pixel(img, x, y).is_data() && !used.contains(here) {
                proof {
                    assert(cell_data(v, img, here));
                    if exists|q: Vector2D| before(q, here) && #[trigger] connected(v, img, q, here) {
                        let q = choose|q: Vector2D| before(q, here) && #[trigger] connected(v, img, q, here);
                        let ps = choose|ps: Seq<Vector2D>| #[trigger] is_path(v, img, ps) && ps[0] == q && ps.last() == here;
                        assert(cell_data(v, img, ps[0]));
                        lemma_closed_connected(v, img, &used, q, here);
                    }
                    assert(leader(v, img, here));
                }
                fill_group(view, img, &mut used, here);
                proof {
                    lemma_row_leaders_bound(v, img, y as int, x as int);
                    lemma_groups_bound(v, img, y as int);
                    assert(y * v.width + x + 1 <= u64::MAX) by (nonlinear_arith)
                        requires
                            y < v.height,
                            x < v.width,
                            v.width <= u32::MAX,
                            v.height <= u32::MAX,
                    ;
                }
                found = found + 1;
            } else {
                proof {
                    if cell_data(v, img, here) {
                        assert(used.has(here));
                        let q = choose|q: Vector2D| before(q, here) && #[trigger] connected(v, img, q, here);
                        assert(!leader(v, img, here));
                    }
                }
            }
            proof {
                let next = Vector2D { x: (x + 1) as u32, y };
                assert forall|u: Vector2D| #[trigger] used.has(u) && cell_data(v, img, u) implies exists|q: Vector2D|
                    before(q, next) && #[trigger] connected(v, img, q, u) by {
                    let q = choose|q: Vector2D| (before(q, here) || q == here) && #[trigger] connected(v, img, q, u);
                }
                assert forall|q: Vector2D| before(q, next) && cell_data(v, img, q) implies #[trigger] used.has(q) by {
                    if q != here {
                        assert(old_used.has(q));
                    }
                }
            }
            x = x + 1;
        }
        proof {
            let next = Vector2D { x: 0, y: (y + 1) as u32 };
            let last = Vector2D { x: view.width, y };
            assert forall|u: Vector2D| #[trigger] used.has(u) && cell_data(v, img, u) implies exists|q: Vector2D|
                before(q, next) && #[trigger] connected(v, img, q, u) by {
                let q = choose|q: Vector2D| before(q, last) && #[trigger] connected(v, img, q, u);
            }
            assert forall|q: Vector2D| before(q, next) && cell_data(v, img, q) implies #[trigger] used.has(q) by {
                assert(before(q, last));
            }
        }
        y = y + 1;
    }
    let n: i32 = if found < i32::MAX as u64 {
        found as i32
    } else {
        i32::MAX
    };
    Ok(DataValue::Int { value: n })
}

proof fn lemma_row_leaders_bound<I: StorableImage>(v: ImageView, img: &I, y: int, cols: int)
    requires
        cols >= 0,
    ensures
        0 <= row_leaders(v, img, y, cols) <= cols,
    decreases cols,
{
    if cols > 0 {
        lemma_row_leaders_bound(v, img, y, cols - 1);
    }
}

proof fn lemma_groups_bound<I: StorableImage>(v: ImageView, img: &I, rows: int)
    requires
        rows >= 0,
    ensures
        0 <= groups(v, img, rows) <= rows * v.width,
    decreases rows,
{
    if rows > 0 {
        lemma_groups_bound(v, img, rows - 1);
        lemma_row_leaders_bound(v, img, rows - 1, v.width as int);
        assert((rows - 1) * v.width + v.width == rows * v.width) by (nonlinear_arith);
    }
}

} // verus!
