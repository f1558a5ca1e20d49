use vstd::prelude::*;

use crate::image::StorableImage;
use crate::model::{Field, Model, Record, RecordView, Vector2D};
use crate::blocks::Block;
use crate::resolve::{
    canonical, connections, corridor, find_connections, first_up, marker_start, placed, primary_then, ref_candidate,
    ref_first, resolve_references, resolved_primary, lemma_candidate_positions, REFERENCE_TYPE,
    same_but_primary,
};
use crate::scan::{complete, discovered, fresh_anchors, meta_at, readable, scan_blocks, signature};

verus! {

/// Number of fields over all records.
pub open spec fn total_fields(s: Seq<RecordView>) -> int
    decreases s.len(),
{
    if s.len() == 0 {
        0
    } else {
        total_fields(s.drop_last()) + s.last().fields.len()
    }
}

pub open spec fn views(s: Seq<Record>) -> Seq<RecordView> {
    s.map_values(|r: Record| r@)
}

/// Number of blocks from index `from` on that merge into no other block.
pub open spec fn unmerged(conn: Seq<Option<usize>>, from: int) -> int
    decreases conn.len() - from,
{
    if from < 0 || from >= conn.len() {
        0
    } else {
        unmerged(conn, from + 1) + if conn[from] is None {
            1int
        } else {
            0
        }
    }
}

/// Anchors of the blocks from index `from` on that merge into no other
/// block, in block order.
pub open spec fn unmerged_anchors(records: Seq<Record>, conn: Seq<Option<usize>>, from: int) -> Seq<Vector2D>
    decreases conn.len() - from,
{
    if from < 0 || from >= conn.len() {
        Seq::empty()
    } else {
        let rest = unmerged_anchors(records, conn, from + 1);
        if conn[from] is None {
            seq![records[from].position] + rest
        } else {
            rest
        }
    }
}

/// Record `r` grew from block record `b`: same anchor, `b`'s primary field
/// still first, further fields only appended, corner only pushed outward.
pub open spec fn keeps_own(r: RecordView, b: Record) -> bool {
    &&& r.position == b.position
    &&& b.fields@.len() >= 1
    &&& r.fields.len() >= b.fields@.len()
    &&& r.fields[0] == b.fields@[0]
    &&& r.rb_position.x >= b.rb_position.x
    &&& r.rb_position.y >= b.rb_position.y
}

/// `r` grew from the record of a block at or after `from` that merges into
/// no other.
pub open spec fn grown_from(records: Seq<Record>, conn: Seq<Option<usize>>, from: int, r: RecordView) -> bool {
    exists|j: int| from <= j < records.len() && conn[j] is None && #[trigger] keeps_own(r, records[j])
}

pub open spec fn anchors(s: Seq<RecordView>) -> Seq<Vector2D> {
    s.map_values(|r: RecordView| r.position)
}

pub proof fn lemma_total_prepend(s: Seq<RecordView>, r: RecordView)
    ensures
        total_fields(s.insert(0, r)) == total_fields(s) + r.fields.len(),
    decreases s.len(),
{
    if s.len() == 0 {
        assert(s.insert(0, r).drop_last() =~= s);
    } else {
        lemma_total_prepend(s.drop_last(), r);
        assert(s.insert(0, r).drop_last() =~= s.drop_last().insert(0, r));
    }
}

pub proof fn lemma_total_update(s: Seq<RecordView>, i: int, r: RecordView)
    requires
        0 <= i < s.len(),
    ensures
        total_fields(s.update(i, r)) == total_fields(s) - s[i].fields.len() + r.fields.len(),
    decreases s.len(),
{
    if i == s.len() - 1 {
        assert(s.update(i, r).drop_last() =~= s.drop_last());
    } else {
        lemma_total_update(s.drop_last(), i, r);
        assert(s.update(i, r).drop_last() =~= s.drop_last().update(i, r));
    }
}

/// Records with one field each hold as many fields as there are records.
pub proof fn lemma_total_single(s: Seq<RecordView>)
    requires
        forall|i: int| 0 <= i < s.len() ==> (#[trigger] s[i]).fields.len() == 1,
    ensures
        total_fields(s) == s.len(),
    decreases s.len(),
{
    if s.len() > 0 {
        assert forall|i: int| 0 <= i < s.drop_last().len() implies (#[trigger] s.drop_last()[i]).fields.len() == 1 by {
            assert(s.drop_last()[i] == s[i]);
        }
        lemma_total_single(s.drop_last());
    }
}

proof fn lemma_total_pop(s: Seq<Record>)
    requires
        s.len() > 0,
    ensures
        total_fields(views(s)) == total_fields(views(s.drop_last())) + s.last().fields@.len(),
{
    assert(views(s).drop_last() =~= views(s.drop_last()));
}

/// The fields that block `j`'s record gathers from the blocks `lo..=t`
/// merged into it, taken from the highest number down: each brings its own
/// gathered fields.
pub open spec fn kids(res: Seq<RecordView>, conn: Seq<Option<usize>>, j: int, t: int, lo: int) -> Seq<Field>
    decreases conn.len() - j, 0int, t - lo + 1,
{
    if j < 0 || lo <= j || t < lo || t >= conn.len() {
        Seq::empty()
    } else {
        (if conn[t] == Some(j as usize) {
            tree_fields(res, conn, t)
        } else {
            Seq::empty()
        }) + kids(res, conn, j, t - 1, lo)
    }
}

/// The fields of block `j`'s record after assembly: its own, then those
/// of the blocks merged into it, highest number first.
pub open spec fn tree_fields(res: Seq<RecordView>, conn: Seq<Option<usize>>, j: int) -> Seq<Field>
    decreases conn.len() - j, 1int, 0int,
{
    if j < 0 || j >= conn.len() {
        Seq::empty()
    } else {
        res[j].fields + kids(res, conn, j, conn.len() - 1, j + 1)
    }
}

pub open spec fn max_u32(a: u32, b: u32) -> u32 {
    if a >= b {
        a
    } else {
        b
    }
}

pub open spec fn join(a: Vector2D, b: Vector2D) -> Vector2D {
    Vector2D { x: max_u32(a.x, b.x), y: max_u32(a.y, b.y) }
}

/// The corner joined over the blocks `lo..=t` merged into block `j`.
pub open spec fn kids_rb(res: Seq<RecordView>, conn: Seq<Option<usize>>, j: int, t: int, lo: int) -> Vector2D
    decreases conn.len() - j, 0int, t - lo + 1,
{
    if j < 0 || lo <= j || t < lo || t >= conn.len() {
        Vector2D { x: 0, y: 0 }
    } else {
        join(
            if conn[t] == Some(j as usize) {
                tree_rb(res, conn, t)
            } else {
                Vector2D { x: 0, y: 0 }
            },
            kids_rb(res, conn, j, t - 1, lo),
        )
    }
}

/// The bottom-right corner of block `j`'s record after assembly: the
/// component-wise largest corner of it and everything merged into it.
pub open spec fn tree_rb(res: Seq<RecordView>, conn: Seq<Option<usize>>, j: int) -> Vector2D
    decreases conn.len() - j, 1int, 0int,
{
    if j < 0 || j >= conn.len() {
        Vector2D { x: 0, y: 0 }
    } else {
        join(res[j].rb_position, kids_rb(res, conn, j, conn.len() - 1, j + 1))
    }
}

/// Block `j`'s record after assembly.
pub open spec fn tree_view(res: Seq<RecordView>, conn: Seq<Option<usize>>, j: int) -> RecordView {
    RecordView {
        position: res[j].position,
        fields: tree_fields(res, conn, j),
        column: res[j].column,
        rb_position: tree_rb(res, conn, j),
    }
}

/// The records that assembly adds, for the blocks from `from` on that
/// merge into no other, in block order.
pub open spec fn roots(res: Seq<RecordView>, conn: Seq<Option<usize>>, from: int) -> Seq<RecordView>
    decreases conn.len() - from,
{
    if from < 0 || from >= conn.len() {
        Seq::empty()
    } else {
        (if conn[from] is None {
            seq![tree_view(res, conn, from)]
        } else {
            Seq::empty()
        }) + roots(res, conn, from + 1)
    }
}

/// Block `j`'s record once the blocks from `lo` on have been folded in.
pub open spec fn gathered(res: Seq<RecordView>, conn: Seq<Option<usize>>, j: int, lo: int) -> RecordView {
    RecordView {
        position: res[j].position,
        fields: res[j].fields + kids(res, conn, j, conn.len() - 1, lo),
        column: res[j].column,
        rb_position: join(res[j].rb_position, kids_rb(res, conn, j, conn.len() - 1, lo)),
    }
}

/// Gathering down to `lo` is gathering down to `lo + 1`, then block `lo`.
proof fn lemma_kids_low(res: Seq<RecordView>, conn: Seq<Option<usize>>, j: int, t: int, lo: int)
    requires
        0 <= j < lo,
        t < conn.len(),
    ensures
        kids(res, conn, j, t, lo) == kids(res, conn, j, t, lo + 1) + (if lo <= t && conn[lo] == Some(j as usize) {
            tree_fields(res, conn, lo)
        } else {
            Seq::empty()
        }),
        kids_rb(res, conn, j, t, lo) == join(kids_rb(res, conn, j, t, lo + 1), if lo <= t && conn[lo] == Some(j as usize) {
            tree_rb(res, conn, lo)
        } else {
            Vector2D { x: 0, y: 0 }
        }),
    decreases t - lo,
{
    if t > lo {
        lemma_kids_low(res, conn, j, t - 1, lo);
        let part = if conn[t] == Some(j as usize) { tree_fields(res, conn, t) } else { Seq::empty() };
        let low = if conn[lo] == Some(j as usize) { tree_fields(res, conn, lo) } else { Seq::empty() };
        assert(part + (kids(res, conn, j, t - 1, lo + 1) + low) =~= (part + kids(res, conn, j, t - 1, lo + 1)) + low);
        let rp = if conn[t] == Some(j as usize) { tree_rb(res, conn, t) } else { Vector2D { x: 0, y: 0 } };
        let rl = if conn[lo] == Some(j as usize) { tree_rb(res, conn, lo) } else { Vector2D { x: 0, y: 0 } };
        let a = kids_rb(res, conn, j, t - 1, lo + 1);
        assert(join(rp, join(a, rl)) == join(join(rp, a), rl));
    } else if t == lo {
        let rl = if conn[lo] == Some(j as usize) { tree_rb(res, conn, lo) } else { Vector2D { x: 0, y: 0 } };
        assert(kids_rb(res, conn, j, t - 1, lo) == Vector2D { x: 0, y: 0 });
        assert(kids_rb(res, conn, j, t, lo + 1) == Vector2D { x: 0, y: 0 });
        assert(join(rl, Vector2D { x: 0, y: 0 }) == join(Vector2D { x: 0, y: 0 }, rl));
        assert(kids(res, conn, j, t - 1, lo) =~= Seq::<Field>::empty());
        assert(kids(res, conn, j, t, lo + 1) =~= Seq::<Field>::empty());
        let low = if conn[lo] == Some(j as usize) { tree_fields(res, conn, lo) } else { Seq::empty() };
        assert(low + Seq::<Field>::empty() =~= Seq::<Field>::empty() + low);
    } else {
        assert(join(Vector2D { x: 0, y: 0 }, Vector2D { x: 0, y: 0 }) == Vector2D { x: 0, y: 0 });
    }
}

/// Folds the blocks' records into `model`, from the last block to the first:
/// a block that merges into no other becomes a new record at the head of the
/// model; one that merges into block `f` has its fields appended to `f`'s
/// and its bottom-right corner joined to `f`'s.
pub fn assemble(model: &mut Model, records: Vec<Record>, conn: &Vec<Option<usize>>)
    requires
        old(model).wf(),
        conn@.len() == records@.len(),
        canonical(conn@),
        forall|i: int| 0 <= i < records@.len() ==> (#[trigger] records@[i]).fields@.len() >= 1,
    ensures
        final(model).wf(),
        forall|k: int| 0 <= k < final(model)@.len() - old(model)@.len() ==> grown_from(records@, conn@, 0, #[trigger] final(model)@[k]),
        final(model)@.subrange(final(model)@.len() - old(model)@.len(), final(model)@.len() as int) == old(model)@,
        total_fields(final(model)@) == total_fields(old(model)@) + total_fields(views(records@)),
        final(model)@.len() == old(model)@.len() + unmerged(conn@, 0),
        anchors(final(model)@) == unmerged_anchors(records@, conn@, 0) + anchors(old(model)@),
        final(model)@ == roots(views(records@), conn@, 0) + old(model)@,
{
    let ghost m0 = model@;
    let ghost r0 = records@;
    let mut pending = records;
    let n = pending.len();
    let mut idx = n;
    assert(unmerged_anchors(r0, conn@, n as int) =~= Seq::<Vector2D>::empty());
    assert(anchors(model@) =~= Seq::<Vector2D>::empty() + anchors(m0));
    assert(model@ =~= roots(views(r0), conn@, n as int) + m0);
    assert forall|j: int| 0 <= j < pending@.len() implies (#[trigger] pending@[j])@ == gathered(views(r0), conn@, j, idx as int) by {
        assert(kids(views(r0), conn@, j, n - 1, n as int) =~= Seq::<Field>::empty());
        assert(r0[j].fields@ + Seq::<Field>::empty() =~= r0[j].fields@);
        assert(kids_rb(views(r0), conn@, j, n - 1, n as int) == Vector2D { x: 0, y: 0 });
        assert(join(r0[j].rb_position, Vector2D { x: 0, y: 0 }) == r0[j].rb_position);
        assert(pending@[j] == r0[j]);
    }
    while idx > 0
        invariant
            model.wf(),
            conn@.len() == n,
            canonical(conn@),
            pending@.len() == idx,
            model@ == roots(views(r0), conn@, idx as int) + m0,
            forall|j: int| 0 <= j < pending@.len() ==> (#[trigger] pending@[j])@ == gathered(views(r0), conn@, j, idx as int),
            idx <= n,
            total_fields(model@) + total_fields(views(pending@)) == total_fields(m0) + total_fields(views(r0)),
            model@.len() == m0.len() + unmerged(conn@, idx as int),
            anchors(model@) == unmerged_anchors(r0, conn@, idx as int) + anchors(m0),
            forall|j: int| 0 <= j < pending@.len() ==> (#[trigger] pending@[j]).position == r0[j].position,
            r0.len() == n,
            forall|j: int| 0 <= j < pending@.len() ==> keeps_own((#[trigger] pending@[j])@, r0[j]),
            forall|k: int| 0 <= k < model@.len() - m0.len() ==> grown_from(r0, conn@, idx as int, #[trigger] model@[k]),
            model@.len() >= m0.len(),
            model@.subrange(model@.len() - m0.len(), model@.len() as int) == m0,
        decreases idx,
    {
        let i = idx - 1;
        let ghost before = pending@;
        let record = pending.pop().unwrap();
        proof {
            lemma_total_pop(before);
            assert(before.drop_last() == pending@);
            assert(record.position == r0[i as int].position);
            assert forall|j: int| 0 <= j < pending@.len() implies (#[trigger] pending@[j]).position == r0[j].position by {
                assert(pending@[j] == before[j]);
            }
            assert(keeps_own(before[i as int]@, r0[i as int]));
            assert(record == before[i as int]);
            assert(record@ == gathered(views(r0), conn@, i as int, idx as int));
            assert(record@ == tree_view(views(r0), conn@, i as int));
            assert forall|j: int| 0 <= j < pending@.len() implies (#[trigger] pending@[j])@ == gathered(views(r0), conn@, j, idx as int) by {
                assert(pending@[j] == before[j]);
            }
        }
        match conn[i] {
            Some(f) => {
                let mut target = pending[f].duplicate();
                if record.rb_position.x > target.rb_position.x {
                    target.rb_position.x = record.rb_position.x;
                }
                if record.rb_position.y > target.rb_position.y {
                    target.rb_position.y = record.rb_position.y;
                }
                let ghost tf = target.fields@;
                let ghost tpos = target.position;
                let ghost trb = target.rb_position;
                let ghost tcol = target.column@;
                assert(tpos == pending@[f as int].position);
                let mut k: usize = 0;
                while k < record.fields.len()
                    invariant
                        target.position == tpos,
                        target.rb_position == trb,
                        target.column@ == tcol,
                        k <= record.fields@.len(),
                        target.fields@ == tf + record.fields@.subrange(0, k as int),
                    decreases record.fields.len() - k,
                {
                    target.fields.push(record.fields[k]);
                    k = k + 1;
                    assert(target.fields@ =~= tf + record.fields@.subrange(0, k as int));
                }
                assert(record.fields@.subrange(0, k as int) =~= record.fields@);
                let ghost mid = pending@;
                pending.set(f, target);
                proof {
                    lemma_total_update(views(mid), f as int, target@);
                    assert(views(pending@) =~= views(mid).update(f as int, target@));
                    assert forall|j: int| 0 <= j < pending@.len() implies (#[trigger] pending@[j]).position == r0[j].position by {
                        if j != f {
                            assert(pending@[j] == mid[j]);
                        }
                    }
                    assert forall|j: int| 0 <= j < pending@.len() implies keeps_own((#[trigger] pending@[j])@, r0[j]) by {
                        if j != f {
                            assert(pending@[j] == mid[j]);
                            assert(mid[j] == before[j]);
                        } else {
                            assert(mid[j] == before[j]);
                            assert(keeps_own(before[j]@, r0[j]));
                            assert(tf == before[j].fields@);
                            assert(target.fields@[0] == tf[0]);
                            assert(trb.x >= before[j].rb_position.x && trb.y >= before[j].rb_position.y);
                            assert(pending@[j]@ == target@);
                        }
                    }
                    assert forall|k: int| 0 <= k < model@.len() - m0.len() implies grown_from(r0, conn@, i as int, #[trigger] model@[k]) by {
                        let j = choose|j: int| idx <= j < n && conn@[j] is None && #[trigger] keeps_own(model@[k], r0[j]);
                    }
                    assert(unmerged_anchors(r0, conn@, i as int) == unmerged_anchors(r0, conn@, i + 1));
                    assert(roots(views(r0), conn@, i as int) =~= roots(views(r0), conn@, i + 1));
                    assert forall|j: int| 0 <= j < pending@.len() implies (#[trigger] pending@[j])@ == gathered(views(r0), conn@, j, i as int) by {
                        lemma_kids_low(views(r0), conn@, j, n - 1, i as int);
                        if j != f {
                            assert(pending@[j] == mid[j]);
                            assert(mid[j] == before[j]);
                            assert(kids(views(r0), conn@, j, n - 1, i as int) =~= kids(views(r0), conn@, j, n - 1, i + 1) + Seq::<Field>::empty());
                            assert(join(kids_rb(views(r0), conn@, j, n - 1, i + 1), Vector2D { x: 0, y: 0 }) == kids_rb(views(r0), conn@, j, n - 1, i + 1));
                        } else {
                            assert(mid[j] == before[j]);
                            let g0 = gathered(views(r0), conn@, j, i + 1);
                            assert(before[j]@ == g0);
                            assert(tf == g0.fields);
                            assert(target.fields@ =~= r0[j].fields@ + kids(views(r0), conn@, j, n - 1, i as int));
                            let a = r0[j].rb_position;
                            let k1 = kids_rb(views(r0), conn@, j, n - 1, i + 1);
                            let t1 = tree_rb(views(r0), conn@, i as int);
                            assert(record.rb_position == t1);
                            assert(trb == join(join(a, k1), t1));
                            assert(join(join(a, k1), t1) == join(a, join(k1, t1)));
                            assert(pending@[j]@ == target@);
                        }
                    }
                }
            },
            None => {
                let ghost mb = model@;
                proof {
                    lemma_total_prepend(model@, record@);
                }
                model.insert_record(0, &record);
                proof {
                    assert(model@ == mb.insert(0, record@));
                    assert forall|k: int| 0 <= k < model@.len() - m0.len() implies grown_from(r0, conn@, i as int, #[trigger] model@[k]) by {
                        if k == 0 {
                            assert(keeps_own(model@[0], r0[i as int]));
                        } else {
                            assert(model@[k] == mb[k - 1]);
                            let j = choose|j: int| idx <= j < n && conn@[j] is None && #[trigger] keeps_own(mb[k - 1], r0[j]);
                        }
                    }
                    assert(model@.subrange(model@.len() - m0.len(), model@.len() as int) =~= mb.subrange(mb.len() - m0.len(), mb.len() as int));
                    assert(anchors(model@) =~= seq![record.position] + anchors(mb));
                    assert(unmerged_anchors(r0, conn@, i as int) == seq![r0[i as int].position] + unmerged_anchors(r0, conn@, i + 1));
                    assert(anchors(model@) =~= unmerged_anchors(r0, conn@, i as int) + anchors(m0));
                    assert(roots(views(r0), conn@, i as int) == seq![tree_view(views(r0), conn@, i as int)] + roots(views(r0), conn@, i + 1));
                    assert(model@ =~= roots(views(r0), conn@, i as int) + m0);
                    assert forall|j: int| 0 <= j < pending@.len() implies (#[trigger] pending@[j])@ == gathered(views(r0), conn@, j, i as int) by {
                        lemma_kids_low(views(r0), conn@, j, n - 1, i as int);
                        assert(kids(views(r0), conn@, j, n - 1, i as int) =~= kids(views(r0), conn@, j, n - 1, i + 1) + Seq::<Field>::empty());
                        assert(join(kids_rb(views(r0), conn@, j, n - 1, i + 1), Vector2D { x: 0, y: 0 }) == kids_rb(views(r0), conn@, j, n - 1, i + 1));
                    }
                }
            },
        }
        idx = i;
    }
    assert(pending@.len() == 0);
    assert(views(pending@) =~= Seq::<RecordView>::empty());
}

/// What each phase of decoding states of its result: the scanned records
/// and their blocks, the connections between blocks, and the records after
/// reference resolution.
pub open spec fn pipeline<I: StorableImage>(img: &I, scanned: Seq<Record>, blocks: Seq<Block>, conn: Seq<Option<usize>>, resolved: Seq<Record>) -> bool {
    &&& scanned.len() == blocks.len()
    &&& conn.len() == blocks.len()
    &&& resolved.len() == blocks.len()
    &&& forall|i: int| 0 <= i < blocks.len() ==> #[trigger] discovered(img, scanned[i], blocks[i]) && blocks[i].block_id == i
    &&& complete(img, blocks)
    &&& fresh_anchors(blocks)
    &&& canonical(conn)
    &&& forall|t: int| 0 <= t < conn.len() ==> (#[trigger] conn[t] matches Some(f) ==> corridor(img, blocks, f as int, t))
    &&& connections(img, blocks, conn, blocks.len() as int)
    &&& forall|i: int| 0 <= i < blocks.len() ==> #[trigger] same_but_primary(scanned[i], resolved[i])
    &&& forall|i: int| 0 <= i < blocks.len() ==> #[trigger] resolved_primary(img, blocks, scanned, resolved, i)
}

/// `m1` is `m0` with the decoding of `img` put in front: the records of
/// the blocks that merge into no other, anchored in block order, holding
/// every block's field once, each led by its own block's field.
pub open spec fn decoded<I: StorableImage>(img: &I, m0: Seq<RecordView>, m1: Seq<RecordView>) -> bool {
    exists|scanned: Seq<Record>, blocks: Seq<Block>, conn: Seq<Option<usize>>, resolved: Seq<Record>|
        #[trigger] pipeline(img, scanned, blocks, conn, resolved) && {
            &&& total_fields(m1) == total_fields(m0) + blocks.len()
            &&& m1.len() == m0.len() + unmerged(conn, 0)
            &&& anchors(m1) == unmerged_anchors(resolved, conn, 0) + anchors(m0)
            &&& forall|k: int| 0 <= k < m1.len() - m0.len() ==> grown_from(resolved, conn, 0, #[trigger] m1[k])
            &&& m1.subrange(m1.len() - m0.len(), m1.len() as int) == m0
            &&& m1 == roots(views(resolved), conn, 0) + m0
        }
}

/// Decodes the whole grid into `model`: scans blocks, merges connected
/// ones, resolves references and assembles the records.
pub fn load_model_into<I: StorableImage>(model: &mut Model, img: &I)
    requires
        old(model).wf(),
        img.inv(),
    ensures
        final(model).wf(),
        decoded(img, old(model)@, final(model)@),
{
    let ghost m0 = model@;
    let _w = img.width();
    let _h = img.height();
    let (mut records, blocks) = scan_blocks(img);
    assert forall|i: int| 0 <= i < blocks.view().len() implies {
        &&& (#[trigger] blocks.view()[i]).block_id == i
        &&& 1 <= blocks.view()[i].x1 <= blocks.view()[i].x2 < img.spec_width()
        &&& 1 <= blocks.view()[i].y1 <= blocks.view()[i].y2 < img.spec_height()
    } by {
        assert(discovered(img, records@[i], blocks.view()[i]));
    }
    assert forall|i: int| 0 <= i < records@.len() implies (#[trigger] records@[i]).fields@.len() >= 1 by {
        assert(discovered(img, records@[i], blocks.view()[i]));
    }
    let ghost r1 = records@;
    let conn = find_connections(img, &blocks);
    resolve_references(img, &blocks, &mut records);
    let ghost r2 = records@;
    proof {
        assert forall|i: int| 0 <= i < views(records@).len() implies (#[trigger] views(records@)[i]).fields.len() == 1 by {
            assert(same_but_primary(r1[i], records@[i]));
            assert(discovered(img, r1[i], blocks.view()[i]));
        }
        lemma_total_single(views(records@));
        lemma_unmerged_bound(conn@, 0);
        assert forall|i: int| 0 <= i < records@.len() implies (#[trigger] records@[i]).fields@.len() >= 1 by {
            assert(views(records@)[i].fields.len() == 1);
        }
        assert(pipeline(img, r1, blocks.view(), conn@, r2));
    }
    assemble(model, records, &conn);
}

/// At most as many blocks stay unmerged as there are blocks.
pub proof fn lemma_unmerged_bound(conn: Seq<Option<usize>>, from: int)
    requires
        0 <= from <= conn.len(),
    ensures
        0 <= unmerged(conn, from) <= conn.len() - from,
    decreases conn.len() - from,
{
    if from < conn.len() {
        lemma_unmerged_bound(conn, from + 1);
    }
}

} // verus!
verus! {

/// Block `p` lies in the rows and columns up to `a`, so its anchor comes
/// no later than `a` in a row-major scan.
proof fn lemma_holder_not_after(p: Block, ax: int, ay: int)
    requires
        p.holds(ax, ay),
    ensures
        p.y1 < ay || (p.y1 == ay && p.x1 <= ax),
{
}

/// Two scanned blocks with one anchor are the same block.
proof fn lemma_same_anchor<I: StorableImage>(img: &I, r1: Record, b1: Block, r2: Record, b2: Block)
    requires
        discovered(img, r1, b1),
        discovered(img, r2, b2),
        b1.x1 == b2.x1,
        b1.y1 == b2.y1,
        b1.block_id == b2.block_id,
    ensures
        b1 == b2,
        r1@ == r2@,
{
    if b1.x2 < b2.x2 {
        assert(meta_at(img, b1.x2 + 1, b1.y1 as int));
    }
    if b2.x2 < b1.x2 {
        assert(meta_at(img, b2.x2 + 1, b2.y1 as int));
    }
    if b1.y2 < b2.y2 {
        assert(meta_at(img, b1.x1 as int, b1.y2 + 1));
    }
    if b2.y2 < b1.y2 {
        assert(meta_at(img, b2.x1 as int, b2.y2 + 1));
    }
    let f1 = r1.fields@[0];
    let f2 = r2.fields@[0];
    assert(f1.data_start == f2.data_start);
    assert(f1.data_end == f2.data_end);
    assert(f1.field_type == f2.field_type);
    assert(f1 == f2);
    assert(r1.fields@ =~= r2.fields@);
}

/// The scan's facts fix the block sequence.
proof fn lemma_blocks_unique<I: StorableImage>(img: &I, s1: Seq<Record>, b1: Seq<Block>, c1: Seq<Option<usize>>, t1: Seq<Record>, s2: Seq<Record>, b2: Seq<Block>, c2: Seq<Option<usize>>, t2: Seq<Record>)
    requires
        pipeline(img, s1, b1, c1, t1),
        pipeline(img, s2, b2, c2, t2),
    ensures
        b1 == b2,
        views(s1) == views(s2),
{
    assert forall|i: int| 0 <= i < b1.len() && 0 <= i < b2.len() implies b1[i] == b2[i] && s1[i]@ == s2[i]@ by {
        lemma_prefix_same(img, s1, b1, c1, t1, s2, b2, c2, t2, i);
    }
    lemma_extra_block(img, s1, b1, c1, t1, s2, b2, c2, t2);
    lemma_extra_block(img, s2, b2, c2, t2, s1, b1, c1, t1);
    assert(b1 =~= b2);
    assert(s1.len() == b1.len() && s2.len() == b2.len());
    assert forall|i: int| 0 <= i < s1.len() implies views(s1)[i] == views(s2)[i] by {
        lemma_prefix_same(img, s1, b1, c1, t1, s2, b2, c2, t2, i);
        assert(views(s1)[i] == s1[i]@);
        assert(views(s2)[i] == s2[i]@);
    }
    assert(views(s1) =~= views(s2));
}

proof fn lemma_extra_block<I: StorableImage>(img: &I, s1: Seq<Record>, b1: Seq<Block>, c1: Seq<Option<usize>>, t1: Seq<Record>, s2: Seq<Record>, b2: Seq<Block>, c2: Seq<Option<usize>>, t2: Seq<Record>)
    requires
        pipeline(img, s1, b1, c1, t1),
        pipeline(img, s2, b2, c2, t2),
        forall|i: int| 0 <= i < b2.len() && i < b1.len() ==> b1[i] == b2[i],
    ensures
        b1.len() <= b2.len(),
{
    if b1.len() <= b2.len() {
        return;
    }
    let m = b2.len() as int;
    let a = b1[m];
    assert(discovered(img, s1[m], b1[m]));
    assert(signature(img, a.x1 as int, a.y1 as int));
    let k = choose|k: int| 0 <= k < b2.len() && (#[trigger] b2[k]).holds(a.x1 as int, a.y1 as int);
    assert(b1[k] == b2[k]);
    assert(!b1[k].holds(b1[m].x1 as int, b1[m].y1 as int));
}

proof fn lemma_prefix_same<I: StorableImage>(img: &I, s1: Seq<Record>, b1: Seq<Block>, c1: Seq<Option<usize>>, t1: Seq<Record>, s2: Seq<Record>, b2: Seq<Block>, c2: Seq<Option<usize>>, t2: Seq<Record>, i: int)
    requires
        pipeline(img, s1, b1, c1, t1),
        pipeline(img, s2, b2, c2, t2),
        0 <= i < b1.len(),
        i < b2.len(),
    ensures
        b1[i] == b2[i],
        s1[i]@ == s2[i]@,
    decreases i,
{
    if i > 0 {
        lemma_prefix_same(img, s1, b1, c1, t1, s2, b2, c2, t2, i - 1);
    }
    assert forall|k: int| 0 <= k < i implies b1[k] == b2[k] by {
        if k < i {
            lemma_prefix_same(img, s1, b1, c1, t1, s2, b2, c2, t2, k);
        }
    }
    assert(discovered(img, s1[i], b1[i]));
    assert(discovered(img, s2[i], b2[i]));
    let a = b1[i];
    let c = b2[i];
    lemma_not_before(img, s1, b1, c1, t1, s2, b2, c2, t2, i);
    lemma_not_before(img, s2, b2, c2, t2, s1, b1, c1, t1, i);
    lemma_same_anchor(img, s1[i], a, s2[i], c);
}

/// With equal blocks before `i`, block `i` of the first scan cannot come
/// strictly before block `i` of the second.
proof fn lemma_not_before<I: StorableImage>(img: &I, s1: Seq<Record>, b1: Seq<Block>, c1: Seq<Option<usize>>, t1: Seq<Record>, s2: Seq<Record>, b2: Seq<Block>, c2: Seq<Option<usize>>, t2: Seq<Record>, i: int)
    requires
        pipeline(img, s1, b1, c1, t1),
        pipeline(img, s2, b2, c2, t2),
        0 <= i < b1.len(),
        i < b2.len(),
        forall|k: int| 0 <= k < i ==> b1[k] == b2[k],
    ensures
        !(b1[i].y1 < b2[i].y1 || (b1[i].y1 == b2[i].y1 && b1[i].x1 < b2[i].x1)),
{
    if !(b1[i].y1 < b2[i].y1 || (b1[i].y1 == b2[i].y1 && b1[i].x1 < b2[i].x1)) {
        return;
    }
    let a = b1[i];
    assert(discovered(img, s1[i], b1[i]));
    assert(signature(img, a.x1 as int, a.y1 as int));
    let k = choose|k: int| 0 <= k < b2.len() && (#[trigger] b2[k]).holds(a.x1 as int, a.y1 as int);
    lemma_holder_not_after(b2[k], a.x1 as int, a.y1 as int);
    if k < i {
        assert(b1[k] == b2[k]);
        assert(!b1[k].holds(b1[i].x1 as int, b1[i].y1 as int));
    } else if k > i {
        assert(b2[i].y1 < b2[k].y1 || (b2[i].y1 == b2[k].y1 && b2[i].x1 < b2[k].x1));
    }
}

/// Some target of a reference flood gives a lowest-numbered one.
proof fn lemma_first_exists<I: StorableImage>(img: &I, bv: Seq<Block>, recs: Seq<Record>, start: Vector2D, from: Vector2D, j: int)
    requires
        ref_candidate(img, bv, recs, start, from, j),
    ensures
        exists|j0: int| #[trigger] ref_first(img, bv, recs, start, from, j0),
    decreases j,
{
    if exists|j2: int| #[trigger] ref_candidate(img, bv, recs, start, from, j2) && j2 < j {
        let j2 = choose|j2: int| #[trigger] ref_candidate(img, bv, recs, start, from, j2) && j2 < j;
        lemma_first_exists(img, bv, recs, start, from, j2);
    } else {
        assert(ref_first(img, bv, recs, start, from, j));
    }
}

/// Resolution fixes each primary field, given the scanned records.
proof fn lemma_resolved_same<I: StorableImage>(img: &I, s1: Seq<Record>, b: Seq<Block>, c1: Seq<Option<usize>>, t1: Seq<Record>, s2: Seq<Record>, c2: Seq<Option<usize>>, t2: Seq<Record>, i: int)
    requires
        pipeline(img, s1, b, c1, t1),
        pipeline(img, s2, b, c2, t2),
        views(s1) == views(s2),
        0 <= i < b.len(),
    ensures
        t1[i]@ == t2[i]@,
    decreases i,
{
    assert forall|j: int| 0 <= j < i implies t1[j]@ == t2[j]@ by {
        lemma_resolved_same(img, s1, b, c1, t1, s2, c2, t2, j);
    }
    assert(s1.len() == b.len() && s2.len() == b.len() && t1.len() == b.len() && t2.len() == b.len());
    assert(views(s1)[i] == s1[i]@ && views(s2)[i] == s2[i]@);
    assert(views(s1)[i] == views(s2)[i]);
    assert(discovered(img, s1[i], b[i]));
    assert(same_but_primary(s1[i], t1[i]));
    assert(same_but_primary(s2[i], t2[i]));
    assert(resolved_primary(img, b, s1, t1, i));
    assert(resolved_primary(img, b, s2, t2, i));
    assert forall|k: int| 0 <= k < s1.len() implies (#[trigger] s2[k]).position == s1[k].position by {
        assert(views(s1)[k] == s1[k]@ && views(s2)[k] == s2[k]@);
        assert(views(s1)[k] == views(s2)[k]);
    }
    let f0 = s1[i].fields@[0];
    assert(s2[i].fields@[0] == f0);
    let start = marker_start(f0);
    let from = s1[i].position;
    lemma_candidate_positions(img, b, s1, s2, start, from);
    if f0.field_type.0 == REFERENCE_TYPE && f0.type_start.x < u32::MAX && f0.type_start.y < u32::MAX {
        if exists|j: int| #[trigger] ref_candidate(img, b, s1, start, from, j) {
            let j = choose|j: int| #[trigger] ref_candidate(img, b, s1, start, from, j);
            lemma_first_exists(img, b, s1, start, from, j);
            let j0 = choose|j0: int| #[trigger] ref_first(img, b, s1, start, from, j0);
            assert(ref_first(img, b, s2, start, from, j0));
            assert(views(s1)[j0] == s1[j0]@ && views(s2)[j0] == s2[j0]@);
            assert(views(s1)[j0] == views(s2)[j0]);
            assert(discovered(img, s1[j0], b[j0]));
            if j0 < i {
                assert(t1[j0]@ == t2[j0]@);
            }
            assert(primary_then(s1, t1, i, j0) == primary_then(s2, t2, i, j0));
        } else {
            assert forall|j: int| !#[trigger] ref_candidate(img, b, s2, start, from, j) by {
                assert(!ref_candidate(img, b, s1, start, from, j));
            }
        }
    }
    assert(t1[i].fields@ =~= t2[i].fields@);
}

/// Decoding depends on the picture alone: decoding it twice into the same
/// model gives the same records, with no extra or duplicate merges.
pub proof fn lemma_decode_unique<I: StorableImage>(img: &I, m0: Seq<RecordView>, m1: Seq<RecordView>, m2: Seq<RecordView>)
    requires
        decoded(img, m0, m1),
        decoded(img, m0, m2),
    ensures
        m1 == m2,
{
    let (s1, b1, c1, t1) = choose|s: Seq<Record>, b: Seq<Block>, c: Seq<Option<usize>>, t: Seq<Record>|
        #[trigger] pipeline(img, s, b, c, t) && {
            &&& total_fields(m1) == total_fields(m0) + b.len()
            &&& m1.len() == m0.len() + unmerged(c, 0)
            &&& anchors(m1) == unmerged_anchors(t, c, 0) + anchors(m0)
            &&& forall|k: int| 0 <= k < m1.len() - m0.len() ==> grown_from(t, c, 0, #[trigger] m1[k])
            &&& m1.subrange(m1.len() - m0.len(), m1.len() as int) == m0
            &&& m1 == roots(views(t), c, 0) + m0
        };
    let (s2, b2, c2, t2) = choose|s: Seq<Record>, b: Seq<Block>, c: Seq<Option<usize>>, t: Seq<Record>|
        #[trigger] pipeline(img, s, b, c, t) && {
            &&& total_fields(m2) == total_fields(m0) + b.len()
            &&& m2.len() == m0.len() + unmerged(c, 0)
            &&& anchors(m2) == unmerged_anchors(t, c, 0) + anchors(m0)
            &&& forall|k: int| 0 <= k < m2.len() - m0.len() ==> grown_from(t, c, 0, #[trigger] m2[k])
            &&& m2.subrange(m2.len() - m0.len(), m2.len() as int) == m0
            &&& m2 == roots(views(t), c, 0) + m0
        };
    lemma_blocks_unique(img, s1, b1, c1, t1, s2, b2, c2, t2);
    assert forall|t: int| 0 <= t < c1.len() implies c1[t] == c2[t] by {
        assert(connections(img, b1, c1, b1.len() as int));
        assert(connections(img, b1, c2, b1.len() as int));
        match c1[t] {
            Some(f) => {
                match c2[t] {
                    Some(g) => {
                        if f < g {
                            assert(!first_up(img, b1, g as int, t));
                        } else if g < f {
                            assert(!first_up(img, b1, f as int, t));
                        }
                    },
                    None => {
                        assert(!first_up(img, b1, f as int, t));
                    },
                }
            },
            None => {
                match c2[t] {
                    Some(g) => {
                        assert(!first_up(img, b1, g as int, t));
                    },
                    None => {},
                }
            },
        }
    }
    assert(c1 =~= c2);
    assert forall|i: int| 0 <= i < t1.len() implies views(t1)[i] == views(t2)[i] by {
        lemma_resolved_same(img, s1, b1, c1, t1, s2, c2, t2, i);
    }
    assert(views(t1) =~= views(t2));
}

} // verus!
