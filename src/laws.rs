use vstd::prelude::*;

use crate::codecs::{green, histogram_of, painted};
use crate::pie::{lemma_runs_counted, prefix, runs_painted};
use crate::colors::{RGB, blank, white};
use crate::image::{ImageView, StorableImage};
use crate::paging::{SliceView, evicted_only_clean, loaded_count};
use crate::model::{Model, Vector2D, key_of, lemma_key_injective};
use crate::query::{DBQueryView, id_hits, selection};

verus! {

/// Writing a boolean into a non-empty field and reading it back gives the
/// same boolean: `write_boolean` paints the field green or white, and
/// `read_boolean` reports whether its top-left pixel is not background.
pub proof fn lemma_boolean_round_trip<I: StorableImage>(v: ImageView, before: &I, after: &I, value: bool)
    requires
        v.width > 0,
        v.height > 0,
        painted(v, before, after, if value { green() } else { white() }),
    ensures
        !blank(v.at(after, 0, 0)) == value,
{
    assert(v.covers(v.x as int, v.y as int));
    assert(after.spec_pixel(v.x as int, v.y as int) == if value { green() } else { white() });
}

/// Writing a colour into a non-empty field and reading it back gives the
/// same colour.
pub proof fn lemma_color_round_trip<I: StorableImage>(v: ImageView, before: &I, after: &I, c: RGB)
    requires
        v.width > 0,
        v.height > 0,
        painted(v, before, after, c),
    ensures
        v.at(after, 0, 0) == c,
{
    assert(v.covers(v.x as int, v.y as int));
    assert(after.spec_pixel(v.x as int, v.y as int) == c);
}

/// Painting a histogram of distinct, non-background colours that fit the
/// field and reading it back gives each colour its own pixel count.
pub proof fn lemma_histogram_round_trip<I: StorableImage>(v: ImageView, before: &I, after: &I, runs: Seq<(RGB, u64)>, counts: Seq<(RGB, u64)>)
    requires
        runs_painted(v, before, after, runs),
        prefix(runs, runs.len() as int) <= v.width * v.height,
        forall|i: int, j: int| 0 <= i < j < runs.len() ==> runs[i].0 != runs[j].0,
        forall|i: int| 0 <= i < runs.len() ==> (#[trigger] runs[i]).0 != white(),
        histogram_of(v, after, counts),
    ensures
        forall|k: int, j: int|
            0 <= k < runs.len() && 0 <= j < counts.len() && (#[trigger] counts[j]).0 == (#[trigger] runs[k]).0
                ==> counts[j].1 == runs[k].1,
{
    assert forall|k: int, j: int|
        0 <= k < runs.len() && 0 <= j < counts.len() && (#[trigger] counts[j]).0 == (#[trigger] runs[k]).0 implies counts[j].1
        == runs[k].1 by {
        lemma_runs_counted(v, before, after, runs, k);
    }
}

proof fn lemma_none_loaded(s: Seq<SliceView>)
    requires
        forall|i: int| 0 <= i < s.len() ==> !(#[trigger] s[i]).loaded,
    ensures
        loaded_count(s) == 0,
    decreases s.len(),
{
    if s.len() > 0 {
        assert forall|i: int| 0 <= i < s.drop_last().len() implies !(#[trigger] s.drop_last()[i]).loaded by {
            assert(s.drop_last()[i] == s[i]);
        }
        lemma_none_loaded(s.drop_last());
    }
}

/// Once every dirty strip has been saved, eviction leaves fewer than half
/// of the strips loaded (for more than one strip), and a strip that was
/// dirty is never among those unloaded.
pub proof fn lemma_eviction_bound(before: Seq<SliceView>, after: Seq<SliceView>)
    requires
        before.len() > 1,
        forall|i: int| 0 <= i < before.len() ==> !(#[trigger] before[i]).dirty,
        evicted_only_clean(before, after),
        loaded_count(after) < before.len() / 2 || forall|i: int|
            0 <= i < after.len() && (#[trigger] after[i]).loaded ==> after[i].dirty,
    ensures
        loaded_count(after) < before.len() / 2 || loaded_count(after) == 0,
        2 * loaded_count(after) <= before.len() + 1,
{
    if !(loaded_count(after) < before.len() / 2) {
        assert forall|i: int| 0 <= i < after.len() implies !(#[trigger] after[i]).loaded by {
            assert(!before[i].dirty);
            assert(after[i].dirty == before[i].dirty);
        }
        lemma_none_loaded(after);
    }
}

proof fn lemma_id_hits(m: &Model, ids: Seq<Vector2D>)
    requires
        m.wf(),
    ensures
        forall|k: int| 0 <= k < id_hits(m, ids).len() ==> {
            &&& id_hits(m, ids)[k] < m.records@.len()
            &&& ids.contains(m.records@[id_hits(m, ids)[k] as int].position)
        },
        forall|id: Vector2D| ids.contains(id) && m.has(id) ==> exists|k: int|
            0 <= k < id_hits(m, ids).len() && m.records@[id_hits(m, ids)[k] as int].position == id,
    decreases ids.len(),
{
    if ids.len() > 0 {
        let rest = ids.drop_last();
        lemma_id_hits(m, rest);
        let last = ids.last();
        let hits = id_hits(m, ids);
        let rhits = id_hits(m, rest);
        assert forall|k: int| 0 <= k < hits.len() implies {
            &&& hits[k] < m.records@.len()
            &&& ids.contains(m.records@[hits[k] as int].position)
        } by {
            if k < rhits.len() {
                assert(hits[k] == rhits[k]);
                let p = m.records@[rhits[k] as int].position;
                let j = choose|j: int| 0 <= j < rest.len() && rest[j] == p;
                assert(ids[j] == p);
            } else {
                let i = m.index()[key_of(last)];
                lemma_key_injective(m.records@[i as int].position, last);
                assert(ids[ids.len() - 1] == last);
            }
        }
        assert forall|id: Vector2D| ids.contains(id) && m.has(id) implies exists|k: int|
            0 <= k < hits.len() && m.records@[hits[k] as int].position == id by {
            let j = choose|j: int| 0 <= j < ids.len() && ids[j] == id;
            if j < ids.len() - 1 {
                assert(rest[j] == id);
                let k = choose|k: int| 0 <= k < rhits.len() && m.records@[rhits[k] as int].position == id;
                assert(hits[k] == rhits[k]);
            } else {
                let i = choose|i: int| 0 <= i < m.records@.len() && (#[trigger] m.records@[i]).position == id;
                assert(m.index().contains_key(key_of(m.records@[i].position)));
                let n = m.index()[key_of(id)];
                lemma_key_injective(m.records@[n as int].position, id);
                assert(hits[hits.len() - 1] == n);
            }
        }
    }
}

/// A query with an id list selects exactly the records whose anchors are in
/// the list, whatever its offset, limit and column say.
pub proof fn lemma_query_by_ids(m: &Model, q: DBQueryView)
    requires
        m.wf(),
        q.ids is Some,
    ensures
        forall|k: int| 0 <= k < selection(m, q).len() ==> {
            &&& selection(m, q)[k] < m.records@.len()
            &&& q.ids->Some_0.contains(m.records@[selection(m, q)[k] as int].position)
        },
        forall|id: Vector2D| q.ids->Some_0.contains(id) && m.has(id) ==> exists|k: int|
            0 <= k < selection(m, q).len() && m.records@[selection(m, q)[k] as int].position == id,
        selection(m, q) == selection(m, DBQueryView { offset: None, limit: None, column: None, ..q }),
{
    let ids = q.ids->Some_0;
    lemma_id_hits(m, ids);
    assert(selection(m, q) == id_hits(m, ids));
    assert forall|id: Vector2D| ids.contains(id) && m.has(id) implies exists|k: int|
        0 <= k < selection(m, q).len() && m.records@[selection(m, q)[k] as int].position == id by {
        let k = choose|k: int| 0 <= k < id_hits(m, ids).len() && m.records@[id_hits(m, ids)[k] as int].position == id;
        assert(m.records@[selection(m, q)[k] as int].position == id);
    }
}

} // verus!
