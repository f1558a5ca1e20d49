use vstd::prelude::*;

use crate::model::{Model, Record, Vector2D, key_of};

verus! {

/// Which records a read returns: by an explicit id list, or by column,
/// offset and limit. The id list takes precedence over the rest.
#[derive(Debug)]
pub struct DBQuery {
    offset: Option<u32>,
    limit: Option<u32>,
    column: Option<String>,
    ids: Option<Vec<Vector2D>>,
}

pub struct DBQueryView {
    pub offset: Option<u32>,
    pub limit: Option<u32>,
    pub column: Option<Seq<char>>,
    pub ids: Option<Seq<Vector2D>>,
}

impl View for DBQuery {
    type V = DBQueryView;

    closed spec fn view(&self) -> DBQueryView {
        DBQueryView {
            offset: self.offset,
            limit: self.limit,
            column: match self.column {
                Some(c) => Some(c@),
                None => None,
            },
            ids: match self.ids {
                Some(v) => Some(v@),
                None => None,
            },
        }
    }
}

fn copy_ids(ids: &Vec<Vector2D>) -> (r: Vec<Vector2D>)
    ensures
        r@ == ids@,
{
    let mut r: Vec<Vector2D> = Vec::new();
    let mut i: usize = 0;
    while i < ids.len()
        invariant
            i <= ids@.len(),
            r@ == ids@.subrange(0, i as int),
        decreases ids.len() - i,
    {
        r.push(ids[i]);
        i = i + 1;
        assert(r@ =~= ids@.subrange(0, i as int));
    }
    assert(ids@.subrange(0, ids@.len() as int) =~= ids@);
    r
}

impl DBQuery {
    /// A query for every record.
    pub fn new() -> (q: Self)
        ensures
            q@.offset is None,
            q@.limit is None,
            q@.column is None,
            q@.ids is None,
    {
        DBQuery { offset: None, limit: None, column: None, ids: None }
    }

    pub fn offset(&mut self, offset: u32) -> (r: &mut Self)
        ensures
            final(self)@ == final(r)@,
            r@ == (DBQueryView { offset: Some(offset), ..old(self)@ }),
    {
        self.offset = Some(offset);
        self
    }

    pub fn limit(&mut self, limit: u32) -> (r: &mut Self)
        ensures
            final(self)@ == final(r)@,
            r@ == (DBQueryView { limit: Some(limit), ..old(self)@ }),
    {
        self.limit = Some(limit);
        self
    }

    pub fn column(&mut self, column: String) -> (r: &mut Self)
        ensures
            final(self)@ == final(r)@,
            r@ == (DBQueryView { column: Some(column@), ..old(self)@ }),
    {
        self.column = Some(column);
        self
    }

    pub fn ids(&mut self, ids: Vec<Vector2D>) -> (r: &mut Self)
        ensures
            final(self)@ == final(r)@,
            r@ == (DBQueryView { ids: Some(ids@), ..old(self)@ }),
    {
        self.ids = Some(ids);
        self
    }

    /// A copy of the query.
    pub fn build(&self) -> (q: Self)
        ensures
            q@ == self@,
    {
        let column = match &self.column {
            Some(c) => Some(c.clone()),
            None => None,
        };
        let ids = match &self.ids {
            Some(v) => Some(copy_ids(v)),
            None => None,
        };
        DBQuery { offset: self.offset, limit: self.limit, column, ids }
    }
}

/// Positions in `records` of the records that the ids name, in the order of
/// the ids; ids that name no record are skipped.
pub open spec fn id_hits(m: &Model, ids: Seq<Vector2D>) -> Seq<usize>
    decreases ids.len(),
{
    if ids.len() == 0 {
        Seq::empty()
    } else {
        let rest = id_hits(m, ids.drop_last());
        let k = key_of(ids.last());
        if m.index().contains_key(k) {
            rest.push(m.index()[k])
        } else {
            rest
        }
    }
}

/// Positions of the first `n` records, in order, that lie in the column
/// (every record when no column is given).
pub open spec fn in_column(recs: Seq<Record>, column: Option<Seq<char>>, n: int) -> Seq<usize>
    decreases n,
{
    if n <= 0 {
        Seq::empty()
    } else {
        let rest = in_column(recs, column, n - 1);
        let keep = match column {
            Some(c) => recs[n - 1].column@ == c,
            None => true,
        };
        if keep {
            rest.push((n - 1) as usize)
        } else {
            rest
        }
    }
}

/// Positions in `records` of what the query selects.
pub open spec fn selection(m: &Model, q: DBQueryView) -> Seq<usize> {
    match q.ids {
        Some(ids) => id_hits(m, ids),
        None => {
            let all = in_column(m.records@, q.column, m.records@.len() as int);
            let from = match q.offset {
                Some(o) => if o < all.len() { o as int } else { all.len() as int },
                None => 0,
            };
            let lim = match q.limit {
                Some(l) => l as int,
                None => m.records@.len() as int,
            };
            let to = if from + lim < all.len() { from + lim } else { all.len() as int };
            all.subrange(from, to)
        },
    }
}

/// Positions in the model's records of the records the query selects.
pub fn select_records(model: &Model, query: &DBQuery) -> (r: Vec<usize>)
    requires
        model.wf(),
    ensures
        r@ == selection(model, query@),
        forall|i: int| 0 <= i < r@.len() ==> r@[i] < model.records@.len(),
{
    match &query.ids {
        Some(ids) => {
            let mut r: Vec<usize> = Vec::new();
            let mut i: usize = 0;
            while i < ids.len()
                invariant
                    model.wf(),
                    i <= ids@.len(),
                    r@ == id_hits(model, ids@.subrange(0, i as int)),
                    forall|j: int| 0 <= j < r@.len() ==> r@[j] < model.records@.len(),
                decreases ids.len() - i,
            {
                let id = ids[i];
                assert(ids@.subrange(0, i + 1).drop_last() =~= ids@.subrange(0, i as int));
                match model.index_of(id) {
                    Some(k) => {
                        proof {
                            crate::model::lemma_key_injective(model.records@[k as int].position, id);
                        }
                        r.push(k);
                    },
                    None => {
                        proof {
                            if model.index().contains_key(key_of(id)) {
                                let j = model.index()[key_of(id)];
                                crate::model::lemma_key_injective(model.records@[j as int].position, id);
                                assert(model.has(id));
                            }
                        }
                    },
                }
                i = i + 1;
            }
            assert(ids@.subrange(0, ids@.len() as int) =~= ids@);
            r
        },
        None => {
            let n = model.records.len();
            let mut all: Vec<usize> = Vec::new();
            let mut i: usize = 0;
            while i < n
                invariant
                    n == model.records@.len(),
                    i <= n,
                    all@ == in_column(model.records@, query@.column, i as int),
                    forall|j: int| 0 <= j < all@.len() ==> all@[j] < i,
                decreases n - i,
            {
                let keep = match &query.column {
                    Some(c) => model.records[i].column == *c,
                    None => true,
                };
                if keep {
                    all.push(i);
                }
                i = i + 1;
            }
            let from: usize = match query.offset {
                Some(o) => if (o as usize) < all.len() { o as usize } else { all.len() },
                None => 0,
            };
            let lim: usize = match query.limit {
                Some(l) => l as usize,
                None => n,
            };
            let to: usize = if lim < all.len() - from { from + lim } else { all.len() };
            let mut r: Vec<usize> = Vec::new();
            let mut k: usize = from;
            while k < to
                invariant
                    from <= k <= to,
                    to <= all@.len(),
                    r@ == all@.subrange(from as int, k as int),
                    forall|j: int| 0 <= j < all@.len() ==> all@[j] < n,
                decreases to - k,
            {
                r.push(all[k]);
                k = k + 1;
                assert(r@ =~= all@.subrange(from as int, k as int));
            }
            r
        },
    }
}

} // verus!
