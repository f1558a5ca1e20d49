use vstd::prelude::*;

use std::collections::HashMap;

verus! {

broadcast use vstd::std_specs::hash::group_hash_axioms;

/// A 9-bit field-type code, one bit per pixel of a 3x3 stamp, row-major,
/// most significant bit first.
#[derive(Clone, Copy, Debug, PartialEq, Eq, Structural)]
pub struct FieldType(pub u16);

/// A pixel coordinate.
#[derive(Clone, Copy, Debug, PartialEq, Eq, Structural, Hash)]
pub struct Vector2D {
    pub x: u32,
    pub y: u32,
}

impl Vector2D {
    pub fn new(x: u32, y: u32) -> (v: Self)
        ensures
            v == (Vector2D { x, y }),
    {
        Vector2D { x, y }
    }

    /// Moves the point by `rhs`.
    pub fn add_assign(&mut self, rhs: Vector2D)
        requires
            old(self).x + rhs.x <= u32::MAX,
            old(self).y + rhs.y <= u32::MAX,
        ensures
            final(self).x == old(self).x + rhs.x,
            final(self).y == old(self).y + rhs.y,
    {
        self.x = self.x + rhs.x;
        self.y = self.y + rhs.y;
    }
}

/// One typed payload rectangle, `data_start..=data_end`, with the anchor of
/// its 3x3 type stamp. A field that refers to another record carries that
/// record's anchor and the type and bounds of its primary field.
#[derive(Clone, Copy, Debug, PartialEq, Eq, Structural)]
pub struct Field {
    pub field_type: FieldType,
    pub data_start: Vector2D,
    pub data_end: Vector2D,
    pub type_start: Vector2D,
    pub ref_to_record: Option<Vector2D>,
}

/// A record: its anchor, the bottom-right corner of everything merged into
/// it, the colour of its column as `#RRGGBB`, and its fields in order.
#[derive(Clone, Debug)]
pub struct Record {
    pub position: Vector2D,
    pub fields: Vec<Field>,
    pub column: String,
    pub rb_position: Vector2D,
}

/// What a record holds, as plain values.
pub struct RecordView {
    pub position: Vector2D,
    pub fields: Seq<Field>,
    pub column: Seq<char>,
    pub rb_position: Vector2D,
}

impl View for Record {
    type V = RecordView;

    open spec fn view(&self) -> RecordView {
        RecordView {
            position: self.position,
            fields: self.fields@,
            column: self.column@,
            rb_position: self.rb_position,
        }
    }
}

/// Key of a coordinate in the position index.
pub open spec fn key_of(v: Vector2D) -> u64 {
    (v.x as int * 0x1_0000_0000 + v.y as int) as u64
}

pub proof fn lemma_key_injective(a: Vector2D, b: Vector2D)
    ensures
        key_of(a) == key_of(b) <==> a == b,
{
    let ka = a.x as int * 0x1_0000_0000 + a.y as int;
    let kb = b.x as int * 0x1_0000_0000 + b.y as int;
    assert(0 <= ka < 0x1_0000_0000_0000_0000) by (nonlinear_arith)
        requires
            ka == a.x as int * 0x1_0000_0000 + a.y as int,
            a.x <= u32::MAX,
            a.y <= u32::MAX,
    ;
    assert(0 <= kb < 0x1_0000_0000_0000_0000) by (nonlinear_arith)
        requires
            kb == b.x as int * 0x1_0000_0000 + b.y as int,
            b.x <= u32::MAX,
            b.y <= u32::MAX,
    ;
    if ka == kb {
        assert(a.x == b.x && a.y == b.y) by (nonlinear_arith)
            requires
                ka == a.x as int * 0x1_0000_0000 + a.y as int,
                kb == b.x as int * 0x1_0000_0000 + b.y as int,
                ka == kb,
                0 <= a.y < 0x1_0000_0000,
                0 <= b.y < 0x1_0000_0000,
        ;
    }
}

pub fn key(v: Vector2D) -> (k: u64)
    ensures
        k == key_of(v),
{
    proof {
        assert(v.x as int * 0x1_0000_0000 + v.y as int <= u64::MAX) by (nonlinear_arith)
            requires
                v.x <= u32::MAX,
                v.y <= u32::MAX,
        ;
    }
    (v.x as u64) * 0x1_0000_0000 + (v.y as u64)
}

/// The decoded database: records in insertion order, an index from anchor
/// to position in `records`, and how long the decoding took.
#[derive(Clone, Debug)]
pub struct Model {
    pub records: Vec<Record>,
    pub loading_time_ms: u64,
    /// Anchor key (see `key_of`) to position in `records`.
    pub by_id: HashMap<u64, usize>,
}

impl View for Model {
    type V = Seq<RecordView>;

    open spec fn view(&self) -> Seq<RecordView> {
        self.records@.map_values(|r: Record| r@)
    }
}

proof fn lemma_index_model()
    ensures
        vstd::std_specs::hash::obeys_key_model::<u64>(),
        vstd::std_specs::hash::builds_valid_hashers::<std::hash::RandomState>(),
{
}

impl Model {
    /// The index agrees with the records: every anchor is indexed, and every
    /// index entry names a record with that anchor.
    pub open spec fn wf(&self) -> bool {
        &&& forall|i: int|
            0 <= i < self.records.len() ==> #[trigger] self.index().contains_key(
                key_of(self.records[i].position),
            )
        &&& forall|k: u64| #[trigger]
            self.index().contains_key(k) ==> {
                &&& self.index()[k] < self.records.len()
                &&& key_of(self.records[self.index()[k] as int].position) == k
            }
    }

    pub open spec fn index(&self) -> Map<u64, usize> {
        self.by_id@
    }

    /// Some record has anchor `p`.
    pub open spec fn has(&self, p: Vector2D) -> bool {
        exists|i: int| 0 <= i < self.records.len() && (#[trigger] self.records[i]).position == p
    }

    pub fn new() -> (m: Self)
        ensures
            m.wf(),
            m.records@.len() == 0,
            m.loading_time_ms == 0,
    {
        Model { records: Vec::new(), by_id: HashMap::new(), loading_time_ms: 0 }
    }

    /// Appends a record at the end.
    pub fn add_record(&mut self, rec: &Record)
        requires
            old(self).wf(),
        ensures
            final(self).wf(),
            final(self)@ == old(self)@.push(rec@),
            final(self).loading_time_ms == old(self).loading_time_ms,
    {
        proof {
            lemma_index_model();
        }
        let r = rec.duplicate();
        self.records.push(r);
        let k = key(rec.position);
        self.by_id.insert(k, self.records.len() - 1);
        proof {
            assert forall|k2: u64| #[trigger] self.index().contains_key(k2) implies {
                &&& self.index()[k2] < self.records.len()
                &&& key_of(self.records[self.index()[k2] as int].position) == k2
            } by {
                if k2 != k {
                    assert(old(self).index().contains_key(k2));
                }
            }
            assert forall|i: int| 0 <= i < self.records.len() implies #[trigger] self.index().contains_key(
                key_of(self.records[i].position),
            ) by {
                if i < old(self).records.len() {
                    assert(old(self).records[i] == self.records[i]);
                    assert(old(self).index().contains_key(key_of(old(self).records[i].position)));
                }
            }
            assert(self@ =~= old(self)@.push(rec@));
        }
    }

    /// Inserts a record at `idx`, shifting the later ones, and rebuilds the index.
    pub fn insert_record(&mut self, idx: usize, rec: &Record)
        requires
            old(self).wf(),
            idx <= old(self).records.len(),
        ensures
            final(self).wf(),
            final(self)@ == old(self)@.insert(idx as int, rec@),
            final(self).loading_time_ms == old(self).loading_time_ms,
    {
        let r = rec.duplicate();
        self.records.insert(idx, r);
        self.rebuild_index();
        assert(self@ =~= old(self)@.insert(idx as int, rec@));
    }

    fn rebuild_index(&mut self)
        ensures
            final(self).wf(),
            final(self).records == old(self).records,
            final(self).loading_time_ms == old(self).loading_time_ms,
    {
        proof {
            lemma_index_model();
        }
        let mut index: HashMap<u64, usize> = HashMap::new();
        let n = self.records.len();
        let mut i: usize = 0;
        while i < n
            invariant
                n == self.records.len(),
                i <= n,
                forall|j: int| 0 <= j < i ==> #[trigger] index@.contains_key(key_of(self.records[j].position)),
                forall|k: u64| #[trigger]
                    index@.contains_key(k) ==> {
                        &&& index@[k] < i
                        &&& key_of(self.records[index@[k] as int].position) == k
                    },
            decreases n - i,
        {
            let k = key(self.records[i].position);
            index.insert(k, i);
            i = i + 1;
        }
        self.by_id = index;
    }

    /// The record anchored at `(x, y)`, if any.
    pub fn get_by_id(&self, x: u32, y: u32) -> (r: Option<&Record>)
        requires
            self.wf(),
        ensures
            r is Some <==> self.has(Vector2D { x, y }),
            r matches Some(rec) ==> rec.position == (Vector2D { x, y }) && exists|i: int|
                0 <= i < self.records.len() && self.records[i] == *rec,
    {
        proof {
            lemma_index_model();
        }
        let p = Vector2D::new(x, y);
        proof {
            lemma_index_model();
        }
        let k = key(p);
        match self.by_id.get(&k) {
            Some(i) => {
                proof {
                    assert(self.by_id@.contains_key(k) && self.by_id@[k] == *i);
                    assert(self.index().contains_key(k));
                    lemma_key_injective(self.records[*i as int].position, p);
                }
                Some(&self.records[*i])
            },
            None => {
                proof {
                    if self.has(p) {
                        let i = choose|i: int| 0 <= i < self.records.len() && (#[trigger] self.records[i]).position == p;
                        assert(self.index().contains_key(key_of(self.records[i].position)));
                    }
                }
                None
            },
        }
    }

    /// A copy of the model, with its own index.
    pub fn duplicate(&self) -> (m: Model)
        requires
            self.wf(),
        ensures
            m.wf(),
            m@ == self@,
            m.loading_time_ms == self.loading_time_ms,
    {
        let mut m = Model::new();
        let mut i: usize = 0;
        while i < self.records.len()
            invariant
                m.wf(),
                i <= self.records@.len(),
                m@ == self@.subrange(0, i as int),
            decreases self.records.len() - i,
        {
            m.add_record(&self.records[i]);
            i = i + 1;
            assert(m@ =~= self@.subrange(0, i as int));
        }
        assert(self@.subrange(0, self@.len() as int) =~= self@);
        let r = Model { loading_time_ms: self.loading_time_ms, ..m };
        assert(r.index() == m.index());
        assert(r.records@ == m.records@);
        assert(r.wf()) by {
            assert forall|k: u64| #[trigger] r.index().contains_key(k) implies {
                &&& r.index()[k] < r.records.len()
                &&& key_of(r.records[r.index()[k] as int].position) == k
            } by {
                assert(m.index().contains_key(k));
            }
            assert forall|i: int| 0 <= i < r.records.len() implies #[trigger] r.index().contains_key(
                key_of(r.records[i].position),
            ) by {
                assert(m.index().contains_key(key_of(m.records[i].position)));
            }
        }
        r
    }

    /// Position in `records` of the record anchored at `p`, as the index has it.
    pub open spec fn index_of_spec(&self, p: Vector2D) -> Option<usize> {
        if self.index().contains_key(key_of(p)) {
            Some(self.index()[key_of(p)])
        } else {
            None
        }
    }

    /// Position in `records` of the record anchored at `p`, if any.
    pub fn index_of(&self, p: Vector2D) -> (r: Option<usize>)
        requires
            self.wf(),
        ensures
            r is Some <==> self.has(p),
            r matches Some(i) ==> i < self.records.len() && self.records[i as int].position == p,
            r == (if self.index().contains_key(key_of(p)) {
                Some(self.index()[key_of(p)])
            } else {
                None::<usize>
            }),
    {
        let k = key(p);
        match self.by_id.get(&k) {
            Some(i) => {
                proof {
                    assert(self.by_id@.contains_key(k) && self.by_id@[k] == *i);
                    assert(self.index().contains_key(k));
                    lemma_key_injective(self.records[*i as int].position, p);
                }
                Some(*i)
            },
            None => {
                proof {
                    if self.has(p) {
                        let i = choose|i: int| 0 <= i < self.records.len() && (#[trigger] self.records[i]).position == p;
                        assert(self.index().contains_key(key_of(self.records[i].position)));
                    }
                }
                None
            },
        }
    }
}

impl Record {
    /// A field-for-field copy.
    pub fn duplicate(&self) -> (r: Record)
        ensures
            r@ == self@,
    {
        let mut fields: Vec<Field> = Vec::new();
        let mut i: usize = 0;
        while i < self.fields.len()
            invariant
                i <= self.fields.len(),
                fields@ == self.fields@.subrange(0, i as int),
            decreases self.fields.len() - i,
        {
            fields.push(self.fields[i]);
            i = i + 1;
            assert(fields@ =~= self.fields@.subrange(0, i as int));
        }
        assert(fields@ =~= self.fields@);
        let r = Record {
            position: self.position,
            fields,
            column: self.column.clone(),
            rb_position: self.rb_position,
        };
        r
    }
}

/// Why a value does not fit a field.
#[derive(Debug, Clone, PartialEq, Eq)]
pub enum IncompatibleError {
    InvalidDataType,
    InvalidSize,
    CannotParseValue(String),
}

/// What a codec or a lookup can fail with.
#[derive(Debug, Clone, PartialEq, Eq)]
pub enum DataError {
    Incompatible(IncompatibleError),
    UnknownType(FieldType),
    NotImplemented,
    NotFound,
}

} // verus!
