use vstd::prelude::*;

use crate::assemble::{decoded, load_model_into};
use crate::datatypes::{DataTypes, read_result, write_result};
use crate::image::{ImageView, StorableImage};
use crate::codecs::{invalid_type, wrong_type};
use crate::resolve::REFERENCE_TYPE;
use crate::model::{DataError, Field, IncompatibleError, Model, Record, RecordView, Vector2D};
use crate::query::{DBQuery, select_records, selection};
use crate::value::DataValue;

verus! {

/// A record as served: its anchor, its column and the values of its fields.
#[derive(Debug)]
pub struct DataRecord {
    pub id: Vector2D,
    pub column: String,
    pub fields: Vec<DataFieldValue>,
}

/// One field's value, and the anchor of the record it refers to, if any.
#[derive(Debug)]
pub struct DataFieldValue {
    pub value: DataValue,
    pub reference: Option<Vector2D>,
}

/// The answer of the database service: a value, a progress report while the
/// first decoding runs (in percent), or an error.
#[derive(Debug)]
pub enum DBResult<T> {
    Ready(T),
    StillLoading(u32),
    Failed(DataError),
}

impl<T> DBResult<T> {
    /// The value of a ready answer.
    pub fn unwrap(self) -> (v: T)
        requires
            self is Ready,
        ensures
            self == DBResult::<T>::Ready(v),
    {
        match self {
            DBResult::Ready(v) => v,
            DBResult::StillLoading(_) => vstd::pervasive::unreached(),
            DBResult::Failed(_) => vstd::pervasive::unreached(),
        }
    }
}

/// The window over a field's payload rectangle.
pub open spec fn field_window(f: Field) -> ImageView {
    ImageView {
        x: f.data_start.x,
        y: f.data_start.y,
        width: (f.data_end.x - f.data_start.x + 1) as u32,
        height: (f.data_end.y - f.data_start.y + 1) as u32,
    }
}

/// The field's rectangle is well formed and inside the store.
pub open spec fn field_fits<I: StorableImage>(f: Field, img: &I) -> bool {
    &&& f.data_start.x <= f.data_end.x < img.spec_width()
    &&& f.data_start.y <= f.data_end.y < img.spec_height()
}

pub open spec fn bad_rectangle() -> DataError {
    DataError::Incompatible(IncompatibleError::InvalidSize)
}

/// The window over the field, when the field lies inside the store.
pub fn field_view<I: StorableImage>(f: &Field, img: &I) -> (r: Option<ImageView>)
    requires
        img.inv(),
    ensures
        r is Some <==> field_fits(*f, img),
        r matches Some(v) ==> v == field_window(*f) && v.fits(img),
{
    let w = img.width();
    let h = img.height();
    if f.data_start.x <= f.data_end.x && f.data_end.x < w && f.data_start.y <= f.data_end.y && f.data_end.y < h {
        Some(ImageView::new(f.data_start, f.data_end))
    } else {
        None
    }
}

/// Reading field `k` of `rec` gave `value`.
pub open spec fn field_read<I: StorableImage>(t: &DataTypes, img: &I, f: Field, value: DataValue) -> bool {
    field_fits(f, img) && read_result(t, field_window(f), img, f.field_type.0, Ok(value))
}

/// `d` is record `rec` as served: its anchor, its column, and each field's
/// value as its codec reads it, with the field's reference.
pub open spec fn served<I: StorableImage>(data_types: &DataTypes, img: &I, rec: RecordView, d: DataRecord) -> bool {
    &&& d.id == rec.position
    &&& d.column@ == rec.column
    &&& d.fields@.len() == rec.fields.len()
    &&& forall|k: int| 0 <= k < rec.fields.len() ==> {
        &&& (#[trigger] d.fields@[k]).reference == rec.fields[k].ref_to_record
        &&& field_read(data_types, img, rec.fields[k], d.fields@[k].value)
    }
}

/// Every field of `rec` can be read.
pub open spec fn servable<I: StorableImage>(data_types: &DataTypes, img: &I, rec: RecordView) -> bool {
    exists|d: DataRecord| #[trigger] served(data_types, img, rec, d)
}

/// Field `f` lies in the store and its codec reads it.
pub open spec fn field_ok<I: StorableImage>(data_types: &DataTypes, img: &I, f: Field) -> bool {
    exists|v: DataValue| #[trigger] field_read(data_types, img, f, v)
}

/// Reading field `f` fails with `e`.
pub open spec fn field_fails<I: StorableImage>(data_types: &DataTypes, img: &I, f: Field, e: DataError) -> bool {
    ||| !field_fits(f, img) && e == bad_rectangle()
    ||| field_fits(f, img) && read_result(data_types, field_window(f), img, f.field_type.0, Err(e))
}

/// The first field of `rec` that cannot be read fails with `e`.
pub open spec fn read_fails<I: StorableImage>(data_types: &DataTypes, img: &I, rec: RecordView, e: DataError) -> bool {
    exists|k: int|
        0 <= k < rec.fields.len() && (forall|j: int| 0 <= j < k ==> field_ok(data_types, img, #[trigger] rec.fields[j]))
            && field_fails(data_types, img, #[trigger] rec.fields[k], e)
}

/// Reads every field of the record through its codec.
pub fn to_data_record<I: StorableImage>(data_types: &DataTypes, rec: &Record, img: &I) -> (r: Result<DataRecord, DataError>)
    requires
        data_types.wf(),
        img.inv(),
    ensures
        r matches Ok(d) ==> served(data_types, img, rec@, d),
        r matches Err(e) ==> read_fails(data_types, img, rec@, e),
{
    let mut fields: Vec<DataFieldValue> = Vec::new();
    let mut k: usize = 0;
    while k < rec.fields.len()
        invariant
            data_types.wf(),
            img.inv(),
            k <= rec.fields@.len(),
            fields@.len() == k,
            forall|j: int| 0 <= j < k ==> {
                &&& (#[trigger] fields@[j]).reference == rec.fields@[j].ref_to_record
                &&& field_read(data_types, img, rec.fields@[j], fields@[j].value)
            },
        decreases rec.fields.len() - k,
    {
        let field = rec.fields[k];
        let view = match field_view(&field, img) {
            Some(v) => v,
            None => {
                proof {
                    assert forall|j: int| 0 <= j < k implies field_ok(data_types, img, #[trigger] rec@.fields[j]) by {
                        assert(field_read(data_types, img, rec.fields@[j], fields@[j].value));
                    }
                    assert(field_fails(data_types, img, rec@.fields[k as int], bad_rectangle()));
                }
                return Err(DataError::Incompatible(IncompatibleError::InvalidSize));
            },
        };
        match data_types.read(&view, img, &field) {
            Ok(value) => {
                fields.push(DataFieldValue { value, reference: field.ref_to_record });
            },
            Err(e) => {
                proof {
                    assert forall|j: int| 0 <= j < k implies field_ok(data_types, img, #[trigger] rec@.fields[j]) by {
                        assert(field_read(data_types, img, rec.fields@[j], fields@[j].value));
                    }
                    assert(field_fails(data_types, img, rec@.fields[k as int], e));
                }
                return Err(e);
            },
        }
        k = k + 1;
    }
    Ok(DataRecord { id: rec.position, column: rec.column.clone(), fields })
}

/// What writing `value` into field `fi` of the record anchored at `(x, y)`
/// does to the store (from `a` to `b`) and returns.
pub open spec fn set_field_effect<I: StorableImage>(model: &Model, data_types: &DataTypes, a: &I, b: &I, x: u32, y: u32, fi: u32, value: DataValue, r: Result<(), DataError>) -> bool {
        match model.index_of_spec(Vector2D { x, y }) {
            Some(i) => if fi < model.records@[i as int].fields@.len() {
                let f = model.records@[i as int].fields@[fi as int];
                if is_reference(f) {
                    r == Err::<(), DataError>(wrong_type()) && *b == *a
                } else if field_fits(f, a) {
                    write_result(data_types, field_window(f), a, b, f.field_type.0, value, r)
                } else {
                    r == Err::<(), DataError>(bad_rectangle()) && *b == *a
                }
            } else {
                r == Err::<(), DataError>(DataError::NotFound) && *b == *a
            },
            None => r == Err::<(), DataError>(DataError::NotFound) && *b == *a,
        }
}

/// A field that refers to another record, resolved or not: it holds no
/// value of its own and cannot be written.
pub open spec fn is_reference(f: Field) -> bool {
    f.ref_to_record is Some || f.field_type.0 == REFERENCE_TYPE
}

/// Writes a value into field `fi` of the record anchored at `(x, y)`.
/// A reference field refuses any value with `InvalidDataType`. `NotFound` when there is no such record or field; the store is then
/// left as it was.
pub fn set_field<I: StorableImage>(model: &Model, img: &mut I, data_types: &DataTypes, x: u32, y: u32, fi: u32, value: DataValue) -> (r: Result<(), DataError>)
    requires
        model.wf(),
        data_types.wf(),
        old(img).inv(),
    ensures
        final(img).inv(),
        set_field_effect(model, data_types, old(img), final(img), x, y, fi, value, r),
{
    match model.index_of(Vector2D::new(x, y)) {
        Some(i) => {
            if (fi as usize) < model.records[i].fields.len() {
                let field = model.records[i].fields[fi as usize];
                if field.ref_to_record.is_some() || field.field_type.0 == REFERENCE_TYPE {
                    return Err(invalid_type());
                }
                match field_view(&field, img) {
                    Some(view) => data_types.write(&view, img, &field, value),
                    None => Err(DataError::Incompatible(IncompatibleError::InvalidSize)),
                }
            } else {
                Err(DataError::NotFound)
            }
        },
        None => Err(DataError::NotFound),
    }
}

/// The lowest bottom edge among the records of `column` anchored at column
/// `x` of the grid.
pub open spec fn bottom(recs: Seq<Record>, column: Seq<char>, x: u32) -> Option<u32>
    decreases recs.len(),
{
    if recs.len() == 0 {
        None
    } else {
        let rest = bottom(recs.drop_last(), column, x);
        let r = recs.last();
        if r.column@ == column && r.position.x == x {
            match rest {
                Some(b) => Some(if b > r.rb_position.y { b } else { r.rb_position.y }),
                None => Some(r.rb_position.y),
            }
        } else {
            rest
        }
    }
}

fn column_bottom(recs: &Vec<Record>, column: &String, x: u32) -> (r: Option<u32>)
    ensures
        r == bottom(recs@, column@, x),
{
    let mut r: Option<u32> = None;
    let mut i: usize = 0;
    while i < recs.len()
        invariant
            i <= recs@.len(),
            r == bottom(recs@.subrange(0, i as int), column@, x),
        decreases recs.len() - i,
    {
        assert(recs@.subrange(0, i + 1).drop_last() =~= recs@.subrange(0, i as int));
        let rec = &recs[i];
        if rec.column == *column && rec.position.x == x {
            r = match r {
                Some(b) => Some(if b > rec.rb_position.y { b } else { rec.rb_position.y }),
                None => Some(rec.rb_position.y),
            };
        }
        i = i + 1;
    }
    assert(recs@.subrange(0, recs@.len() as int) =~= recs@);
    r
}

/// Where a copy of `rec` goes: below the lowest record of its column with
/// ten rows between, in the first grid column (from the record's own, then
/// ten past its width each time) where it fits. `None` when no column fits.
/// The first row free below the records of `rec`'s column anchored at grid
/// column `x`, ten rows past the lowest; ten rows below `rec` when there is none.
pub open spec fn column_top(recs: Seq<Record>, rec: RecordView, x: u32) -> int {
    match bottom(recs, rec.column, x) {
        Some(b) => b + 10,
        None => rec.position.y + 10,
    }
}

/// Where a copy of `rec` goes, trying grid column `x` first and then, each
/// time, the column `w + 10` further right, where `w` is the record's width
/// less one: the first column whose free row leaves room for the whole
/// record below it; `None` once a candidate reaches the right edge.
pub open spec fn placement(recs: Seq<Record>, rec: RecordView, x: int, width: int, height: int) -> Option<(u32, u32)>
    decreases (if x < width { width - x } else { 0 }),
{
    let w = rec.rb_position.x - rec.position.x;
    let h = rec.rb_position.y - rec.position.y;
    if x < 0 || x + w >= width || w < 0 {
        None
    } else if column_top(recs, rec, x as u32) + h < height {
        Some((x as u32, column_top(recs, rec, x as u32) as u32))
    } else {
        placement(recs, rec, x + w + 10, width, height)
    }
}

pub fn place_clone(recs: &Vec<Record>, rec: &Record, width: u32, height: u32) -> (r: Option<(u32, u32)>)
    requires
        rec.position.x <= rec.rb_position.x < width,
        rec.position.y <= rec.rb_position.y < height,
    ensures
        r == placement(recs@, rec@, rec.position.x as int, width as int, height as int),
        r matches Some((tx, ty)) ==> {
            &&& tx as int + (rec.rb_position.x - rec.position.x) < width
            &&& ty as int + (rec.rb_position.y - rec.position.y) < height
            &&& ty == match bottom(recs@, rec.column@, tx) {
                Some(b) => b + 10,
                None => rec.position.y + 10,
            }
            &&& tx == rec.position.x || tx >= rec.rb_position.x + 10
        },
{
    let w = rec.rb_position.x - rec.position.x;
    let h = rec.rb_position.y - rec.position.y;
    let mut x: u32 = rec.position.x;
    let mut y: u64 = match column_bottom(recs, &rec.column, x) {
        Some(b) => b as u64 + 10,
        None => rec.position.y as u64 + 10,
    };
    while y + h as u64 >= height as u64
        invariant
            w == rec.rb_position.x - rec.position.x,
            h == rec.rb_position.y - rec.position.y,
            rec.position.x <= rec.rb_position.x < width,
            x as int + w < width,
            x == rec.position.x || x >= rec.rb_position.x + 10,
            y == match bottom(recs@, rec.column@, x) {
                Some(b) => b + 10,
                None => rec.position.y + 10,
            },
            placement(recs@, rec@, rec.position.x as int, width as int, height as int) == placement(recs@, rec@, x as int, width as int, height as int),
        decreases width - x,
    {
        if x as u64 + w as u64 + 10 + w as u64 >= width as u64 {
            assert(placement(recs@, rec@, x + w + 10, width as int, height as int) is None);
            return None;
        }
        x = x + w + 10;
        y = match column_bottom(recs, &rec.column, x) {
            Some(b) => b as u64 + 10,
            None => rec.position.y as u64 + 10,
        };
    }
    Some((x, y as u32))
}

/// `p` moved by `(dx, dy)`, each coordinate wrapping at 32 bits.
pub open spec fn shifted(p: Vector2D, dx: u32, dy: u32) -> Vector2D {
    Vector2D { x: ((p.x + dx) % 0x1_0000_0000) as u32, y: ((p.y + dy) % 0x1_0000_0000) as u32 }
}

fn shift(p: Vector2D, dx: u32, dy: u32) -> (r: Vector2D)
    ensures
        r == shifted(p, dx, dy),
{
    Vector2D {
        x: ((p.x as u64 + dx as u64) % 0x1_0000_0000) as u32,
        y: ((p.y as u64 + dy as u64) % 0x1_0000_0000) as u32,
    }
}

/// The field moved with its record.
pub open spec fn shifted_field(f: Field, dx: u32, dy: u32) -> Field {
    Field {
        type_start: shifted(f.type_start, dx, dy),
        data_start: shifted(f.data_start, dx, dy),
        data_end: shifted(f.data_end, dx, dy),
        ..f
    }
}

/// The copy of `rec` moved by `(dx, dy)`.
pub open spec fn shifted_record(rec: RecordView, dx: u32, dy: u32) -> RecordView {
    RecordView {
        position: shifted(rec.position, dx, dy),
        rb_position: shifted(rec.rb_position, dx, dy),
        fields: rec.fields.map_values(|f: Field| shifted_field(f, dx, dy)),
        column: rec.column,
    }
}

/// The rectangle `(x1, y1)..=(x2, y2)` of `a` copied `(dx, dy)` further on.
pub open spec fn block_copied<I: StorableImage>(a: &I, b: &I, x1: int, y1: int, x2: int, y2: int, dx: int, dy: int) -> bool {
    &&& b.spec_width() == a.spec_width()
    &&& b.spec_height() == a.spec_height()
    &&& forall|i: int, j: int| #[trigger]
        b.spec_pixel(i, j) == if x1 + dx <= i <= x2 + dx && y1 + dy <= j <= y2 + dy {
            a.spec_pixel(i - dx, j - dy)
        } else {
            a.spec_pixel(i, j)
        }
}

fn copy_block<I: StorableImage>(img: &mut I, x1: u32, y1: u32, x2: u32, y2: u32, dx: u32, dy: u32)
    requires
        old(img).inv(),
        x1 <= x2,
        y1 <= y2,
        x2 + dx < old(img).spec_width(),
        y2 + dy < old(img).spec_height(),
        dx > x2 - x1 || dy > y2 - y1,
    ensures
        final(img).inv(),
        block_copied(old(img), final(img), x1 as int, y1 as int, x2 as int, y2 as int, dx as int, dy as int),
{
    let ghost start = *old(img);
    let _w = img.width();
    let _h = img.height();
    let mut xx: u32 = x1;
    while xx <= x2
        invariant
            img.inv(),
            img.spec_width() <= u32::MAX,
            img.spec_height() <= u32::MAX,
            x1 <= xx <= x2 + 1,
            x1 <= x2,
            y1 <= y2,
            x2 + dx < img.spec_width(),
            y2 + dy < img.spec_height(),
            dx > x2 - x1 || dy > y2 - y1,
            img.spec_width() == start.spec_width(),
            img.spec_height() == start.spec_height(),
            forall|i: int, j: int| #[trigger]
                img.spec_pixel(i, j) == if x1 + dx <= i < xx + dx && y1 + dy <= j <= y2 + dy {
                    start.spec_pixel(i - dx, j - dy)
                } else {
                    start.spec_pixel(i, j)
                },
        decreases x2 + 1 - xx,
    {
        let mut yy: u32 = y1;
        while yy <= y2
            invariant
                img.inv(),
                img.spec_width() <= u32::MAX,
                img.spec_height() <= u32::MAX,
                x1 <= xx <= x2,
                y1 <= yy <= y2 + 1,
                y1 <= y2,
                x2 + dx < img.spec_width(),
                y2 + dy < img.spec_height(),
                dx > x2 - x1 || dy > y2 - y1,
                img.spec_width() == start.spec_width(),
                img.spec_height() == start.spec_height(),
                forall|i: int, j: int| #[trigger]
                    img.spec_pixel(i, j) == if (x1 + dx <= i < xx + dx && y1 + dy <= j <= y2 + dy) || (i == xx + dx
                        && y1 + dy <= j < yy + dy) {
                        start.spec_pixel(i - dx, j - dy)
                    } else {
                        start.spec_pixel(i, j)
                    },
            decreases y2 + 1 - yy,
        {
            let c = img.get_pixel(xx, yy);
            assert(c == start.spec_pixel(xx as int, yy as int));
            img.set_pixel(xx + dx, yy + dy, &c);
            yy = yy + 1;
        }
        xx = xx + 1;
    }
}

proof fn lemma_bottom_member(recs: Seq<Record>, column: Seq<char>, x: u32, i: int)
    requires
        0 <= i < recs.len(),
        recs[i].column@ == column,
        recs[i].position.x == x,
    ensures
        bottom(recs, column, x) matches Some(b) && b >= recs[i].rb_position.y,
    decreases recs.len(),
{
    if i < recs.len() - 1 {
        lemma_bottom_member(recs.drop_last(), column, x, i);
    }
}

fn shift_record(rec: &Record, dx: u32, dy: u32) -> (r: Record)
    ensures
        r@ == shifted_record(rec@, dx, dy),
{
    let mut fields: Vec<Field> = Vec::new();
    let mut k: usize = 0;
    while k < rec.fields.len()
        invariant
            k <= rec.fields@.len(),
            fields@ == rec.fields@.subrange(0, k as int).map_values(|f: Field| shifted_field(f, dx, dy)),
        decreases rec.fields.len() - k,
    {
        let f = rec.fields[k];
        fields.push(Field {
            type_start: shift(f.type_start, dx, dy),
            data_start: shift(f.data_start, dx, dy),
            data_end: shift(f.data_end, dx, dy),
            ..f
        });
        k = k + 1;
        assert(fields@ =~= rec.fields@.subrange(0, k as int).map_values(|f: Field| shifted_field(f, dx, dy)));
    }
    assert(rec.fields@.subrange(0, rec.fields@.len() as int) =~= rec.fields@);
    let r = Record {
        position: shift(rec.position, dx, dy),
        fields,
        column: rec.column.clone(),
        rb_position: shift(rec.rb_position, dx, dy),
    };
    assert(r@.fields =~= shifted_record(rec@, dx, dy).fields);
    r
}

/// The copy of `src` that a clone by `(dx, dy)` adds.
pub open spec fn clone_of(src: Record, dx: int, dy: int) -> RecordView {
    shifted_record(src@, dx as u32, dy as u32)
}

/// What cloning the record anchored at `(x, y)` does to the model (from
/// `m0` to `m1`) and the store (from `a` to `b`), and returns.
pub open spec fn clone_effect<I: StorableImage>(t: &DataTypes, m0: &Model, m1: &Model, a: &I, b: &I, x: u32, y: u32, r: Result<DataRecord, DataError>) -> bool {
    let untouched = m1@ == m0@ && *b == *a;
    match m0.index_of_spec(Vector2D { x, y }) {
        None => r == Err::<DataRecord, DataError>(DataError::NotFound) && untouched,
        Some(i) => {
            let src = m0.records@[i as int];
            let w = src.rb_position.x - src.position.x;
            let h = src.rb_position.y - src.position.y;
            if !(src.position.x <= src.rb_position.x < a.spec_width() && src.position.y <= src.rb_position.y < a.spec_height()) {
                r == Err::<DataRecord, DataError>(bad_rectangle()) && untouched
            } else {
                match placement(m0.records@, src@, src.position.x as int, a.spec_width() as int, a.spec_height() as int) {
                    None => r == Err::<DataRecord, DataError>(bad_rectangle()) && untouched,
                    Some((tx, ty)) => if ty < src.position.y {
                        r == Err::<DataRecord, DataError>(bad_rectangle()) && untouched
                    } else {
                        let dx = tx - src.position.x;
                        let dy = ty - src.position.y;
                        let n = clone_of(src, dx, dy);
                        &&& m1@ == m0@.push(n)
                        &&& n.position == Vector2D { x: tx, y: ty }
                        &&& n.rb_position == Vector2D { x: (tx + w) as u32, y: (ty + h) as u32 }
                        &&& tx + w < a.spec_width() && ty + h < a.spec_height()
                        &&& (dx > w || dy > h)
                        &&& block_copied(a, b, src.position.x as int, src.position.y as int, src.rb_position.x as int, src.rb_position.y as int, dx, dy)
                        &&& match r {
                            Ok(d) => served(t, b, n, d),
                            Err(e) => read_fails(t, b, n, e),
                        }
                    },
                }
            }
        },
    }
}

/// Copies the record anchored at `(x, y)`, pixels and fields, to the free
/// place `place_clone` picks, and adds the copy to the model. The copy
/// never overlaps the source record: it lies ten rows below its column's lowest
/// record, or ten columns or more to the right.
#[verifier::rlimit(40)]
pub fn clone_record<I: StorableImage>(model: &mut Model, img: &mut I, data_types: &DataTypes, x: u32, y: u32) -> (r: Result<DataRecord, DataError>)
    requires
        old(model).wf(),
        old(img).inv(),
        data_types.wf(),
    ensures
        final(model).wf(),
        final(img).inv(),
        clone_effect(data_types, old(model), final(model), old(img), final(img), x, y, r),
{
    let i = match model.index_of(Vector2D::new(x, y)) {
        Some(i) => i,
        None => {
            return Err(DataError::NotFound);
        },
    };
    let rec = model.records[i].duplicate();
    let w = img.width();
    let h = img.height();
    if !(rec.position.x <= rec.rb_position.x && rec.rb_position.x < w && rec.position.y <= rec.rb_position.y && rec.rb_position.y < h) {
        return Err(DataError::Incompatible(IncompatibleError::InvalidSize));
    }
    let (tx, ty) = match place_clone(&model.records, &rec, w, h) {
        Some(t) => t,
        None => {
            return Err(DataError::Incompatible(IncompatibleError::InvalidSize));
        },
    };
    if ty < rec.position.y {
        return Err(DataError::Incompatible(IncompatibleError::InvalidSize));
    }
    proof {
        if tx == rec.position.x {
            lemma_bottom_member(model.records@, rec.column@, tx, i as int);
        }
    }
    let dx = tx - rec.position.x;
    let dy = ty - rec.position.y;
    copy_block(img, rec.position.x, rec.position.y, rec.rb_position.x, rec.rb_position.y, dx, dy);
    let new_record = shift_record(&rec, dx, dy);
    model.add_record(&new_record);
    to_data_record(data_types, &new_record, img)
}

/// The database service's state: the decoded model once loading finished,
/// the store it was decoded from, and the codecs.
pub struct DB<I: StorableImage> {
    pub path: String,
    pub image: Option<I>,
    pub model: Option<Model>,
    pub data_types: DataTypes,
    pub model_loading_progress: u32,
}

impl<I: StorableImage> DB<I> {
    pub open spec fn wf(&self) -> bool {
        &&& self.data_types.wf()
        &&& self.model matches Some(m) ==> m.wf() && self.image is Some
        &&& self.image matches Some(img) ==> img.inv()
    }

    /// A service whose model is still loading.
    pub fn new(path: String, data_types: DataTypes) -> (db: Self)
        requires
            data_types.wf(),
        ensures
            db.wf(),
            db.model is None,
            db.image is None,
            db.model_loading_progress == 0,
            db.path@ == path@,
    {
        DB { path, image: None, model: None, data_types, model_loading_progress: 0 }
    }

    /// Records loading progress, in percent.
    pub fn set_progress(&mut self, percent: u32)
        ensures
            final(self).model_loading_progress == percent,
            final(self).model == old(self).model,
            final(self).image == old(self).image,
            old(self).wf() ==> final(self).wf(),
    {
        self.model_loading_progress = percent;
    }

    /// Takes over the result of the first load.
    pub fn set_model(&mut self, model: Model, image: I)
        requires
            old(self).wf(),
            model.wf(),
            image.inv(),
        ensures
            final(self).wf(),
            final(self).model == Some(model),
            final(self).image == Some(image),
            final(self).model_loading_progress == 100,
    {
        self.model = Some(model);
        self.image = Some(image);
        self.model_loading_progress = 100;
    }

    /// A copy of the model, or the progress while it is loading.
    pub fn get_model(&self) -> (r: DBResult<Model>)
        requires
            self.wf(),
        ensures
            self.model is None ==> r == DBResult::<Model>::StillLoading(self.model_loading_progress),
            self.model matches Some(m) ==> r matches DBResult::Ready(c) && c@ == m@ && c.wf(),
    {
        match &self.model {
            Some(m) => DBResult::Ready(m.duplicate()),
            None => DBResult::StillLoading(self.model_loading_progress),
        }
    }

    /// The selected records with their values, or the first error met.
    pub fn get_records(&self, query: &DBQuery) -> (r: DBResult<Vec<DataRecord>>)
        requires
            self.wf(),
        ensures
            self.model is None ==> r == DBResult::<Vec<DataRecord>>::StillLoading(self.model_loading_progress),
            self.model matches Some(m) ==> match r {
                DBResult::Ready(v) => {
                    let sel = selection(&m, query@);
                    &&& v@.len() == sel.len()
                    &&& forall|k: int| 0 <= k < sel.len() ==> served(&self.data_types, &self.image->Some_0, m.records@[sel[k] as int]@, #[trigger] v@[k])
                },
                DBResult::Failed(e) => {
                    let sel = selection(&m, query@);
                    exists|k: int|
                        0 <= k < sel.len() && (forall|j: int| 0 <= j < k ==> servable(&self.data_types, &self.image->Some_0, (#[trigger] m.records@[sel[j] as int])@))
                            && read_fails(&self.data_types, &self.image->Some_0, (#[trigger] m.records@[sel[k] as int])@, e)
                },
                DBResult::StillLoading(_) => false,
            },
    {
        match &self.model {
            Some(m) => {
                let img = match &self.image {
                    Some(i) => i,
                    None => {
                        return DBResult::StillLoading(self.model_loading_progress);
                    },
                };
                let sel = select_records(m, query);
                let mut out: Vec<DataRecord> = Vec::new();
                let mut k: usize = 0;
                while k < sel.len()
                    invariant
                        self.wf(),
                        self.model == Some(*m),
                        self.image == Some(*img),
                        m.wf(),
                        img.inv(),
                        self.data_types.wf(),
                        sel@ == selection(m, query@),
                        forall|j: int| 0 <= j < sel@.len() ==> sel@[j] < m.records@.len(),
                        k <= sel@.len(),
                        out@.len() == k,
                        forall|j: int| 0 <= j < k ==> served(&self.data_types, img, m.records@[sel@[j] as int]@, #[trigger] out@[j]),
                    decreases sel.len() - k,
                {
                    match to_data_record(&self.data_types, &m.records[sel[k]], img) {
                        Ok(d) => out.push(d),
                        Err(e) => {
                            assert(read_fails(&self.data_types, img, m.records@[sel@[k as int] as int]@, e));
                            assert forall|j: int| 0 <= j < k implies servable(&self.data_types, img, (#[trigger] m.records@[sel@[j] as int])@) by {
                                assert(served(&self.data_types, img, m.records@[sel@[j] as int]@, out@[j]));
                            }
                            return DBResult::Failed(e);
                        },
                    }
                    k = k + 1;
                }
                DBResult::Ready(out)
            },
            None => DBResult::StillLoading(self.model_loading_progress),
        }
    }

    /// Writes a value into a field; the progress while the model is loading.
    pub fn set_field(&mut self, x: u32, y: u32, fi: u32, value: DataValue) -> (r: DBResult<()>)
        requires
            old(self).wf(),
        ensures
            final(self).wf(),
            final(self).model == old(self).model,
            old(self).model is None ==> r == DBResult::<()>::StillLoading(old(self).model_loading_progress)
                && final(self).image == old(self).image,
            old(self).model matches Some(m) ==> final(self).image is Some && match r {
                DBResult::Ready(_) => set_field_effect(&m, &old(self).data_types, &old(self).image->Some_0, &final(self).image->Some_0, x, y, fi, value, Ok(())),
                DBResult::Failed(e) => set_field_effect(&m, &old(self).data_types, &old(self).image->Some_0, &final(self).image->Some_0, x, y, fi, value, Err(e)),
                DBResult::StillLoading(_) => false,
            },
    {
        match &self.model {
            Some(m) => {
                match &mut self.image {
                    Some(img) => match set_field(m, img, &self.data_types, x, y, fi, value) {
                        Ok(()) => DBResult::Ready(()),
                        Err(e) => DBResult::Failed(e),
                    },
                    None => DBResult::Failed(DataError::NotFound),
                }
            },
            None => DBResult::StillLoading(self.model_loading_progress),
        }
    }

    /// Clones a record; the progress while the model is loading.
    pub fn clone_record(&mut self, x: u32, y: u32) -> (r: DBResult<DataRecord>)
        requires
            old(self).wf(),
        ensures
            final(self).wf(),
            old(self).model is None ==> r == DBResult::<DataRecord>::StillLoading(old(self).model_loading_progress)
                && final(self).model == old(self).model && final(self).image == old(self).image,
            old(self).model matches Some(m) ==> final(self).model is Some && final(self).image is Some && match r {
                DBResult::Ready(d) => clone_effect(&old(self).data_types, &m, &final(self).model->Some_0, &old(self).image->Some_0, &final(self).image->Some_0, x, y, Ok(d)),
                DBResult::Failed(e) => clone_effect(&old(self).data_types, &m, &final(self).model->Some_0, &old(self).image->Some_0, &final(self).image->Some_0, x, y, Err(e)),
                DBResult::StillLoading(_) => false,
            },
    {
        match &mut self.model {
            Some(m) => {
                match &mut self.image {
                    Some(img) => match clone_record(m, img, &self.data_types, x, y) {
                        Ok(d) => DBResult::Ready(d),
                        Err(e) => DBResult::Failed(e),
                    },
                    None => DBResult::Failed(DataError::NotFound),
                }
            },
            None => DBResult::StillLoading(self.model_loading_progress),
        }
    }

    /// Decodes the model again after the store reloaded its file.
    pub fn reload(&mut self)
        requires
            old(self).wf(),
        ensures
            final(self).wf(),
            final(self).image == old(self).image,
            old(self).image matches Some(img) ==> final(self).model matches Some(m) && decoded(&img, Seq::empty(), m@),
            old(self).image is None ==> final(self).model == old(self).model,
    {
        match &self.image {
            Some(img) => {
                let mut model = Model::new();
                assert(model@ =~= Seq::<RecordView>::empty());
                load_model_into(&mut model, img);
                self.model = Some(model);
            },
            None => {},
        }
    }
}

} // verus!
