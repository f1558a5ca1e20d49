use badbee::assemble::load_model_into;
use badbee::colors::RGB;
use badbee::datatypes::DataTypes;
use badbee::db::{clone_record, place_clone, DBResult, DB};
use badbee::font::BitmapFont;
use badbee::image::{InMemoryImage, StorableImage};
use badbee::model::{DataError, Model, Vector2D};
use badbee::query::{select_records, DBQuery};
use badbee::value::DataValue;

fn white() -> RGB {
    RGB::new(255, 255, 255)
}

fn meta() -> RGB {
    RGB::new(0xBA, 0xDB, 0xEE)
}

fn border(img: &mut InMemoryImage, x1: u32, y1: u32, x2: u32, y2: u32) {
    for x in x1..=x2 {
        img.set_pixel(x, y1, &meta());
        img.set_pixel(x, y2, &meta());
    }
    for y in y1..=y2 {
        img.set_pixel(x1, y, &meta());
        img.set_pixel(x2, y, &meta());
    }
}

fn types() -> DataTypes {
    DataTypes::new(BitmapFont::open3x5(InMemoryImage::filled(4, 6, white()), ""))
}

/// Two columns of records: red column at x = 2 (two records), blue at x = 20.
fn table() -> InMemoryImage {
    let mut img = InMemoryImage::filled(40, 60, white());
    for x in 0..16 {
        img.set_pixel(x, 0, &RGB::new(255, 0, 0));
    }
    for x in 16..40 {
        img.set_pixel(x, 0, &RGB::new(0, 0, 255));
    }
    border(&mut img, 2, 4, 7, 9);
    border(&mut img, 2, 14, 7, 19);
    border(&mut img, 20, 4, 25, 9);
    img
}

fn model_of(img: &InMemoryImage) -> Model {
    let mut m = Model::new();
    load_model_into(&mut m, img);
    m
}

fn positions(m: &Model, sel: &[usize]) -> Vec<Vector2D> {
    sel.iter().map(|i| m.records[*i].position).collect()
}

#[test]
fn query_by_ids_ignores_offset_and_limit() {
    let img = table();
    let m = model_of(&img);
    let mut q = DBQuery::new();
    q.offset(5).limit(0).ids(vec![Vector2D::new(20, 4), Vector2D::new(9, 9), Vector2D::new(2, 4)]);
    let sel = select_records(&m, &q.build());
    assert_eq!(positions(&m, &sel), vec![Vector2D::new(20, 4), Vector2D::new(2, 4)]);
}

#[test]
fn query_by_column_offset_limit() {
    let img = table();
    let m = model_of(&img);
    let all = select_records(&m, &DBQuery::new());
    assert_eq!(all.len(), 3);
    let mut q = DBQuery::new();
    q.column(String::from("#FF0000"));
    let red = select_records(&m, &q);
    assert_eq!(positions(&m, &red), vec![Vector2D::new(2, 4), Vector2D::new(2, 14)]);
    q.offset(1);
    assert_eq!(positions(&m, &select_records(&m, &q)), vec![Vector2D::new(2, 14)]);
    let mut q2 = DBQuery::new();
    q2.limit(1);
    assert_eq!(select_records(&m, &q2).len(), 1);
    let mut q3 = DBQuery::new();
    q3.offset(7);
    assert!(select_records(&m, &q3).is_empty());
}

#[test]
fn clone_goes_below_its_column() {
    let mut img = table();
    img.set_pixel(6, 8, &RGB::new(1, 2, 3));
    let mut m = model_of(&img);
    let t = types();
    let d = clone_record(&mut m, &mut img, &t, 2, 4).unwrap();
    assert_eq!(d.id, Vector2D::new(2, 29));
    assert_eq!(m.records.len(), 4);
    let c = m.get_by_id(2, 29).unwrap();
    assert_eq!(c.rb_position, Vector2D::new(7, 34));
    assert_eq!(c.fields[0].data_start, Vector2D::new(3, 30));
    assert_eq!(img.get_pixel(6, 33), RGB::new(1, 2, 3));
    assert_eq!(img.get_pixel(2, 29), meta());
    assert_eq!(img.get_pixel(6, 8), RGB::new(1, 2, 3));
    assert_eq!(d.fields.len(), 1);
}

#[test]
fn clone_moves_right_when_column_is_full() {
    let mut img = table();
    let mut m = model_of(&img);
    let t = types();
    let d = clone_record(&mut m, &mut img, &t, 2, 4).unwrap();
    assert_eq!(d.id, Vector2D::new(2, 29));
    let d = clone_record(&mut m, &mut img, &t, 2, 4).unwrap();
    assert_eq!(d.id, Vector2D::new(2, 44));
    let d = clone_record(&mut m, &mut img, &t, 2, 4).unwrap();
    assert_eq!(d.id, Vector2D::new(17, 14));
}

#[test]
fn clone_of_missing_record_fails() {
    let mut img = table();
    let mut m = model_of(&img);
    let t = types();
    assert!(matches!(clone_record(&mut m, &mut img, &t, 3, 3), Err(DataError::NotFound)));
    assert_eq!(m.records.len(), 3);
}

#[test]
fn placement_respects_bounds() {
    let img = table();
    let m = model_of(&img);
    let rec = m.get_by_id(20, 4).unwrap().duplicate();
    assert_eq!(place_clone(&m.records, &rec, 40, 60), Some((20, 19)));
    assert_eq!(place_clone(&m.records, &rec, 40, 20), None);
}

#[test]
fn service_reports_loading_then_serves() {
    let img = table();
    let mut db: DB<InMemoryImage> = DB::new(String::from("table.png"), types());
    db.set_progress(33);
    assert!(matches!(db.get_records(&DBQuery::new()), DBResult::StillLoading(33)));
    assert!(matches!(db.get_model(), DBResult::StillLoading(33)));
    assert!(matches!(db.clone_record(2, 4), DBResult::StillLoading(33)));
    assert!(matches!(db.set_field(2, 4, 0, DataValue::Null), DBResult::StillLoading(33)));
    let m = model_of(&img);
    db.set_model(m, img);
    match db.get_records(&DBQuery::new()) {
        DBResult::Ready(v) => {
            assert_eq!(v.len(), 3);
            assert_eq!(v[0].id, Vector2D::new(2, 4));
            assert_eq!(v[0].column, "#FF0000");
        },
        _ => panic!("not ready"),
    }
    match db.get_model() {
        DBResult::Ready(m) => assert_eq!(m.records.len(), 3),
        _ => panic!("not ready"),
    }
    assert!(matches!(db.clone_record(20, 4), DBResult::Ready(_)));
    db.reload();
    match db.get_model() {
        DBResult::Ready(m) => assert_eq!(m.records.len(), 4),
        _ => panic!("not ready"),
    }
}
