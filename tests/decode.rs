use badbee::assemble::load_model_into;
use badbee::blocks::BlocksMap;
use badbee::colors::RGB;
use badbee::datatypes::{DataTypes, BOOL_TYPE, IMAGE_TYPE};
use badbee::db::{set_field, to_data_record};
use badbee::font::BitmapFont;
use badbee::image::{sync_action, InMemoryImage, StorableImage, SyncAction};
use badbee::model::{Model, Vector2D};
use badbee::resolve::{find_connections, REFERENCE_TYPE};
use badbee::scan::scan_blocks;
use badbee::value::DataValue;

fn white() -> RGB {
    RGB::new(255, 255, 255)
}

fn meta() -> RGB {
    RGB::new(0xBA, 0xDB, 0xEE)
}

fn border(img: &mut InMemoryImage, x1: u32, y1: u32, x2: u32, y2: u32) {
    for x in x1..=x2 {
        img.set_pixel(x, y1, &meta());
        img.set_pixel(x, y2, &meta());
    }
    for y in y1..=y2 {
        img.set_pixel(x1, y, &meta());
        img.set_pixel(x2, y, &meta());
    }
}

fn stamp(img: &mut InMemoryImage, x: u32, y: u32, code: u16, c: RGB) {
    for k in 0..9u32 {
        if code & (256 >> k) != 0 {
            img.set_pixel(x + k % 3, y + k / 3, &c);
        }
    }
}

fn empty_font() -> BitmapFont {
    BitmapFont::open3x5(InMemoryImage::filled(4, 6, white()), "")
}

/// One boolean block: border (2,4)-(7,9), stamp above its right end.
fn boolean_grid() -> InMemoryImage {
    let mut img = InMemoryImage::filled(12, 12, white());
    border(&mut img, 2, 4, 7, 9);
    stamp(&mut img, 5, 1, BOOL_TYPE, RGB::new(0, 0, 0));
    img
}

#[test]
fn scanner_finds_bordered_block() {
    let img = boolean_grid();
    let (records, blocks) = scan_blocks(&img);
    assert_eq!(records.len(), 1);
    assert_eq!(blocks.len(), 1);
    let r = &records[0];
    assert_eq!(r.position, Vector2D::new(2, 4));
    assert_eq!(r.rb_position, Vector2D::new(7, 9));
    assert_eq!(r.column, "#FFFFFF");
    let f = r.fields[0];
    assert_eq!(f.field_type.0, BOOL_TYPE);
    assert_eq!(f.data_start, Vector2D::new(3, 5));
    assert_eq!(f.data_end, Vector2D::new(6, 8));
    assert_eq!(f.type_start, Vector2D::new(5, 1));
    assert!(f.ref_to_record.is_none());
}

#[test]
fn scanner_ignores_grid_without_markers() {
    let img = InMemoryImage::filled(20, 20, white());
    let (records, _) = scan_blocks(&img);
    assert!(records.is_empty());
}

#[test]
fn blank_stamp_falls_back_to_payload() {
    let mut img = InMemoryImage::filled(12, 12, white());
    border(&mut img, 2, 4, 9, 11);
    stamp(&mut img, 3, 5, 0b111_100_111, RGB::new(9, 9, 9));
    let (records, _) = scan_blocks(&img);
    assert_eq!(records[0].fields[0].field_type.0, 0b111_100_111);
}

#[test]
fn boolean_field_round_trip() {
    let mut img = boolean_grid();
    let mut model = Model::new();
    load_model_into(&mut model, &img);
    assert_eq!(model.records.len(), 1);
    let types = DataTypes::new(empty_font());
    let rec = model.records[0].duplicate();
    let before = to_data_record(&types, &rec, &img).unwrap();
    assert!(matches!(before.fields[0].value, DataValue::Boolean { value: false }));
    assert!(set_field(&model, &mut img, &types, 2, 4, 0, DataValue::Boolean { value: true }).is_ok());
    let after = to_data_record(&types, &rec, &img).unwrap();
    assert!(matches!(after.fields[0].value, DataValue::Boolean { value: true }));
    assert_eq!(img.get_pixel(3, 5), RGB::new(0, 255, 0));
    assert_eq!(img.get_pixel(6, 8), RGB::new(0, 255, 0));
    assert_eq!(img.get_pixel(2, 4), meta());
}

#[test]
fn set_field_reports_missing_record() {
    let mut img = boolean_grid();
    let mut model = Model::new();
    load_model_into(&mut model, &img);
    let types = DataTypes::new(empty_font());
    let r = set_field(&model, &mut img, &types, 3, 3, 0, DataValue::Boolean { value: true });
    assert!(matches!(r, Err(badbee::model::DataError::NotFound)));
    let r = set_field(&model, &mut img, &types, 2, 4, 1, DataValue::Boolean { value: true });
    assert!(matches!(r, Err(badbee::model::DataError::NotFound)));
}

#[test]
fn corridor_merges_blocks() {
    let mut img = InMemoryImage::filled(30, 16, white());
    border(&mut img, 2, 4, 7, 9);
    border(&mut img, 14, 4, 19, 9);
    for x in 5..17 {
        img.set_pixel(x, 11, &meta());
    }
    img.set_pixel(5, 10, &meta());
    img.set_pixel(16, 10, &meta());
    let (_, blocks) = scan_blocks(&img);
    assert_eq!(blocks.len(), 2);
    let conn = find_connections(&img, &blocks);
    assert_eq!(conn, vec![None, Some(0)]);
    let mut model = Model::new();
    load_model_into(&mut model, &img);
    assert_eq!(model.records.len(), 1);
    let r = &model.records[0];
    assert_eq!(r.position, Vector2D::new(2, 4));
    assert_eq!(r.fields.len(), 2);
    assert_eq!(r.rb_position, Vector2D::new(19, 9));
    assert_eq!(r.fields[1].data_start, Vector2D::new(15, 5));
}

#[test]
fn separate_blocks_stay_separate() {
    let mut img = InMemoryImage::filled(30, 16, white());
    border(&mut img, 2, 4, 7, 9);
    border(&mut img, 14, 4, 19, 9);
    let (_, blocks) = scan_blocks(&img);
    let conn = find_connections(&img, &blocks);
    assert_eq!(conn, vec![None, None]);
    let mut model = Model::new();
    load_model_into(&mut model, &img);
    assert_eq!(model.records.len(), 2);
    assert_eq!(model.records[0].position, Vector2D::new(2, 4));
    assert_eq!(model.records[1].position, Vector2D::new(14, 4));
    assert!(model.get_by_id(14, 4).is_some());
    assert!(model.get_by_id(14, 5).is_none());
}

#[test]
fn reference_points_at_target_block() {
    let mut img = InMemoryImage::filled(24, 16, white());
    border(&mut img, 2, 6, 7, 11);
    stamp(&mut img, 5, 3, REFERENCE_TYPE, RGB::new(200, 0, 0));
    border(&mut img, 10, 2, 14, 6);
    let (records, _) = scan_blocks(&img);
    assert_eq!(records.len(), 2);
    let mut model = Model::new();
    load_model_into(&mut model, &img);
    let a = model.get_by_id(2, 6).unwrap();
    let b = model.get_by_id(10, 2).unwrap();
    let f = a.fields[0];
    assert_eq!(f.ref_to_record, Some(Vector2D::new(10, 2)));
    assert_eq!(f.field_type, b.fields[0].field_type);
    assert_eq!(f.field_type.0, IMAGE_TYPE);
    assert_eq!(f.data_start, b.fields[0].data_start);
    assert_eq!(f.data_end, b.fields[0].data_end);
    let types = DataTypes::new(empty_font());
    let before = img.get_pixel(11, 3);
    let r = set_field(&model, &mut img, &types, 2, 6, 0, DataValue::Boolean { value: true });
    assert!(matches!(r, Err(badbee::model::DataError::Incompatible(badbee::model::IncompatibleError::InvalidDataType))));
    assert_eq!(img.get_pixel(11, 3), before);
}

#[test]
fn tile_index_finds_blocks_across_tiles() {
    let mut img = InMemoryImage::filled(1100, 40, white());
    border(&mut img, 1010, 4, 1040, 20);
    border(&mut img, 2, 4, 7, 9);
    let (records, blocks) = scan_blocks(&img);
    assert_eq!(records.len(), 2);
    assert!(blocks.get_block(1030, 10).is_some());
    assert!(blocks.get_block(1023, 4).is_some());
    assert!(blocks.get_block(1041, 10).is_none());
    let empty = BlocksMap::new();
    assert!(empty.get_block(0, 0).is_none());
}

#[test]
fn reference_takes_lowest_numbered_target() {
    let mut img = InMemoryImage::filled(24, 16, white());
    border(&mut img, 2, 6, 7, 11);
    stamp(&mut img, 5, 3, REFERENCE_TYPE, RGB::new(200, 0, 0));
    img.set_pixel(8, 7, &RGB::new(200, 0, 0));
    border(&mut img, 10, 2, 14, 6);
    border(&mut img, 10, 9, 14, 13);
    let (records, _) = scan_blocks(&img);
    assert_eq!(records.len(), 3);
    let mut model = Model::new();
    load_model_into(&mut model, &img);
    let a = model.get_by_id(2, 6).unwrap();
    assert_eq!(a.fields[0].ref_to_record, Some(Vector2D::new(10, 2)));
}

#[test]
fn sync_decision() {
    assert_eq!(sync_action(true, true), SyncAction::Save);
    assert_eq!(sync_action(false, true), SyncAction::Reload);
    assert_eq!(sync_action(false, false), SyncAction::Keep);
}
