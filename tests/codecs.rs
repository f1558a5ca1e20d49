use badbee::abc::ABCDataType;
use badbee::codecs::{
    read_boolean, read_color, read_flood, read_histogram, read_image, write_boolean, write_color,
    write_image, write_pixels_rgb,
};
use badbee::colors::RGB;
use badbee::counter::read_counter;
use badbee::datatypes::{DataTypes, ABC_TYPE, BOOL_TYPE, COUNTER_TYPE, FLOOD_TYPE, PIE_TYPE};
use badbee::font::BitmapFont;
use badbee::image::{ImageView, InMemoryImage, StorableImage};
use badbee::model::{DataError, Field, FieldType, IncompatibleError, Vector2D};
use badbee::pie::write_histogram;
use badbee::resolve::REFERENCE_TYPE;
use badbee::value::DataValue;

fn white() -> RGB {
    RGB::new(255, 255, 255)
}

fn view(x: u32, y: u32, x2: u32, y2: u32) -> ImageView {
    ImageView::new(Vector2D::new(x, y), Vector2D::new(x2, y2))
}

fn field(code: u16) -> Field {
    Field {
        field_type: FieldType(code),
        data_start: Vector2D::new(0, 0),
        data_end: Vector2D::new(0, 0),
        type_start: Vector2D::new(0, 0),
        ref_to_record: None,
    }
}

/// A sheet with glyphs for "A" (a frame) and "B" (a bar), one column each.
fn font() -> BitmapFont {
    let mut sheet = InMemoryImage::filled(8, 6, white());
    let ink = RGB::new(0, 0, 0);
    for y in 0..5 {
        sheet.set_pixel(0, y, &ink);
        sheet.set_pixel(2, y, &ink);
        sheet.set_pixel(4, y, &ink);
    }
    sheet.set_pixel(1, 0, &ink);
    sheet.set_pixel(1, 4, &ink);
    BitmapFont::open3x5(sheet, "AB")
}

#[test]
fn boolean_reads_top_left_pixel() {
    let mut img = InMemoryImage::filled(6, 6, white());
    let v = view(1, 1, 4, 4);
    assert!(matches!(read_boolean(&v, &img), Ok(DataValue::Boolean { value: false })));
    img.set_pixel(1, 1, &RGB::new(3, 3, 3));
    assert!(matches!(read_boolean(&v, &img), Ok(DataValue::Boolean { value: true })));
}

#[test]
fn boolean_write_rejects_other_values() {
    let mut img = InMemoryImage::filled(6, 6, white());
    let v = view(1, 1, 4, 4);
    let r = write_boolean(&v, &mut img, DataValue::Int { value: 1 });
    assert!(matches!(r, Err(DataError::Incompatible(IncompatibleError::InvalidDataType))));
    assert_eq!(img.get_pixel(1, 1), white());
    assert!(write_boolean(&v, &mut img, DataValue::Boolean { value: true }).is_ok());
    assert_eq!(img.get_pixel(4, 4), RGB::new(0, 255, 0));
    assert_eq!(img.get_pixel(5, 5), white());
    assert!(write_boolean(&v, &mut img, DataValue::Boolean { value: false }).is_ok());
    assert_eq!(img.get_pixel(4, 4), white());
}

#[test]
fn color_round_trip() {
    let mut img = InMemoryImage::filled(6, 6, white());
    let v = view(2, 2, 3, 3);
    let c = RGB::new(10, 20, 30);
    assert!(write_color(&v, &mut img, DataValue::Color { value: c }).is_ok());
    assert!(matches!(read_color(&v, &img), Ok(DataValue::Color { value }) if value == c));
    assert_eq!(img.get_pixel(3, 3), c);
    assert_eq!(img.get_pixel(1, 1), white());
}

#[test]
fn flood_is_exact_fraction() {
    let mut img = InMemoryImage::filled(4, 4, white());
    let v = view(0, 0, 3, 1);
    img.set_pixel(0, 0, &RGB::new(1, 1, 1));
    img.set_pixel(3, 1, &RGB::new(1, 1, 1));
    img.set_pixel(2, 1, &RGB::new(0xBA, 0xDB, 0xEE));
    assert!(matches!(read_flood(&v, &img), Ok(DataValue::Float { numerator: 2, denominator: 8 })));
}

#[test]
fn counter_counts_groups() {
    let mut img = InMemoryImage::filled(6, 6, white());
    let v = view(0, 0, 5, 5);
    assert!(matches!(read_counter(&v, &img), Ok(DataValue::Int { value: 0 })));
    let d = RGB::new(5, 5, 5);
    img.set_pixel(0, 0, &d);
    img.set_pixel(1, 0, &d);
    img.set_pixel(1, 1, &d);
    img.set_pixel(4, 4, &d);
    img.set_pixel(3, 0, &RGB::new(9, 0, 0));
    assert!(matches!(read_counter(&v, &img), Ok(DataValue::Int { value: 3 })));
}

#[test]
fn histogram_counts_each_colour() {
    let mut img = InMemoryImage::filled(3, 2, white());
    let red = RGB::new(255, 0, 0);
    img.set_pixel(0, 0, &red);
    img.set_pixel(2, 1, &red);
    let v = view(0, 0, 2, 1);
    match read_histogram(&v, &img) {
        Ok(DataValue::Histogram { value, total }) => {
            assert_eq!(total, 6);
            assert_eq!(value, vec![(red, 2), (white(), 4)]);
        },
        _ => panic!("no histogram"),
    }
}

#[test]
fn histogram_write_paints_runs_column_major() {
    let mut img = InMemoryImage::filled(3, 2, RGB::new(7, 7, 7));
    let v = view(0, 0, 2, 1);
    let red = RGB::new(255, 0, 0);
    let blue = RGB::new(0, 0, 255);
    let value = DataValue::Histogram { value: vec![(red, 3), (blue, 2)], total: 6 };
    assert!(write_histogram(&v, &mut img, value).is_ok());
    assert_eq!(img.get_pixel(0, 0), red);
    assert_eq!(img.get_pixel(0, 1), red);
    assert_eq!(img.get_pixel(1, 0), red);
    assert_eq!(img.get_pixel(1, 1), blue);
    assert_eq!(img.get_pixel(2, 0), blue);
    assert_eq!(img.get_pixel(2, 1), white());
    match read_histogram(&v, &img) {
        Ok(DataValue::Histogram { value, .. }) => assert_eq!(value, vec![(red, 3), (blue, 2), (white(), 1)]),
        _ => panic!("no histogram"),
    }
}

#[test]
fn image_read_then_write_round_trip() {
    let mut src = InMemoryImage::filled(5, 5, white());
    src.set_pixel(1, 1, &RGB::new(1, 2, 3));
    src.set_pixel(2, 3, &RGB::new(200, 100, 50));
    let v = view(1, 1, 3, 3);
    let value = read_image(&v, &src).unwrap();
    let url = match &value {
        DataValue::Image { width, height, data_url } => {
            assert_eq!((*width, *height), (3, 3));
            assert!(data_url.starts_with("data:image/png;base64,"));
            assert!(data_url.len() > "data:image/png;base64,".len());
            data_url.clone()
        },
        _ => panic!("no image"),
    };
    let mut dst = InMemoryImage::filled(4, 4, RGB::new(9, 9, 9));
    let w = view(0, 0, 2, 2);
    assert!(write_image(&w, &mut dst, DataValue::Image { width: 3, height: 3, data_url: url }).is_ok());
    assert_eq!(dst.get_pixel(0, 0), RGB::new(1, 2, 3));
    assert_eq!(dst.get_pixel(1, 2), RGB::new(200, 100, 50));
    assert_eq!(dst.get_pixel(2, 2), white());
    assert_eq!(dst.get_pixel(3, 3), RGB::new(9, 9, 9));
}

#[test]
fn image_write_rejects_wrong_size_and_text() {
    let mut dst = InMemoryImage::filled(4, 4, white());
    let w = view(0, 0, 2, 2);
    let r = write_image(&w, &mut dst, DataValue::Image { width: 2, height: 3, data_url: String::from("x") });
    assert!(matches!(r, Err(DataError::Incompatible(IncompatibleError::InvalidSize))));
    let r = write_image(&w, &mut dst, DataValue::Image { width: 3, height: 3, data_url: String::from("data:text/plain,x") });
    assert!(matches!(r, Err(DataError::Incompatible(IncompatibleError::CannotParseValue(_)))));
    let r = write_image(&w, &mut dst, DataValue::Image { width: 3, height: 3, data_url: String::from("data:image/png;base64,@@@") });
    assert!(matches!(r, Err(DataError::Incompatible(IncompatibleError::CannotParseValue(_)))));
}

#[test]
fn pixel_copy_is_row_major() {
    let mut dst = InMemoryImage::filled(3, 3, white());
    let raw: Vec<u8> = vec![1, 1, 1, 2, 2, 2, 3, 3, 3, 4, 4, 4];
    write_pixels_rgb(&view(1, 1, 2, 2), &mut dst, &raw);
    assert_eq!(dst.get_pixel(2, 1), RGB::new(2, 2, 2));
    assert_eq!(dst.get_pixel(1, 2), RGB::new(3, 3, 3));
}

#[test]
fn text_round_trip() {
    let abc = ABCDataType::new(font());
    let mut img = InMemoryImage::filled(16, 8, white());
    let v = view(0, 0, 15, 7);
    assert!(abc.write(&v, &mut img, DataValue::String { value: String::from("AB") }).is_ok());
    match abc.read(&v, &img) {
        Ok(DataValue::String { value }) => assert_eq!(value, "AB"),
        _ => panic!("no text"),
    }
}

#[test]
fn text_of_blank_field_is_empty() {
    let abc = ABCDataType::new(font());
    let img = InMemoryImage::filled(16, 8, white());
    match abc.read(&view(0, 0, 15, 7), &img) {
        Ok(DataValue::String { value }) => assert_eq!(value, ""),
        _ => panic!("no text"),
    }
}

#[test]
fn registry_dispatches_by_code() {
    let types = DataTypes::new(font());
    let mut img = InMemoryImage::filled(4, 4, white());
    let v = view(0, 0, 3, 3);
    assert!(matches!(types.read(&v, &img, &field(BOOL_TYPE)), Ok(DataValue::Boolean { value: false })));
    assert!(matches!(types.read(&v, &img, &field(REFERENCE_TYPE)), Ok(DataValue::Null)));
    assert!(matches!(types.read(&v, &img, &field(FLOOD_TYPE)), Ok(DataValue::Float { numerator: 0, denominator: 16 })));
    assert!(matches!(types.read(&v, &img, &field(0b000_000_001)), Err(DataError::UnknownType(FieldType(1)))));
    assert!(matches!(types.read(&v, &img, &field(ABC_TYPE)), Ok(DataValue::String { .. })));
    assert!(matches!(types.read(&v, &img, &field(PIE_TYPE)), Ok(DataValue::Histogram { .. })));
    let r = types.write(&v, &mut img, &field(REFERENCE_TYPE), DataValue::Boolean { value: true });
    assert!(matches!(r, Err(DataError::Incompatible(IncompatibleError::InvalidDataType))));
    let r = types.write(&v, &mut img, &field(COUNTER_TYPE), DataValue::Int { value: 1 });
    assert!(matches!(r, Err(DataError::NotImplemented)));
    let r = types.write(&v, &mut img, &field(0b000_000_011), DataValue::Int { value: 1 });
    assert!(matches!(r, Err(DataError::UnknownType(FieldType(3)))));
    assert_eq!(types.get_preferred_type(&DataValue::Int { value: 3 }), Some(FieldType(COUNTER_TYPE)));
    assert_eq!(types.get_preferred_type(&DataValue::Null), None);
}

#[test]
fn view_clips_outside_pixels() {
    let mut img = InMemoryImage::filled(5, 5, white());
    let v = view(1, 1, 2, 2);
    assert!(v.set_pixel(&mut img, 2, 0, RGB::new(1, 1, 1)).is_err());
    assert!(v.set_pixel(&mut img, 1, 1, RGB::new(1, 1, 1)).is_ok());
    assert_eq!(img.get_pixel(2, 2), RGB::new(1, 1, 1));
    assert_eq!(v.get_pixel(&img, 5, 5), white());
    let all = ImageView::from(&img);
    assert_eq!((all.width, all.height), (5, 5));
}
