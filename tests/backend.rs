use badbee::colors::RGB;
use badbee::dog::DogModel;
use badbee::model::Vector2D;
use badbee::db::DBResult;
use badbee::text::{get_name, vec2id};

#[test]
fn it_works() {
    assert_eq!(2 + 2, 4);
}

#[test]
fn name_is_fixed() {
    assert_eq!(get_name(), "alex");
}

#[test]
fn hex_color_is_upper_case() {
    assert_eq!(RGB::new(0xBA, 0xDB, 0xEE).to_hex_color(), "#BADBEE");
    assert_eq!(RGB::new(0, 10, 255).to_hex_color(), "#000AFF");
}

#[test]
fn hex_color_reads_back() {
    let c = RGB::new(0x12, 0xab, 0xff);
    assert_eq!(RGB::from_hex(&c.to_hex_color()), Some(c));
    assert_eq!(RGB::from_hex(&String::from("#00a2e8")), Some(RGB::new(0, 0xA2, 0xE8)));
    assert_eq!(RGB::from_hex(&String::from("00A2E8")), None);
    assert_eq!(RGB::from_hex(&String::from("#00A2G8")), None);
}

#[test]
fn pixel_classes() {
    assert!(RGB::new(255, 255, 255).is_blank());
    assert!(RGB::new(0xBA, 0xDB, 0xEE).is_meta());
    assert!(RGB::new(1, 2, 3).is_data());
    assert!(!RGB::new(255, 255, 255).is_data());
    assert!(!RGB::new(0xBA, 0xDB, 0xEE).is_data());
}

#[test]
fn marker_colour_is_reserved() {
    let m = RGB::meta_color();
    assert_eq!(m.to_hex_color(), "#BADBEE");
    assert!(m.is_meta());
    assert!(RGB::blank_color().is_blank());
    assert!(RGB::green().is_data());
}

#[test]
fn vectors_move_by_offsets() {
    let mut v = Vector2D::new(3, 4);
    v.add_assign(Vector2D::new(10, 20));
    assert_eq!(v, Vector2D::new(13, 24));
}

#[test]
fn dog_name_is_sixth_field() {
    assert_eq!(DogModel::name_field_idx(), 5);
}

#[test]
fn ids_are_written_x_slash_y() {
    assert_eq!(vec2id(Vector2D::new(10, 2)), "10/2");
    assert_eq!(vec2id(Vector2D::new(0, 4294967295)), "0/4294967295");
}

#[test]
fn ready_answers_unwrap() {
    assert_eq!(DBResult::<u32>::Ready(5).unwrap(), 5);
}
