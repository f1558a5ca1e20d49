use badbee::colors::RGB;
use badbee::paging::{parse_header, read_u32_le, BMPParams, BMPSlice, StripCache};

fn header(width: u32, height: u32, offset: u32) -> Vec<u8> {
    let mut h = vec![0u8; 54];
    h[0] = b'B';
    h[1] = b'M';
    h[10..14].copy_from_slice(&offset.to_le_bytes());
    h[18..22].copy_from_slice(&width.to_le_bytes());
    h[22..26].copy_from_slice(&height.to_le_bytes());
    h
}

fn params(height: u32) -> BMPParams {
    parse_header(&header(2, height, 54)).unwrap()
}

#[test]
fn header_fields_and_padding() {
    let p = parse_header(&header(5, 7, 54)).unwrap();
    assert_eq!((p.width, p.height, p.data_offset, p.data_padding), (5, 7, 54, 1));
    let p = parse_header(&header(4, 1, 122)).unwrap();
    assert_eq!(p.data_padding, 0);
    assert!(parse_header(&vec![0u8; 20]).is_none());
    assert_eq!(read_u32_le(&vec![1, 2, 3, 4], 0), 0x04030201);
}

#[test]
fn slice_stores_bgr_rows() {
    let p = params(3);
    let mut s = BMPSlice::new(0, 3, p);
    assert_eq!(s.capacity(), 3 * 8);
    assert_eq!(s.seek(), 54);
    s.fill(vec![0u8; 24], 1);
    s.set_pixel(1, 2, &RGB::new(10, 20, 30));
    assert!(s.is_dirty());
    assert_eq!(s.get_pixel(1, 2), RGB::new(10, 20, 30));
    assert_eq!(&s.data().unwrap()[16 + 3..16 + 6], &[30, 20, 10]);
    s.mark_saved();
    s.unload();
    assert!(!s.is_loaded());
}

#[test]
fn strips_are_located_bottom_up() {
    let c = StripCache::new(params(2500));
    assert_eq!(c.len(), 3);
    assert_eq!(c.locate(0), Some((2, 2499)));
    assert_eq!(c.locate(2499), Some((0, 0)));
    assert_eq!(c.locate(2500), None);
}

fn load_all(c: &mut StripCache, n: usize) {
    for i in 0..n {
        let cap = c.capacity_of(i) as usize;
        c.load(i, vec![0u8; cap]);
    }
}

fn loaded(c: &StripCache) -> usize {
    (0..c.len()).filter(|i| c.slice(*i).is_loaded()).count()
}

#[test]
fn eviction_keeps_under_half_and_spares_dirty() {
    let mut c = StripCache::new(params(4 * 1024));
    load_all(&mut c, 4);
    assert_eq!(loaded(&c), 4);
    c.optimize();
    assert_eq!(loaded(&c), 1);
    assert!(c.slice(3).is_loaded());
}

#[test]
fn dirty_strips_stay_until_saved() {
    let mut c = StripCache::new(params(4 * 1024));
    load_all(&mut c, 4);
    assert_eq!(c.locate(4095), Some((0, 0)));
    assert!(c.set_pixel(1, 4095, &RGB::new(1, 2, 3)));
    assert_eq!(c.get_pixel(1, 4095), Some(RGB::new(1, 2, 3)));
    c.optimize();
    assert_eq!(loaded(&c), 1);
    assert!(c.slice(0).is_loaded());
    assert!(c.slice(0).is_dirty());
    assert_eq!(c.get_pixel(1, 0), None);
    assert!(!c.set_pixel(1, 0, &RGB::new(1, 2, 3)));
    c.mark_saved(0);
    for i in 1..3 {
        let cap = c.capacity_of(i) as usize;
        c.load(i, vec![0u8; cap]);
    }
    c.optimize();
    assert!(!c.slice(0).is_loaded());
    assert_eq!(loaded(&c), 1);
}

#[test]
fn two_strips_evict_to_none() {
    let mut d = StripCache::new(params(2 * 1024));
    load_all(&mut d, 2);
    d.optimize();
    assert_eq!(loaded(&d), 0);
}

#[test]
fn single_strip_is_never_evicted() {
    let mut c = StripCache::new(params(10));
    load_all(&mut c, 1);
    c.optimize();
    assert_eq!(loaded(&c), 1);
}

#[test]
fn strip_layout_after_opening() {
    let c = StripCache::new(params(2100));
    assert_eq!(c.len(), 3);
    assert_eq!((c.slice(0).y_from, c.slice(0).y_to_exclusive), (0, 1024));
    assert_eq!((c.slice(2).y_from, c.slice(2).y_to_exclusive), (2048, 2100));
    assert_eq!(c.get_pixel(0, 0), None);
}
