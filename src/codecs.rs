use vstd::prelude::*;

use crate::colors::{RGB, blank, data, white};
use crate::encoding::{base64_decoded, decode_base64, decode_png_rgb, png_decoded};
use crate::text::push_char;
use crate::image::{ImageView, StorableImage};
use crate::model::{DataError, IncompatibleError};
use crate::value::DataValue;

verus! {

/// `b` is `a` with nothing repainted.
pub open spec fn unchanged<I: StorableImage>(a: &I, b: &I) -> bool {
    &&& b.spec_width() == a.spec_width()
    &&& b.spec_height() == a.spec_height()
    &&& forall|i: int, j: int| #[trigger] b.spec_pixel(i, j) == a.spec_pixel(i, j)
}

/// `b` is `a` with the window of `v` painted in `c`.
pub open spec fn painted<I: StorableImage>(v: ImageView, a: &I, b: &I, c: RGB) -> bool {
    &&& b.spec_width() == a.spec_width()
    &&& b.spec_height() == a.spec_height()
    &&& forall|i: int, j: int| #[trigger]
        b.spec_pixel(i, j) == if v.covers(i, j) {
            c
        } else {
            a.spec_pixel(i, j)
        }
}

pub open spec fn green() -> RGB {
    RGB { r: 0, g: 255, b: 0 }
}

pub open spec fn wrong_type() -> DataError {
    DataError::Incompatible(IncompatibleError::InvalidDataType)
}

pub open spec fn wrong_size() -> DataError {
    DataError::Incompatible(IncompatibleError::InvalidSize)
}

pub fn invalid_type() -> (e: DataError)
    ensures
        e == wrong_type(),
{
    DataError::Incompatible(IncompatibleError::InvalidDataType)
}

pub fn invalid_size() -> (e: DataError)
    ensures
        e == wrong_size(),
{
    DataError::Incompatible(IncompatibleError::InvalidSize)
}

/// A boolean is true when the top-left pixel of the field is not background.
pub fn read_boolean<I: StorableImage>(view: &ImageView, img: &I) -> (r: Result<DataValue, DataError>)
    requires
        view.fits(img),
    ensures
        r == Ok::<DataValue, DataError>(DataValue::Boolean { value: !blank(view.at(img, 0, 0)) }),
{
    Ok(DataValue::Boolean { value: !view.get_pixel(img, 0, 0).is_blank() })
}

/// True paints the field green, false clears it to white.
pub fn write_boolean<I: StorableImage>(view: &ImageView, img: &mut I, value: DataValue) -> (r: Result<(), DataError>)
    requires
        view.fits(old(img)),
    ensures
        view.fits(final(img)),
        match value {
            DataValue::Boolean { value: b } => r is Ok && painted(
                *view,
                old(img),
                final(img),
                if b { green() } else { white() },
            ),
            _ => r == Err::<(), DataError>(wrong_type()) && unchanged(old(img), final(img)),
        },
{
    match value {
        DataValue::Boolean { value } => {
            if value {
                view.fill(img, &RGB::green());
            } else {
                view.clear(img);
            }
            Ok(())
        },
        _ => Err(invalid_type()),
    }
}

/// A colour is the colour of the top-left pixel of the field.
pub fn read_color<I: StorableImage>(view: &ImageView, img: &I) -> (r: Result<DataValue, DataError>)
    requires
        view.fits(img),
    ensures
        r == Ok::<DataValue, DataError>(DataValue::Color { value: view.at(img, 0, 0) }),
{
    Ok(DataValue::Color { value: view.get_pixel(img, 0, 0) })
}

/// Paints the whole field in the colour.
pub fn write_color<I: StorableImage>(view: &ImageView, img: &mut I, value: DataValue) -> (r: Result<(), DataError>)
    requires
        view.fits(old(img)),
    ensures
        view.fits(final(img)),
        match value {
            DataValue::Color { value: c } => r is Ok && painted(*view, old(img), final(img), c),
            _ => r == Err::<(), DataError>(wrong_type()) && unchanged(old(img), final(img)),
        },
{
    match value {
        DataValue::Color { value } => {
            view.fill(img, &value);
            Ok(())
        },
        _ => Err(invalid_type()),
    }
}

/// Number of pixels of column `x` among the first `rows` that satisfy `p`.
pub open spec fn col_count<I: StorableImage>(v: ImageView, img: &I, p: spec_fn(RGB) -> bool, x: int, rows: int) -> int
    decreases rows,
{
    if rows <= 0 {
        0
    } else {
        col_count(v, img, p, x, rows - 1) + if p(v.at(img, x, rows - 1)) {
            1int
        } else {
            0
        }
    }
}

/// Number of pixels of the first `cols` columns of the window that satisfy `p`.
pub open spec fn area_count<I: StorableImage>(v: ImageView, img: &I, p: spec_fn(RGB) -> bool, cols: int) -> int
    decreases cols,
{
    if cols <= 0 {
        0
    } else {
        area_count(v, img, p, cols - 1) + col_count(v, img, p, cols - 1, v.height as int)
    }
}

pub open spec fn is_data() -> spec_fn(RGB) -> bool {
    |c: RGB| data(c)
}

pub open spec fn is_color(c: RGB) -> spec_fn(RGB) -> bool {
    |d: RGB| d == c
}

proof fn lemma_col_count_bound<I: StorableImage>(v: ImageView, img: &I, p: spec_fn(RGB) -> bool, x: int, rows: int)
    requires
        rows >= 0,
    ensures
        0 <= col_count(v, img, p, x, rows) <= rows,
    decreases rows,
{
    if rows > 0 {
        lemma_col_count_bound(v, img, p, x, rows - 1);
    }
}

proof fn lemma_area_count_bound<I: StorableImage>(v: ImageView, img: &I, p: spec_fn(RGB) -> bool, cols: int)
    requires
        cols >= 0,
    ensures
        0 <= area_count(v, img, p, cols) <= cols * v.height,
    decreases cols,
{
    if cols > 0 {
        lemma_area_count_bound(v, img, p, cols - 1);
        lemma_col_count_bound(v, img, p, cols - 1, v.height as int);
        assert((cols - 1) * v.height + v.height == cols * v.height) by (nonlinear_arith);
    }
}

/// The share of payload pixels in the field, as an exact fraction of its area.
pub fn read_flood<I: StorableImage>(view: &ImageView, img: &I) -> (r: Result<DataValue, DataError>)
    requires
        view.fits(img),
    ensures
        r == Ok::<DataValue, DataError>(
            DataValue::Float {
                numerator: area_count(*view, img, is_data(), view.width as int) as u64,
                denominator: (view.width * view.height) as u64,
            },
        ),
{
    let mut pixels: u64 = 0;
    let mut flood: u64 = 0;
    let mut x: u32 = 0;
    while x < view.width
        invariant
            view.fits(img),
            x <= view.width,
            pixels == x * view.height,
            flood == area_count(*view, img, is_data(), x as int),
        decreases view.width - x,
    {
        let mut y: u32 = 0;
        while y < view.height
            invariant
                view.fits(img),
                x < view.width,
                y <= view.height,
                pixels == x * view.height + y,
                flood == area_count(*view, img, is_data(), x as int) + col_count(*view, img, is_data(), x as int, y as int),
            decreases view.height - y,
        {
            proof {
                lemma_area_count_bound(*view, img, is_data(), x as int);
                lemma_col_count_bound(*view, img, is_data(), x as int, y as int);
                assert(x * view.height + y + 1 <= u64::MAX) by (nonlinear_arith)
                    requires
                        x < view.width,
                        y < view.height,
                        view.width <= u32::MAX,
                        view.height <= u32::MAX,
                ;
                assert(x * view.height <= u64::MAX) by (nonlinear_arith)
                    requires
                        x < view.width,
                        view.width <= u32::MAX,
                        view.height <= u32::MAX,
                ;
            }
            pixels = pixels + 1;
            if view.get_pixel(img, x, y).is_data() {
                flood = flood + 1;
            }
            y = y + 1;
        }
        proof {
            assert((x + 1) * view.height == x * view.height + view.height) by (nonlinear_arith);
        }
        x = x + 1;
    }
    Ok(DataValue::Float { numerator: flood, denominator: pixels })
}

/// The text in front of the base64 data of an image value.
pub open spec fn png_url_prefix() -> Seq<char> {
    "data:image/png;base64,"@
}

/// The field as a PNG data URL, with its size.
pub fn read_image<I: StorableImage>(view: &ImageView, img: &I) -> (r: Result<DataValue, DataError>)
    requires
        view.fits(img),
    ensures
        r matches Ok(DataValue::Image { width, height, data_url }) && width == view.width && height
            == view.height && data_url@ == png_url_prefix() + img.spec_base64(
            view.x as int,
            view.y as int,
            view.width as int,
            view.height as int,
        ),
{
    let mut url = String::from_str("data:image/png;base64,");
    let b64 = view.get_base64(img);
    url.append(b64.as_str());
    Ok(DataValue::Image { width: view.width, height: view.height, data_url: url })
}

/// The colour of pixel `k` of a row-major RGB buffer.
pub open spec fn rgb_at(raw: Seq<u8>, k: int) -> RGB {
    RGB { r: raw[3 * k], g: raw[3 * k + 1], b: raw[3 * k + 2] }
}

/// `b` is `a` with the window of `v` painted from the row-major RGB buffer `raw`.
pub open spec fn copied<I: StorableImage>(v: ImageView, a: &I, b: &I, raw: Seq<u8>) -> bool {
    &&& b.spec_width() == a.spec_width()
    &&& b.spec_height() == a.spec_height()
    &&& forall|i: int, j: int| #[trigger]
        b.spec_pixel(i, j) == if v.covers(i, j) {
            rgb_at(raw, (j - v.y) * v.width + (i - v.x))
        } else {
            a.spec_pixel(i, j)
        }
}

/// Copies a row-major RGB buffer of the window's size into the window.
pub fn write_pixels_rgb<I: StorableImage>(view: &ImageView, img: &mut I, raw: &Vec<u8>)
    requires
        view.fits(old(img)),
        raw@.len() >= view.width as int * view.height as int * 3,
    ensures
        view.fits(final(img)),
        copied(*view, old(img), final(img), raw@),
{
    let ghost start = *old(img);
    let w = view.width;
    let h = view.height;
    let len = raw.len();
    let mut xx: u32 = 0;
    while xx < w
        invariant
            len == raw@.len(),
            view.fits(img),
            w == view.width,
            h == view.height,
            raw@.len() >= w as int * h as int * 3,
            img.spec_width() == start.spec_width(),
            img.spec_height() == start.spec_height(),
            xx <= w,
            forall|i: int, j: int| #[trigger]
                img.spec_pixel(i, j) == if view.covers(i, j) && i - view.x < xx {
                    rgb_at(raw@, (j - view.y) * w + (i - view.x))
                } else {
                    start.spec_pixel(i, j)
                },
        decreases w - xx,
    {
        let mut yy: u32 = 0;
        while yy < h
            invariant
                len == raw@.len(),
                view.fits(img),
                w == view.width,
                h == view.height,
                raw@.len() >= w as int * h as int * 3,
                img.spec_width() == start.spec_width(),
                img.spec_height() == start.spec_height(),
                xx < w,
                yy <= h,
                forall|i: int, j: int| #[trigger]
                    img.spec_pixel(i, j) == if view.covers(i, j) && (i - view.x < xx || (i - view.x == xx
                        && j - view.y < yy)) {
                        rgb_at(raw@, (j - view.y) * w + (i - view.x))
                    } else {
                        start.spec_pixel(i, j)
                    },
            decreases h - yy,
        {
            proof {
                assert(3 * (yy * w + xx) + 2 < w * h * 3) by (nonlinear_arith)
                    requires
                        xx < w,
                        yy < h,
                ;
                assert(3 * (yy * w + xx) + 2 <= usize::MAX) by (nonlinear_arith)
                    requires
                        3 * (yy * w + xx) + 2 < w * h * 3,
                        w * h * 3 <= raw@.len(),
                        raw@.len() == len,
                        len <= usize::MAX,
                ;
            }
            let k = 3 * (yy as usize * w as usize + xx as usize);
            let c = RGB::new(raw[k], raw[k + 1], raw[k + 2]);
            assert(c == rgb_at(raw@, yy * w + xx));
            let _ = view.set_pixel(img, xx, yy, c);
            yy = yy + 1;
        }
        xx = xx + 1;
    }
}

/// The base64 part of a PNG data URL, if the text is one.
fn strip_png_prefix(url: &String) -> (r: Option<String>)
    ensures
        r matches Some(rest) ==> png_payload(url@) == Some(rest@),
        r is None ==> png_payload(url@) is None,
{
    let prefix = "data:image/png;base64,";
    proof {
        reveal_strlit("data:image/png;base64,");
    }
    let n = prefix.unicode_len();
    let m = url.unicode_len();
    if m < n {
        return None;
    }
    let mut i: usize = 0;
    while i < n
        invariant
            n == prefix@.len(),
            m == url@.len(),
            n <= m,
            i <= n,
            prefix@ == png_url_prefix(),
            forall|k: int| 0 <= k < i ==> url@[k] == prefix@[k],
        decreases n - i,
    {
        if url.get_char(i) != prefix.get_char(i) {
            assert(url@.subrange(0, n as int)[i as int] != png_url_prefix()[i as int]);
            return None;
        }
        i = i + 1;
    }
    let rest = url.substring_char(n, m);
    let mut out = String::new();
    out.append(rest);
    assert(url@.subrange(0, n as int) =~= png_url_prefix());
    assert(out@ =~= url@.subrange(n as int, m as int));
    Some(out)
}

pub open spec fn cannot_parse(e: DataError) -> bool {
    e matches DataError::Incompatible(IncompatibleError::CannotParseValue(_))
}

/// The text of `url` after the PNG data URL prefix, if it has the prefix.
pub open spec fn png_payload(url: Seq<char>) -> Option<Seq<char>> {
    let n = png_url_prefix().len() as int;
    if n <= url.len() && url.subrange(0, n) == png_url_prefix() {
        Some(url.subrange(n, url.len() as int))
    } else {
        None
    }
}

/// What writing the image value `(width, height, url)` through `v` does: a
/// size other than the window's, or a decoded picture of another size, is
/// `InvalidSize`; text without the prefix, or that the base64 or PNG
/// decoder refuses, cannot be parsed; otherwise the decoded pixels are
/// copied in. Every error leaves the store unchanged.
pub open spec fn image_written<I: StorableImage>(v: ImageView, a: &I, b: &I, width: u32, height: u32, url: Seq<char>, r: Result<(), DataError>) -> bool {
    &&& r is Err ==> unchanged(a, b)
    &&& if width != v.width || height != v.height {
        r == Err::<(), DataError>(wrong_size())
    } else {
        match png_payload(url) {
            None => r is Err && cannot_parse(r->Err_0),
            Some(t) => match base64_decoded(t) {
                None => r is Err && cannot_parse(r->Err_0),
                Some(bytes) => match png_decoded(bytes) {
                    None => r is Err && cannot_parse(r->Err_0),
                    Some((w, h, raw)) => if w != width || h != height {
                        r == Err::<(), DataError>(wrong_size())
                    } else {
                        r is Ok && copied(v, a, b, raw)
                    },
                },
            },
        }
    }
}

/// Decodes a PNG data URL of the window's size and copies its pixels in.
/// The value's size must match the window; text that is no PNG data URL,
/// or a picture of another size, is refused and nothing is painted.
pub fn write_image<I: StorableImage>(view: &ImageView, img: &mut I, value: DataValue) -> (r: Result<(), DataError>)
    requires
        view.fits(old(img)),
    ensures
        view.fits(final(img)),
        match value {
            DataValue::Image { width, height, data_url } => image_written(*view, old(img), final(img), width, height, data_url@, r),
            _ => r == Err::<(), DataError>(wrong_type()) && unchanged(old(img), final(img)),
        },
{
    match value {
        DataValue::Image { width, height, data_url } => {
            if width != view.width || height != view.height {
                return Err(invalid_size());
            }
            let b64 = match strip_png_prefix(&data_url) {
                Some(rest) => rest,
                None => {
                    return Err(DataError::Incompatible(IncompatibleError::CannotParseValue(String::from_str("not a PNG data URL"))));
                },
            };
            let bytes = match decode_base64(b64.as_str()) {
                Ok(b) => b,
                Err(m) => {
                    return Err(DataError::Incompatible(IncompatibleError::CannotParseValue(m)));
                },
            };
            let (w, h, raw) = match decode_png_rgb(&bytes) {
                Ok(t) => t,
                Err(m) => {
                    return Err(DataError::Incompatible(IncompatibleError::CannotParseValue(m)));
                },
            };
            if w != width || h != height {
                return Err(invalid_size());
            }
            write_pixels_rgb(view, img, &raw);
            Ok(())
        },
        _ => Err(invalid_type()),
    }
}

proof fn lemma_col_count_witness<I: StorableImage>(v: ImageView, img: &I, p: spec_fn(RGB) -> bool, x: int, rows: int)
    requires
        col_count(v, img, p, x, rows) != 0,
    ensures
        exists|y: int| 0 <= y < rows && #[trigger] p(v.at(img, x, y)),
    decreases rows,
{
    if rows > 0 && !p(v.at(img, x, rows - 1)) {
        lemma_col_count_witness(v, img, p, x, rows - 1);
    }
}

proof fn lemma_area_count_witness<I: StorableImage>(v: ImageView, img: &I, p: spec_fn(RGB) -> bool, cols: int)
    requires
        area_count(v, img, p, cols) != 0,
    ensures
        exists|x: int, y: int| 0 <= x < cols && 0 <= y < v.height && #[trigger] p(v.at(img, x, y)),
    decreases cols,
{
    if cols > 0 {
        if area_count(v, img, p, cols - 1) != 0 {
            lemma_area_count_witness(v, img, p, cols - 1);
        } else {
            lemma_col_count_witness(v, img, p, cols - 1, v.height as int);
        }
    }
}

/// Some entry of `counts` is for colour `c`.
pub open spec fn has_color(counts: Seq<(RGB, u64)>, c: RGB) -> bool {
    exists|k: int| 0 <= k < counts.len() && (#[trigger] counts[k]).0 == c
}

/// The histogram is exact: each colour of the field once, in the order in
/// which a column-major scan first meets it, with its number of pixels.
pub open spec fn histogram_of<I: StorableImage>(v: ImageView, img: &I, counts: Seq<(RGB, u64)>) -> bool {
    &&& forall|a: int, b: int| 0 <= a < b < counts.len() ==> counts[a].0 != counts[b].0
    &&& forall|k: int|
        0 <= k < counts.len() ==> (#[trigger] counts[k]).1 == area_count(v, img, is_color(counts[k].0), v.width as int)
            && counts[k].1 > 0
    &&& forall|x: int, y: int|
        v.inside(x, y) ==> has_color(counts, #[trigger] v.at(img, x, y))
}

/// Pixel counts per exact colour over the field, out of its area.
pub fn read_histogram<I: StorableImage>(view: &ImageView, img: &I) -> (r: Result<DataValue, DataError>)
    requires
        view.fits(img),
    ensures
        r matches Ok(DataValue::Histogram { value, total }) && histogram_of(*view, img, value@) && total
            == view.width * view.height,
{
    let mut counts: Vec<(RGB, u64)> = Vec::new();
    let mut pixels: u64 = 0;
    let mut x: u32 = 0;
    while x < view.width
        invariant
            view.fits(img),
            x <= view.width,
            pixels == x * view.height,
            forall|a: int, b: int| 0 <= a < b < counts@.len() ==> counts@[a].0 != counts@[b].0,
            forall|k: int|
                0 <= k < counts@.len() ==> (#[trigger] counts@[k]).1 == area_count(*view, img, is_color(counts@[k].0), x as int)
                    && counts@[k].1 > 0,
            forall|xx: int, yy: int|
                0 <= xx < x && 0 <= yy < view.height ==> has_color(counts@, #[trigger] view.at(img, xx, yy)),
        decreases view.width - x,
    {
        let mut y: u32 = 0;
        while y < view.height
            invariant
                view.fits(img),
                x < view.width,
                y <= view.height,
                pixels == x * view.height + y,
                forall|a: int, b: int| 0 <= a < b < counts@.len() ==> counts@[a].0 != counts@[b].0,
                forall|k: int|
                    0 <= k < counts@.len() ==> (#[trigger] counts@[k]).1 == area_count(*view, img, is_color(counts@[k].0), x as int)
                        + col_count(*view, img, is_color(counts@[k].0), x as int, y as int) && counts@[k].1 > 0,
                forall|xx: int, yy: int|
                    0 <= xx && 0 <= yy < view.height && (xx < x || (xx == x && yy < y)) ==> has_color(
                        counts@,
                        #[trigger] view.at(img, xx, yy),
                    ),
            decreases view.height - y,
        {
            proof {
                assert(x * view.height + y + 1 <= u64::MAX) by (nonlinear_arith)
                    requires
                        x < view.width,
                        y < view.height,
                        view.width <= u32::MAX,
                        view.height <= u32::MAX,
                ;
                assert(x * view.height + y <= view.width * view.height) by (nonlinear_arith)
                    requires
                        x < view.width,
                        y < view.height,
                ;
            }
            let c = view.get_pixel(img, x, y);
            let mut k: usize = 0;
            while k < counts.len() && counts[k].0 != c
                invariant
                    k <= counts@.len(),
                    forall|j: int| 0 <= j < k ==> counts@[j].0 != c,
                decreases counts.len() - k,
            {
                k = k + 1;
            }
            let ghost before = counts@;
            if k < counts.len() {
                proof {
                    lemma_area_count_bound(*view, img, is_color(c), x as int);
                    lemma_col_count_bound(*view, img, is_color(c), x as int, y as int);
                    assert(area_count(*view, img, is_color(c), x as int) <= x * view.height);
                    assert(area_count(*view, img, is_color(c), x as int) + col_count(*view, img, is_color(c), x as int, y as int) <= x * view.height + y);
                }
                let n = counts[k].1 + 1;
                counts.set(k, (c, n));
            } else {
                proof {
                    let s = area_count(*view, img, is_color(c), x as int) + col_count(*view, img, is_color(c), x as int, y as int);
                    lemma_area_count_bound(*view, img, is_color(c), x as int);
                    lemma_col_count_bound(*view, img, is_color(c), x as int, y as int);
                    if area_count(*view, img, is_color(c), x as int) != 0 {
                        lemma_area_count_witness(*view, img, is_color(c), x as int);
                        let (xx, yy) = choose|xx: int, yy: int| 0 <= xx < x && 0 <= yy < view.height && #[trigger] is_color(c)(view.at(img, xx, yy));
                        assert(has_color(before, view.at(img, xx, yy)));
                    }
                    if col_count(*view, img, is_color(c), x as int, y as int) != 0 {
                        lemma_col_count_witness(*view, img, is_color(c), x as int, y as int);
                        let yy = choose|yy: int| 0 <= yy < y && #[trigger] is_color(c)(view.at(img, x as int, yy));
                        assert(has_color(before, view.at(img, x as int, yy)));
                    }
                }
                counts.push((c, 1));
            }
            proof {
                assert forall|j: int| 0 <= j < counts@.len() implies (#[trigger] counts@[j]).1 == area_count(*view, img, is_color(counts@[j].0), x as int)
                    + col_count(*view, img, is_color(counts@[j].0), x as int, y + 1) && counts@[j].1 > 0 by {
                    assert(is_color(counts@[j].0)(view.at(img, x as int, y as int)) == (counts@[j].0 == c));
                }
                assert forall|xx: int, yy: int|
                    0 <= xx && 0 <= yy < view.height && (xx < x || (xx == x && yy < y + 1)) implies has_color(
                        counts@,
                        #[trigger] view.at(img, xx, yy),
                    ) by {
                    if xx == x && yy == y {
                        assert(counts@[k as int].0 == c);
                    } else {
                        let c2 = view.at(img, xx, yy);
                        assert(has_color(before, c2));
                        let j = choose|j: int| 0 <= j < before.len() && (#[trigger] before[j]).0 == c2;
                        assert(counts@[j].0 == before[j].0);
                    }
                }
            }
            pixels = pixels + 1;
            y = y + 1;
        }
        proof {
            assert((x + 1) * view.height == x * view.height + view.height) by (nonlinear_arith);
        }
        x = x + 1;
    }
    Ok(DataValue::Histogram { value: counts, total: pixels })
}

} // verus!
