use vstd::prelude::*;

use crate::colors::white;
use crate::font::{BitmapFont, glyph_char, glyph_key, seen};
use crate::image::{ImageView, StorableImage};
use crate::codecs::{unchanged, wrong_type, invalid_type};
use crate::model::DataError;
use crate::text::string_of_chars;
use crate::value::DataValue;

verus! {

/// The glyph found at candidate `k` around `(sx, sy)`: candidates run over
/// column offsets 0 to 2 and, within each, row offsets -1 to 2.
pub open spec fn glyph_near<I: StorableImage>(f: &BitmapFont, v: ImageView, img: &I, sx: int, sy: int, k: int) -> Option<char> {
    let dx = k / 4;
    let dy = k % 4 - 1;
    if sx + dx >= v.width || (sy == 0 && dy < 0) || sy + dy >= v.height {
        None
    } else {
        glyph_char(f.glyphs(), glyph_key(seen(v, img), sx + dx, sy + dy, 3))
    }
}

/// The first candidate from `k` on that holds a glyph, with the glyph.
pub open spec fn search<I: StorableImage>(f: &BitmapFont, v: ImageView, img: &I, sx: int, sy: int, k: int) -> Option<(int, char)>
    decreases 12 - k,
{
    if k < 0 || k >= 12 {
        None
    } else {
        match glyph_near(f, v, img, sx, sy, k) {
            Some(c) => Some((k, c)),
            None => search(f, v, img, sx, sy, k + 1),
        }
    }
}

/// The characters read left to right from `(sx, sy)`: at each step the
/// first glyph among the candidates, after which reading resumes three
/// columns past it on its row; a blank where none is found.
pub open spec fn walk<I: StorableImage>(f: &BitmapFont, v: ImageView, img: &I, sx: int, sy: int) -> Seq<char>
    decreases room(v.width as int, sx),
{
    if sx < 0 || sy < 0 || sx >= v.width || sy >= v.height {
        Seq::empty()
    } else {
        let step = next_step(search(f, v, img, sx, sy, 0));
        seq![step.2] + walk(f, v, img, sx + step.0, sy + step.1)
    }
}

proof fn lemma_search_found<I: StorableImage>(f: &BitmapFont, v: ImageView, img: &I, sx: int, sy: int, k: int)
    requires
        0 <= k,
        search(f, v, img, sx, sy, k) is Some,
    ensures
        ({
            let (kk, c) = search(f, v, img, sx, sy, k)->Some_0;
            &&& k <= kk < 12
            &&& glyph_near(f, v, img, sx, sy, kk) == Some(c)
        }),
    decreases 12 - k,
{
    if k < 12 && glyph_near(f, v, img, sx, sy, k) is None {
        lemma_search_found(f, v, img, sx, sy, k + 1);
    }
}

/// Columns left before `w`.
pub open spec fn room(w: int, sx: int) -> int {
    if sx < w {
        w - sx
    } else {
        0
    }
}

/// How far reading moves after a search, and what it reads: past the glyph
/// found, or three columns on with a blank.
pub open spec fn next_step(found: Option<(int, char)>) -> (int, int, char) {
    match found {
        Some((k, c)) => (if k < 0 { 3 } else { k / 4 + 3 }, k % 4 - 1, c),
        None => (3, 0, ' '),
    }
}

/// `s` without its trailing blanks.
pub open spec fn trim_end(s: Seq<char>) -> Seq<char>
    decreases s.len(),
{
    if s.len() > 0 && s.last() == ' ' {
        trim_end(s.drop_last())
    } else {
        s
    }
}

/// The text codec: glyphs of a 3x5 font drawn from the second row of the field.
pub struct ABCDataType {
    pub bitmap_font: BitmapFont,
}

impl ABCDataType {
    pub fn new(bitmap_font: BitmapFont) -> (t: Self)
        ensures
            t.bitmap_font == bitmap_font,
    {
        ABCDataType { bitmap_font }
    }

    /// Reads the glyphs left to right, tolerating one row of vertical jitter
    /// per glyph, without trailing blanks.
    pub fn read<I: StorableImage>(&self, view: &ImageView, img: &I) -> (r: Result<DataValue, DataError>)
        requires
            self.bitmap_font.wf(),
            view.fits(img),
        ensures
            r matches Ok(DataValue::String { value }) && value@ == trim_end(walk(&self.bitmap_font, *view, img, 0, 1)),
    {
        let f = &self.bitmap_font;
        let ghost whole = walk(f, *view, img, 0, 1);
        let mut chars: Vec<char> = Vec::new();
        let mut sx: u64 = 0;
        let mut sy: u64 = 1;
        while sx < view.width as u64 && sy < view.height as u64
            invariant
                f.wf(),
                view.fits(img),
                sx <= view.width as u64 + 6,
                sy <= view.height as u64 + 2,
                chars@ + walk(f, *view, img, sx as int, sy as int) == whole,
            decreases view.width as u64 + 6 - sx,
        {
            let mut k: u64 = 0;
            let mut hit: Option<(u64, char)> = None;
            while k < 12 && hit.is_none()
                invariant
                    f.wf(),
                    view.fits(img),
                    sx < view.width,
                    sy < view.height,
                    k <= 12,
                    hit is None ==> search(f, *view, img, sx as int, sy as int, 0) == search(f, *view, img, sx as int, sy as int, k as int),
                    hit matches Some((kk, c)) ==> kk < 12 && search(f, *view, img, sx as int, sy as int, 0) == Some((kk as int, c)),
                decreases 12 - k, if hit is None { 1int } else { 0 },
            {
                let dx = k / 4;
                let dy = (k % 4) as i64 - 1;
                let cx = sx + dx;
                let cy = sy as i64 + dy;
                if cx < view.width as u64 && !(sy == 0 && dy < 0) && cy < view.height as i64 {
                    match f.get_char(view, img, cx as u32, cy as u32) {
                        Some(c) => {
                            hit = Some((k, c));
                        },
                        None => {
                            k = k + 1;
                        },
                    }
                } else {
                    k = k + 1;
                }
            }
            match hit {
                Some((kk, c)) => {
                    proof {
                        lemma_search_found(f, *view, img, sx as int, sy as int, 0);
                    }
                    chars.push(c);
                    sx = sx + kk / 4 + 3;
                    sy = (sy as i64 + (kk % 4) as i64 - 1) as u64;
                },
                None => {
                    chars.push(' ');
                    sx = sx + 3;
                },
            }
            assert(chars@ + walk(f, *view, img, sx as int, sy as int) =~= whole);
        }
        while chars.len() > 0 && chars[chars.len() - 1] == ' '
            invariant
                trim_end(chars@) == trim_end(whole),
            decreases chars.len(),
        {
            chars.pop();
        }
        proof {
            assert(walk(f, *view, img, sx as int, sy as int) =~= Seq::<char>::empty());
            assert(chars@ + Seq::<char>::empty() =~= chars@);
        }
        let value = string_of_chars(&chars);
        Ok(DataValue::String { value })
    }

    /// Clears the field and draws the text from its second row and column.
    pub fn write<I: StorableImage>(&self, view: &ImageView, img: &mut I, value: DataValue) -> (r: Result<(), DataError>)
        requires
            self.bitmap_font.wf(),
            view.fits(old(img)),
        ensures
            view.fits(final(img)),
            final(img).spec_width() == old(img).spec_width(),
            final(img).spec_height() == old(img).spec_height(),
            forall|i: int, j: int| !view.covers(i, j) ==> #[trigger] final(img).spec_pixel(i, j) == old(img).spec_pixel(i, j),
            match value {
                DataValue::String { value: text } => r is Ok && forall|i: int, j: int| #[trigger]
                    final(img).spec_pixel(i, j) == if view.covers(i, j) {
                        match self.bitmap_font.drawn(text@, 1, 1, i - view.x, j - view.y) {
                            Some(c) => c,
                            None => white(),
                        }
                    } else {
                        old(img).spec_pixel(i, j)
                    },
                _ => r == Err::<(), DataError>(wrong_type()) && unchanged(old(img), final(img)),
            },
    {
        match value {
            DataValue::String { value } => {
                view.clear(img);
                self.bitmap_font.put_string(view, img, 1, 1, value.as_str());
                Ok(())
            },
            _ => Err(invalid_type()),
        }
    }
}

} // verus!
