use vstd::prelude::*;

use crate::colors::{RGB, blank, white};
use crate::image::{ImageView, InMemoryImage, StorableImage};
use vstd::arithmetic::div_mod::lemma_fundamental_div_mod_converse;

verus! {

/// The 5-bit key of column `x` of a glyph cell, rows `y..y+rows`, top bit first.
pub open spec fn col_key(pix: spec_fn(int, int) -> RGB, x: int, y: int, rows: int) -> int
    decreases rows,
{
    if rows <= 0 {
        0
    } else {
        col_key(pix, x, y, rows - 1) * 2 + if blank(pix(x, y + rows - 1)) {
            0int
        } else {
            1
        }
    }
}

/// The 15-bit key of the 3x5 cell at `(x, y)`: one bit per non-background
/// pixel, column after column, top to bottom.
pub open spec fn glyph_key(pix: spec_fn(int, int) -> RGB, x: int, y: int, cols: int) -> int
    decreases cols,
{
    if cols <= 0 {
        0
    } else {
        glyph_key(pix, x, y, cols - 1) * 32 + col_key(pix, x + cols - 1, y, 5)
    }
}

/// The character whose glyph has key `key`, if any.
pub open spec fn glyph_char(mapping: Seq<(u32, char)>, key: int) -> Option<char> {
    if exists|k: int| 0 <= k < mapping.len() && (#[trigger] mapping[k]).0 == key {
        let k = choose|k: int| 0 <= k < mapping.len() && (#[trigger] mapping[k]).0 == key;
        Some(mapping[k].1)
    } else {
        None
    }
}

pub open spec fn unique_keys(mapping: Seq<(u32, char)>) -> bool {
    forall|a: int, b: int| 0 <= a < b < mapping.len() ==> mapping[a].0 != mapping[b].0
}

pub open spec fn unique_chars(index: Seq<(char, usize)>) -> bool {
    forall|a: int, b: int| 0 <= a < b < index.len() ==> index[a].0 != index[b].0
}

/// A 3x5 bitmap font: a sheet with one glyph per 4-pixel column, and the
/// characters those columns stand for.
pub struct BitmapFont {
    image: InMemoryImage,
    spacing: u32,
    pub char_dimensions: (u32, u32),
    alphabet: Vec<char>,
    mapping: Vec<(u32, char)>,
    chars_to_idx: Vec<(char, usize)>,
}

fn sheet_pixel(sheet: &InMemoryImage, x: u64, y: u64) -> (c: RGB)
    requires
        sheet.inv(),
    ensures
        c == (if x < sheet.spec_width() && y < sheet.spec_height() {
            sheet.spec_pixel(x as int, y as int)
        } else {
            white()
        }),
{
    if x < sheet.width() as u64 && y < sheet.height() as u64 {
        sheet.get_pixel(x as u32, y as u32)
    } else {
        RGB::blank_color()
    }
}

/// What a window shows, as a function of relative coordinates.
pub open spec fn seen<I: StorableImage>(v: ImageView, img: &I) -> spec_fn(int, int) -> RGB {
    |i: int, j: int| v.at(img, i, j)
}

/// The sheet column that `c` is drawn from, if the index has `c`.
pub open spec fn char_column(index: Seq<(char, usize)>, c: char) -> Option<usize> {
    if exists|k: int| 0 <= k < index.len() && (#[trigger] index[k]).0 == c {
        let k = choose|k: int| 0 <= k < index.len() && (#[trigger] index[k]).0 == c;
        Some(index[k].1)
    } else {
        None
    }
}

impl BitmapFont {
    pub closed spec fn glyphs(&self) -> Seq<(u32, char)> {
        self.mapping@
    }

    /// The characters of the sheet's columns, in order.
    pub closed spec fn alphabet_view(&self) -> Seq<char> {
        self.alphabet@
    }

    /// The sheet as a function of coordinates.
    pub closed spec fn sheet_fn(&self) -> spec_fn(int, int) -> RGB {
        |i: int, j: int| self.sheet_at(i, j)
    }

    /// `key` is the non-zero key of a glyph cell of the sheet in a column
    /// that stands for `c`.
    pub open spec fn from_sheet(&self, key: u32, c: char) -> bool {
        exists|col: int, row: int|
            0 <= col < self.alphabet_view().len() && self.alphabet_view()[col] == c && key != 0 && key
                == #[trigger] glyph_key(self.sheet_fn(), 4 * col, 6 * row, 3)
    }

    /// Every glyph entry comes from the sheet, and every character maps to
    /// its own column.
    pub open spec fn sheet_built(&self) -> bool {
        &&& forall|k: int| 0 <= k < self.glyphs().len() ==> self.from_sheet((#[trigger] self.glyphs()[k]).0, self.glyphs()[k].1)
        &&& forall|k: int|
            0 <= k < self.columns().len() ==> {
                &&& (#[trigger] self.columns()[k]).1 < self.alphabet_view().len()
                &&& self.alphabet_view()[self.columns()[k].1 as int] == self.columns()[k].0
            }
    }

    /// Characters to their sheet columns.
    pub closed spec fn columns(&self) -> Seq<(char, usize)> {
        self.chars_to_idx@
    }

    /// The sheet's pixel at `(x, y)`, background off the sheet.
    pub closed spec fn sheet_at(&self, x: int, y: int) -> RGB {
        if 0 <= x < self.image.spec_width() && 0 <= y < self.image.spec_height() {
            self.image.spec_pixel(x, y)
        } else {
            white()
        }
    }

    /// The colour that drawing `text` from relative `(x, y)` puts at
    /// relative `(rx, ry)`: glyph `n` covers columns `x + 4n .. x + 4n + 2`
    /// and rows `y .. y + 4`; `None` where no glyph is drawn.
    pub open spec fn drawn(&self, text: Seq<char>, x: int, y: int, rx: int, ry: int) -> Option<RGB> {
        let dx = rx - x;
        let dy = ry - y;
        if dx < 0 || dy < 0 || dy >= 5 || dx % 4 == 3 || dx / 4 >= text.len() {
            None
        } else {
            match char_column(self.columns(), text[dx / 4]) {
                Some(idx) => Some(self.sheet_at(idx * 4 + dx % 4, dy)),
                None => None,
            }
        }
    }

    pub closed spec fn wf(&self) -> bool {
        &&& self.image.inv()
        &&& self.char_dimensions == (3u32, 5u32)
        &&& self.spacing == 1
        &&& unique_keys(self.mapping@)
        &&& unique_chars(self.chars_to_idx@)
        &&& forall|k: int| 0 <= k < self.chars_to_idx@.len() ==> (#[trigger] self.chars_to_idx@[k]).1 < 0x4000_0000
    }

    /// A font from its glyph sheet and the characters of its columns, in order.
    pub fn open3x5(image: InMemoryImage, alphabet: &str) -> (f: BitmapFont)
        requires
            image.inv(),
        ensures
            f.wf(),
            f.alphabet_view() == alphabet@,
            f.sheet_built(),
    {
        let mut chars: Vec<char> = Vec::new();
        let n = alphabet.unicode_len();
        let mut i: usize = 0;
        while i < n
            invariant
                n == alphabet@.len(),
                i <= n,
                chars@ == alphabet@.subrange(0, i as int),
            decreases n - i,
        {
            chars.push(alphabet.get_char(i));
            i = i + 1;
            assert(chars@ =~= alphabet@.subrange(0, i as int));
        }
        let mut bf = BitmapFont {
            image,
            spacing: 1,
            char_dimensions: (3, 5),
            alphabet: chars,
            mapping: Vec::new(),
            chars_to_idx: Vec::new(),
        };
        bf.init_mapping();
        bf
    }

    fn sheet_cell_key(&self, x: u64, y: u64) -> (key: u32)
        requires
            self.image.inv(),
            x <= u32::MAX,
            y <= u32::MAX,
        ensures
            key < 0x8000,
            key == glyph_key(self.sheet_fn(), x as int, y as int, 3),
    {
        let mut key: u32 = 0;
        let mut dx: u64 = 0;
        while dx < 3
            invariant
                self.image.inv(),
                x <= u32::MAX,
                y <= u32::MAX,
                dx <= 3,
                key == glyph_key(self.sheet_fn(), x as int, y as int, dx as int),
                (dx == 0 ==> key == 0) && (dx <= 1 ==> key < 32) && (dx <= 2 ==> key < 1024) && key < 32768,
            decreases 3 - dx,
        {
            let mut ck: u32 = 0;
            let mut dy: u64 = 0;
            while dy < 5
                invariant
                    self.image.inv(),
                    x <= u32::MAX,
                    y <= u32::MAX,
                    dx < 3,
                    dy <= 5,
                    ck == col_key(self.sheet_fn(), x + dx, y as int, dy as int),
                    (dy == 0 ==> ck == 0) && (dy <= 1 ==> ck < 2) && (dy <= 2 ==> ck < 4) && (dy <= 3 ==> ck < 8) && (dy <= 4 ==> ck < 16) && ck < 32,
                decreases 5 - dy,
            {
                let sp = sheet_pixel(&self.image, x + dx, y + dy);
                assert(sp == (self.sheet_fn())(x + dx, y + dy));
                let bit: u32 = if sp.is_blank() {
                    0
                } else {
                    1
                };
                ck = ck * 2 + bit;
                dy = dy + 1;
            }
            key = key * 32 + ck;
            dx = dx + 1;
        }
        key
    }

    fn init_mapping(&mut self)
        requires
            old(self).image.inv(),
            old(self).char_dimensions == (3u32, 5u32),
            old(self).spacing == 1,
            old(self).mapping@.len() == 0,
            old(self).chars_to_idx@.len() == 0,
        ensures
            final(self).wf(),
            final(self).alphabet_view() == old(self).alphabet_view(),
            final(self).sheet_built(),
    {
        let w = self.image.width() as u64;
        let h = self.image.height() as u64;
        let mut char_idx: usize = 0;
        let mut x: u64 = 0;
        while x < w
            invariant
                self.image.inv(),
                self.char_dimensions == (3u32, 5u32),
                self.spacing == 1,
                w <= u32::MAX,
                h <= u32::MAX,
                char_idx as int == x / 4,
                x % 4 == 0,
                x <= w + 3,
                self.alphabet_view() == old(self).alphabet_view(),
                self.image == old(self).image,
                self.sheet_built(),
                unique_keys(self.mapping@),
                unique_chars(self.chars_to_idx@),
                forall|k: int| 0 <= k < self.chars_to_idx@.len() ==> (#[trigger] self.chars_to_idx@[k]).1 < 0x4000_0000,
            decreases w + 3 - x,
        {
            let mut y: u64 = 0;
            while y < h
                invariant
                    self.image.inv(),
                    self.char_dimensions == (3u32, 5u32),
                    self.spacing == 1,
                    w <= u32::MAX,
                    h <= u32::MAX,
                    x < w,
                    char_idx as int == x / 4,
                    x % 4 == 0,
                    y % 6 == 0,
                    y <= h + 5,
                    self.alphabet_view() == old(self).alphabet_view(),
                    self.image == old(self).image,
                    self.sheet_built(),
                    unique_keys(self.mapping@),
                    unique_chars(self.chars_to_idx@),
                    forall|k: int| 0 <= k < self.chars_to_idx@.len() ==> (#[trigger] self.chars_to_idx@[k]).1 < 0x4000_0000,
                decreases h + 5 - y,
            {
                let key = self.sheet_cell_key(x, y);
                if key != 0 && char_idx < self.alphabet.len() {
                    let c = self.alphabet[char_idx];
                    let ghost m0 = self.mapping@;
                    let ghost i0 = self.chars_to_idx@;
                    let ghost before = *self;
                    proof {
                        assert(x == 4 * char_idx) by {
                            vstd::arithmetic::div_mod::lemma_fundamental_div_mod(x as int, 4);
                        }
                        assert(y % 6 == 0);
                        vstd::arithmetic::div_mod::lemma_fundamental_div_mod(y as int, 6);
                        let row = y as int / 6;
                        assert(key == glyph_key(self.sheet_fn(), 4 * char_idx, 6 * row, 3));
                        assert(self.from_sheet(key, c));
                    }
                    set_glyph(&mut self.mapping, key, c);
                    set_index(&mut self.chars_to_idx, c, char_idx);
                    proof {
                        assert forall|k: int| 0 <= k < self.glyphs().len() implies self.from_sheet((#[trigger] self.glyphs()[k]).0, self.glyphs()[k].1) by {
                            if self.mapping@[k] != (key, c) {
                                let j = choose|j: int| 0 <= j < m0.len() && m0[j] == self.mapping@[k];
                                assert(before.glyphs()[j] == m0[j]);
                                assert(before.from_sheet(m0[j].0, m0[j].1));
                                assert(before.sheet_fn() == self.sheet_fn());
                            }
                        }
                        assert forall|k: int| 0 <= k < self.columns().len() implies {
                            &&& (#[trigger] self.columns()[k]).1 < self.alphabet_view().len()
                            &&& self.alphabet_view()[self.columns()[k].1 as int] == self.columns()[k].0
                        } by {
                            if self.chars_to_idx@[k] != (c, char_idx) {
                                let j = choose|j: int| 0 <= j < i0.len() && i0[j] == self.chars_to_idx@[k];
                                assert(before.columns()[j] == i0[j]);
                            }
                        }
                    }
                }
                y = y + 6;
            }
            char_idx = char_idx + 1;
            x = x + 4;
        }
    }

    fn sheet_pixel_at(&self, x: u64, y: u64) -> (c: RGB)
        requires
            self.wf(),
        ensures
            c == self.sheet_at(x as int, y as int),
    {
        sheet_pixel(&self.image, x, y)
    }

    /// The glyph key of a character's column on the sheet, if the font has it.
    fn index_of(&self, c: char) -> (r: Option<usize>)
        requires
            self.wf(),
        ensures
            r matches Some(i) ==> i < 0x4000_0000,
            r == char_column(self.columns(), c),
    {
        let mut k: usize = 0;
        while k < self.chars_to_idx.len()
            invariant
                self.wf(),
                k <= self.chars_to_idx@.len(),
                forall|j: int| 0 <= j < k ==> self.chars_to_idx@[j].0 != c,
            decreases self.chars_to_idx.len() - k,
        {
            if self.chars_to_idx[k].0 == c {
                proof {
                    assert(self.chars_to_idx@[k as int].0 == c);
                    let kk = choose|kk: int| 0 <= kk < self.chars_to_idx@.len() && (#[trigger] self.chars_to_idx@[kk]).0 == c;
                    if kk < k {
                        assert(self.chars_to_idx@[kk].0 != self.chars_to_idx@[k as int].0);
                    } else if kk > k {
                        assert(self.chars_to_idx@[k as int].0 != self.chars_to_idx@[kk].0);
                    }
                }
                return Some(self.chars_to_idx[k].1);
            }
            k = k + 1;
        }
        None
    }

    /// The character whose glyph covers the 3x5 cell at relative `(x, y)`
    /// of the window, if any.
    pub fn get_char<I: StorableImage>(&self, view: &ImageView, img: &I, x: u32, y: u32) -> (r: Option<char>)
        requires
            self.wf(),
            view.fits(img),
        ensures
            r == glyph_char(self.glyphs(), glyph_key(seen(*view, img), x as int, y as int, 3)),
    {
        let mut key: u32 = 0;
        let mut dx: u32 = 0;
        while dx < 3
            invariant
                view.fits(img),
                dx <= 3,
                key == glyph_key(seen(*view, img), x as int, y as int, dx as int),
                (dx == 0 ==> key == 0) && (dx <= 1 ==> key < 32) && (dx <= 2 ==> key < 1024) && key < 32768,
            decreases 3 - dx,
        {
            let mut ck: u32 = 0;
            let mut dy: u32 = 0;
            while dy < 5
                invariant
                    view.fits(img),
                    dx < 3,
                    dy <= 5,
                    ck == col_key(seen(*view, img), x + dx, y as int, dy as int),
                    (dy == 0 ==> ck == 0) && (dy <= 1 ==> ck < 2) && (dy <= 2 ==> ck < 4) && (dy <= 3 ==> ck < 8) && (dy <= 4 ==> ck < 16) && ck < 32,
                decreases 5 - dy,
            {
                let c = if x as u64 + (dx as u64) < u32::MAX as u64 && y as u64 + (dy as u64) < u32::MAX as u64 {
                    view.get_pixel(img, x + dx, y + dy)
                } else {
                    RGB::blank_color()
                };
                assert(c == seen(*view, img)(x + dx, y + dy)) by {
                    if !(x as u64 + (dx as u64) < u32::MAX as u64 && y as u64 + (dy as u64) < u32::MAX as u64) {
                        assert(!view.inside(x + dx, y + dy));
                    }
                }
                let bit: u32 = if c.is_blank() {
                    0
                } else {
                    1
                };
                ck = ck * 2 + bit;
                dy = dy + 1;
            }
            key = key * 32 + ck;
            dx = dx + 1;
        }
        let mut k: usize = 0;
        while k < self.mapping.len()
            invariant
                self.wf(),
                key == glyph_key(seen(*view, img), x as int, y as int, 3),
                k <= self.mapping@.len(),
                forall|j: int| 0 <= j < k ==> self.mapping@[j].0 != key,
            decreases self.mapping.len() - k,
        {
            if self.mapping[k].0 == key {
                proof {
                    assert(self.mapping@[k as int].0 == key);
                    let kk = choose|kk: int| 0 <= kk < self.mapping@.len() && (#[trigger] self.mapping@[kk]).0 == key;
                    if kk < k {
                        assert(self.mapping@[kk].0 != self.mapping@[k as int].0);
                    } else if kk > k {
                        assert(self.mapping@[k as int].0 != self.mapping@[kk].0);
                    }
                    assert(kk == k);
                    assert(glyph_char(self.mapping@, key as int) == Some(self.mapping@[k as int].1));
                    assert(self.glyphs() == self.mapping@);
                }
                return Some(self.mapping[k].1);
            }
            k = k + 1;
        }
        None
    }

    /// Draws the text from relative `(x, y)` of the window, one glyph every
    /// four pixels; characters the font lacks leave a gap. Only the window
    /// is painted.
    pub fn put_string<I: StorableImage>(&self, view: &ImageView, img: &mut I, x: u32, y: u32, text: &str)
        requires
            self.wf(),
            view.fits(old(img)),
        ensures
            view.fits(final(img)),
            final(img).spec_width() == old(img).spec_width(),
            final(img).spec_height() == old(img).spec_height(),
            forall|i: int, j: int| #[trigger]
                final(img).spec_pixel(i, j) == if view.covers(i, j) && self.drawn(text@, x as int, y as int, i - view.x, j - view.y) is Some {
                    self.drawn(text@, x as int, y as int, i - view.x, j - view.y)->Some_0
                } else {
                    old(img).spec_pixel(i, j)
                },
    {
        let ghost start = *old(img);
        let ghost t = text@;
        let n = text.unicode_len();
        let mut cx: u64 = x as u64;
        let mut i: usize = 0;
        while i < n
            invariant
                self.wf(),
                view.fits(img),
                n == text@.len(),
                t == text@,
                i <= n,
                cx == x + 4 * i || (cx > u32::MAX && x + 4 * i > u32::MAX),
                cx <= u32::MAX as u64 + 4,
                img.spec_width() == start.spec_width(),
                img.spec_height() == start.spec_height(),
                forall|a: int, b: int| #[trigger]
                    img.spec_pixel(a, b) == if view.covers(a, b) && (a - view.x - x) / 4 < i && self.drawn(t, x as int, y as int, a - view.x, b - view.y) is Some {
                        self.drawn(t, x as int, y as int, a - view.x, b - view.y)->Some_0
                    } else {
                        start.spec_pixel(a, b)
                    },
            decreases n - i,
        {
            let chr = text.get_char(i);
            if let Some(idc) = self.index_of(chr) {
                let font_x = idc as u64 * 3 + idc as u64;
                let mut dx: u64 = 0;
                while dx < 3
                    invariant
                        self.wf(),
                        view.fits(img),
                        n == text@.len(),
                        t == text@,
                        i < n,
                        t[i as int] == chr,
                        char_column(self.columns(), chr) == Some(idc),
                        font_x == idc * 4,
                        dx <= 3,
                        cx == x + 4 * i || (cx > u32::MAX && x + 4 * i > u32::MAX),
                        cx <= u32::MAX as u64 + 4,
                        font_x < 0x1_0000_0000,
                        img.spec_width() == start.spec_width(),
                        img.spec_height() == start.spec_height(),
                        forall|a: int, b: int| #[trigger]
                            img.spec_pixel(a, b) == if view.covers(a, b) && ((a - view.x - x) / 4 < i || ((a - view.x - x) / 4 == i && (a - view.x - x) % 4 < dx)) && self.drawn(t, x as int, y as int, a - view.x, b - view.y) is Some {
                                self.drawn(t, x as int, y as int, a - view.x, b - view.y)->Some_0
                            } else {
                                start.spec_pixel(a, b)
                            },
                    decreases 3 - dx,
                {
                    let mut dy: u64 = 0;
                    while dy < 5
                        invariant
                            self.wf(),
                            view.fits(img),
                            n == text@.len(),
                            t == text@,
                            i < n,
                            t[i as int] == chr,
                            char_column(self.columns(), chr) == Some(idc),
                            font_x == idc * 4,
                            dx < 3,
                            dy <= 5,
                            cx == x + 4 * i || (cx > u32::MAX && x + 4 * i > u32::MAX),
                            cx <= u32::MAX as u64 + 4,
                            font_x < 0x1_0000_0000,
                            img.spec_width() == start.spec_width(),
                            img.spec_height() == start.spec_height(),
                            forall|a: int, b: int| #[trigger]
                                img.spec_pixel(a, b) == if view.covers(a, b) && ((a - view.x - x) / 4 < i || ((a - view.x - x) / 4 == i && (a - view.x - x) % 4 < dx) || ((a - view.x - x) / 4 == i && (a - view.x - x) % 4 == dx && b - view.y - y < dy)) && self.drawn(t, x as int, y as int, a - view.x, b - view.y) is Some {
                                    self.drawn(t, x as int, y as int, a - view.x, b - view.y)->Some_0
                                } else {
                                    start.spec_pixel(a, b)
                                },
                        decreases 5 - dy,
                    {
                        let px = cx + dx;
                        let py = y as u64 + dy;
                        if px <= u32::MAX as u64 && py <= u32::MAX as u64 {
                            let c = self.sheet_pixel_at(font_x + dx, dy);
                            let ghost before = *img;
                            let _ = view.set_pixel(img, px as u32, py as u32, c);
                            proof {
                                assert forall|a: int, b: int| #[trigger]
                                    img.spec_pixel(a, b) == if view.covers(a, b) && ((a - view.x - x) / 4 < i || ((a - view.x - x) / 4 == i && (a - view.x - x) % 4 < dx) || ((a - view.x - x) / 4 == i && (a - view.x - x) % 4 == dx && b - view.y - y < dy + 1)) && self.drawn(t, x as int, y as int, a - view.x, b - view.y) is Some {
                                        self.drawn(t, x as int, y as int, a - view.x, b - view.y)->Some_0
                                    } else {
                                        start.spec_pixel(a, b)
                                    } by {
                                    let rx = a - view.x;
                                    let d = rx - x;
                                    if view.covers(a, b) && d >= 0 {
                                        vstd::arithmetic::div_mod::lemma_fundamental_div_mod(d, 4);
                                        if a == view.x + px && b == view.y + py {
                                            lemma_fundamental_div_mod_converse(d, 4, i as int, dx as int);
                                        } else if d / 4 == i && d % 4 == dx && b - view.y - y == dy {
                                            assert(d == 4 * i + dx);
                                        }
                                    }
                                }
                            }
                        } else {
                            proof {
                                assert forall|a: int, b: int| #[trigger]
                                    img.spec_pixel(a, b) == if view.covers(a, b) && ((a - view.x - x) / 4 < i || ((a - view.x - x) / 4 == i && (a - view.x - x) % 4 < dx) || ((a - view.x - x) / 4 == i && (a - view.x - x) % 4 == dx && b - view.y - y < dy + 1)) && self.drawn(t, x as int, y as int, a - view.x, b - view.y) is Some {
                                        self.drawn(t, x as int, y as int, a - view.x, b - view.y)->Some_0
                                    } else {
                                        start.spec_pixel(a, b)
                                    } by {
                                    let d = a - view.x - x;
                                    if view.covers(a, b) && d >= 0 && d / 4 == i && d % 4 == dx && b - view.y - y == dy {
                                        vstd::arithmetic::div_mod::lemma_fundamental_div_mod(d, 4);
                                        assert(d == 4 * i + dx);
                                    }
                                }
                            }
                        }
                        dy = dy + 1;
                    }
                    dx = dx + 1;
                }
            }
            proof {
                assert forall|a: int, b: int| #[trigger]
                    img.spec_pixel(a, b) == if view.covers(a, b) && (a - view.x - x) / 4 < i + 1 && self.drawn(t, x as int, y as int, a - view.x, b - view.y) is Some {
                        self.drawn(t, x as int, y as int, a - view.x, b - view.y)->Some_0
                    } else {
                        start.spec_pixel(a, b)
                    } by {
                    let d = a - view.x - x;
                    if d >= 0 {
                        vstd::arithmetic::div_mod::lemma_fundamental_div_mod(d, 4);
                    }
                }
            }
            if cx <= u32::MAX as u64 {
                cx = cx + 4;
            }
            i = i + 1;
        }
        proof {
            assert forall|a: int, b: int| #[trigger]
                img.spec_pixel(a, b) == if view.covers(a, b) && self.drawn(t, x as int, y as int, a - view.x, b - view.y) is Some {
                    self.drawn(t, x as int, y as int, a - view.x, b - view.y)->Some_0
                } else {
                    start.spec_pixel(a, b)
                } by {
            }
        }
    }
}

/// Maps `key` to `c`, replacing an earlier entry for the key.
fn set_glyph(mapping: &mut Vec<(u32, char)>, key: u32, c: char)
    requires
        unique_keys(old(mapping)@),
    ensures
        unique_keys(final(mapping)@),
        glyph_char(final(mapping)@, key as int) == Some(c),
        forall|k: int| 0 <= k < final(mapping)@.len() ==> #[trigger] final(mapping)@[k] == (key, c) || old(mapping)@.contains(final(mapping)@[k]),
{
    let mut k: usize = 0;
    while k < mapping.len()
        invariant
            mapping@ == old(mapping)@,
            k <= mapping@.len(),
            unique_keys(mapping@),
            forall|j: int| 0 <= j < k ==> mapping@[j].0 != key,
        decreases mapping.len() - k,
    {
        if mapping[k].0 == key {
            let ghost m0 = mapping@;
            mapping.set(k, (key, c));
            assert(mapping@[k as int].0 == key);
            assert forall|j: int| 0 <= j < mapping@.len() implies #[trigger] mapping@[j] == (key, c) || old(mapping)@.contains(mapping@[j]) by {
                if j != k {
                    assert(mapping@[j] == m0[j]);
                    assert(old(mapping)@[j] == mapping@[j]);
                }
            }
            return;
        }
        k = k + 1;
    }
    let ghost m0 = mapping@;
    mapping.push((key, c));
    assert(mapping@[mapping@.len() - 1].0 == key);
    assert forall|j: int| 0 <= j < mapping@.len() implies #[trigger] mapping@[j] == (key, c) || old(mapping)@.contains(mapping@[j]) by {
        if j < m0.len() {
            assert(mapping@[j] == m0[j]);
            assert(old(mapping)@[j] == mapping@[j]);
        }
    }
}

/// Maps `c` to column `idx`, replacing an earlier entry for the character.
fn set_index(index: &mut Vec<(char, usize)>, c: char, idx: usize)
    requires
        unique_chars(old(index)@),
        idx < 0x4000_0000,
        forall|k: int| 0 <= k < old(index)@.len() ==> (#[trigger] old(index)@[k]).1 < 0x4000_0000,
    ensures
        unique_chars(final(index)@),
        forall|k: int| 0 <= k < final(index)@.len() ==> (#[trigger] final(index)@[k]).1 < 0x4000_0000,
        forall|k: int| 0 <= k < final(index)@.len() ==> #[trigger] final(index)@[k] == (c, idx) || old(index)@.contains(final(index)@[k]),
{
    let mut k: usize = 0;
    while k < index.len()
        invariant
            index@ == old(index)@,
            k <= index@.len(),
            unique_chars(index@),
            idx < 0x4000_0000,
            forall|j: int| 0 <= j < index@.len() ==> (#[trigger] index@[j]).1 < 0x4000_0000,
            forall|j: int| 0 <= j < k ==> index@[j].0 != c,
        decreases index.len() - k,
    {
        if index[k].0 == c {
            let ghost i0 = index@;
            index.set(k, (c, idx));
            assert forall|j: int| 0 <= j < index@.len() implies #[trigger] index@[j] == (c, idx) || old(index)@.contains(index@[j]) by {
                if j != k {
                    assert(index@[j] == i0[j]);
                    assert(old(index)@[j] == index@[j]);
                }
            }
            return;
        }
        k = k + 1;
    }
    let ghost i0 = index@;
    index.push((c, idx));
    assert forall|j: int| 0 <= j < index@.len() implies #[trigger] index@[j] == (c, idx) || old(index)@.contains(index@[j]) by {
        if j < i0.len() {
            assert(index@[j] == i0[j]);
            assert(old(index)@[j] == index@[j]);
        }
    }
}

} // verus!
