use vstd::prelude::*;

use crate::colors::{RGB, white};
use crate::encoding::{base64_of, encode_base64, encode_png_rgb, png_rgb_of};
use crate::model::Vector2D;

verus! {

/// What a store did when asked to persist.
#[derive(Debug, Clone, Copy, PartialEq, Eq, Structural)]
pub enum SyncResponse {
    Synced,
    Reloaded,
}

/// What a file-backed store does on `sync`.
#[derive(Debug, Clone, Copy, PartialEq, Eq, Structural)]
pub enum SyncAction {
    Save,
    Reload,
    Keep,
}

/// A store that was written to saves; otherwise one whose file changed
/// since it was last read or written reloads; otherwise nothing happens.
pub fn sync_action(dirty: bool, file_newer: bool) -> (a: SyncAction)
    ensures
        a == (if dirty {
            SyncAction::Save
        } else if file_newer {
            SyncAction::Reload
        } else {
            SyncAction::Keep
        }),
{
    if dirty {
        SyncAction::Save
    } else if file_newer {
        SyncAction::Reload
    } else {
        SyncAction::Keep
    }
}

/// Channel `k` of `c`: 0 red, 1 green, 2 blue.
pub open spec fn channel(c: RGB, k: int) -> u8 {
    if k == 0 {
        c.r
    } else if k == 1 {
        c.g
    } else {
        c.b
    }
}

/// A grid of pixels that the decoder and the codecs read and write.
pub trait StorableImage {
    spec fn spec_width(&self) -> nat;

    spec fn spec_height(&self) -> nat;

    /// The colour at `(x, y)`; meaningful inside the grid.
    spec fn spec_pixel(&self, x: int, y: int) -> RGB;

    /// The store's own well-formedness.
    spec fn inv(&self) -> bool;

    fn get_pixel(&self, x: u32, y: u32) -> (c: RGB)
        requires
            self.inv(),
            x < self.spec_width(),
            y < self.spec_height(),
        ensures
            c == self.spec_pixel(x as int, y as int),
    ;

    fn set_pixel(&mut self, x: u32, y: u32, rgb: &RGB)
        requires
            old(self).inv(),
            x < old(self).spec_width(),
            y < old(self).spec_height(),
        ensures
            final(self).inv(),
            final(self).spec_width() == old(self).spec_width(),
            final(self).spec_height() == old(self).spec_height(),
            forall|i: int, j: int| #[trigger]
                final(self).spec_pixel(i, j) == if i == x && j == y {
                    *rgb
                } else {
                    old(self).spec_pixel(i, j)
                },
    ;

    fn width(&self) -> (w: u32)
        ensures
            w == self.spec_width(),
    ;

    fn height(&self) -> (h: u32)
        ensures
            h == self.spec_height(),
    ;

    /// Gives the store a chance to release memory; the pixels stay as they are.
    fn optimize(&self);

    /// The region `x..x+width`, `y..y+height` as base64 text of a PNG file.
    fn get_base64(&self, x: u32, y: u32, width: u32, height: u32) -> (s: String)
        requires
            self.inv(),
            x + width <= self.spec_width(),
            y + height <= self.spec_height(),
        ensures
            s@ == self.spec_base64(x as int, y as int, width as int, height as int),
    ;

    /// The text `get_base64` gives for a region.
    spec fn spec_base64(&self, x: int, y: int, width: int, height: int) -> Seq<char>;
}

/// The RGB bytes of `w` pixels of row `y`, starting at column `x`.
pub open spec fn row_rgb(pix: spec_fn(int, int) -> RGB, x: int, y: int, w: int) -> Seq<u8>
    decreases w,
{
    if w <= 0 {
        Seq::empty()
    } else {
        let c = pix(x + w - 1, y);
        row_rgb(pix, x, y, w - 1).add(seq![c.r, c.g, c.b])
    }
}

/// The RGB bytes of a `w` x `h` region at `(x, y)`, row after row.
pub open spec fn region_rgb(pix: spec_fn(int, int) -> RGB, x: int, y: int, w: int, h: int) -> Seq<u8>
    decreases h,
{
    if h <= 0 {
        Seq::empty()
    } else {
        region_rgb(pix, x, y, w, h - 1).add(row_rgb(pix, x, y + h - 1, w))
    }
}


proof fn lemma_cell_index(x: int, y: int, w: int, h: int)
    requires
        0 <= x < w,
        0 <= y < h,
    ensures
        0 <= y * w <= y * w + x < w * h,
{
    assert(0 <= y * w <= y * w + x < w * h) by (nonlinear_arith)
        requires
            0 <= x < w,
            0 <= y < h,
    ;
}

/// A picture held whole in memory, row-major, with a flag that records
/// whether it was written since it was last saved.
pub struct InMemoryImage {
    width: u32,
    height: u32,
    pixels: Vec<RGB>,
    dirty: bool,
}

impl InMemoryImage {
    /// Row-major pixels of the picture.
    pub closed spec fn cells(&self) -> Seq<RGB> {
        self.pixels@
    }

    closed spec fn cell(&self, x: int, y: int) -> RGB {
        if 0 <= x < self.width && 0 <= y < self.height {
            self.pixels@[y * self.width + x]
        } else {
            white()
        }
    }

    closed spec fn cells_fn(&self) -> spec_fn(int, int) -> RGB {
        |i: int, j: int| self.cell(i, j)
    }

    pub closed spec fn spec_dirty(&self) -> bool {
        self.dirty
    }

    /// A picture of the given size from row-major pixels; `None` when their
    /// number is not `width * height`.
    pub fn new(width: u32, height: u32, pixels: Vec<RGB>) -> (r: Option<Self>)
        ensures
            r is Some <==> pixels@.len() == width as int * height as int,
            r matches Some(img) ==> {
                &&& img.inv()
                &&& img.spec_width() == width
                &&& img.spec_height() == height
                &&& img.cells() == pixels@
                &&& !img.spec_dirty()
                &&& forall|x: int, y: int|
                    0 <= x < width && 0 <= y < height ==> #[trigger] img.spec_pixel(x, y)
                        == pixels@[y * width + x]
            },
    {
        let n = pixels.len() as u64;
        proof {
            assert(width as int * height as int <= u64::MAX) by (nonlinear_arith)
                requires
                    width <= u32::MAX,
                    height <= u32::MAX,
            ;
        }
        if width as u64 * height as u64 != n {
            return None;
        }
        Some(InMemoryImage { width, height, pixels, dirty: false })
    }

    /// A picture of the given size in one colour.
    pub fn filled(width: u32, height: u32, c: RGB) -> (img: Self)
        requires
            width as int * height as int <= usize::MAX,
        ensures
            img.inv(),
            img.spec_width() == width,
            img.spec_height() == height,
            !img.spec_dirty(),
            forall|x: int, y: int| 0 <= x < width && 0 <= y < height ==> #[trigger] img.spec_pixel(x, y) == c,
    {
        let n = width as usize * height as usize;
        let mut pixels: Vec<RGB> = Vec::new();
        let mut i: usize = 0;
        while i < n
            invariant
                i <= n,
                pixels@.len() == i,
                forall|k: int| 0 <= k < i ==> pixels@[k] == c,
            decreases n - i,
        {
            pixels.push(c);
            i = i + 1;
        }
        let img = InMemoryImage { width, height, pixels, dirty: false };
        assert forall|x: int, y: int| 0 <= x < width && 0 <= y < height implies #[trigger] img.spec_pixel(x, y) == c by {
            lemma_cell_index(x, y, width as int, height as int);
        }
        img
    }

    fn cell_at(&self, x: u32, y: u32) -> (c: RGB)
        requires
            self.pixels@.len() == self.width as int * self.height as int,
            x < self.width,
            y < self.height,
        ensures
            c == self.cell(x as int, y as int),
    {
        let n = self.pixels.len();
        proof {
            lemma_cell_index(x as int, y as int, self.width as int, self.height as int);
        }
        self.pixels[y as usize * self.width as usize + x as usize]
    }

    /// The RGB bytes of a region, row after row.
    fn region_bytes(&self, x: u32, y: u32, width: u32, height: u32) -> (raw: Vec<u8>)
        requires
            self.pixels@.len() == self.width as int * self.height as int,
            x + width <= self.width,
            y + height <= self.height,
        ensures
            raw@ == region_rgb(self.cells_fn(), x as int, y as int, width as int, height as int),
    {
        let mut raw: Vec<u8> = Vec::new();
        let mut r: u32 = 0;
        while r < height
            invariant
                self.pixels@.len() == self.width as int * self.height as int,
                x + width <= self.width,
                y + height <= self.height,
                r <= height,
                raw@ == region_rgb(self.cells_fn(), x as int, y as int, width as int, r as int),
            decreases height - r,
        {
            let mut c: u32 = 0;
            while c < width
                invariant
                    self.pixels@.len() == self.width as int * self.height as int,
                    x + width <= self.width,
                    y + height <= self.height,
                    r < height,
                    c <= width,
                    raw@ == region_rgb(self.cells_fn(), x as int, y as int, width as int, r as int).add(
                        row_rgb(self.cells_fn(), x as int, (y + r) as int, c as int),
                    ),
                decreases width - c,
            {
                let p = self.cell_at(x + c, y + r);
                let ghost before = raw@;
                raw.push(p.r);
                raw.push(p.g);
                raw.push(p.b);
                proof {
                    let row = (y + r) as int;
                    let col = (x + c) as int;
                    assert(p == self.cell(col, row));
                    assert((self.cells_fn())(col, row) == self.cell(col, row));
                    assert(row_rgb(self.cells_fn(), x as int, row, c + 1) == row_rgb(self.cells_fn(), x as int, row, c as int).add(
                        seq![p.r, p.g, p.b],
                    ));
                    assert(raw@ =~= before.add(seq![p.r, p.g, p.b]));
                }
                c = c + 1;
            }
            r = r + 1;
        }
        raw
    }

    /// The row-major pixels, for saving.
    pub fn pixels(&self) -> (p: &Vec<RGB>)
        ensures
            p@ == self.cells(),
    {
        &self.pixels
    }

    /// Whether the picture was written since it was last saved.
    pub fn is_dirty(&self) -> (d: bool)
        ensures
            d == self.spec_dirty(),
    {
        self.dirty
    }

    /// Records that the picture was saved.
    pub fn mark_clean(&mut self)
        ensures
            !final(self).spec_dirty(),
            final(self).cells() == old(self).cells(),
            final(self).spec_width() == old(self).spec_width(),
            final(self).spec_height() == old(self).spec_height(),
            old(self).inv() ==> final(self).inv(),
            forall|x: int, y: int| #[trigger] final(self).spec_pixel(x, y) == old(self).spec_pixel(x, y),
    {
        self.dirty = false;
    }
}

impl StorableImage for InMemoryImage {
    closed spec fn spec_width(&self) -> nat {
        self.width as nat
    }

    closed spec fn spec_height(&self) -> nat {
        self.height as nat
    }

    closed spec fn spec_pixel(&self, x: int, y: int) -> RGB {
        self.cell(x, y)
    }

    closed spec fn spec_base64(&self, x: int, y: int, width: int, height: int) -> Seq<char> {
        base64_of(png_rgb_of(width as u32, height as u32, region_rgb(self.cells_fn(), x, y, width, height)))
    }

    closed spec fn inv(&self) -> bool {
        self.pixels@.len() == self.width as int * self.height as int
    }

    fn get_pixel(&self, x: u32, y: u32) -> (c: RGB) {
        self.cell_at(x, y)
    }

    fn set_pixel(&mut self, x: u32, y: u32, rgb: &RGB) {
        let n = self.pixels.len();
        proof {
            lemma_cell_index(x as int, y as int, self.width as int, self.height as int);
        }
        let i = y as usize * self.width as usize + x as usize;
        self.pixels.set(i, *rgb);
        self.dirty = true;
        proof {
            assert forall|a: int, b: int| #[trigger]
                self.spec_pixel(a, b) == if a == x && b == y {
                    *rgb
                } else {
                    old(self).spec_pixel(a, b)
                } by {
                if 0 <= a < self.width && 0 <= b < self.height {
                    lemma_cell_index(a, b, self.width as int, self.height as int);
                    if b * self.width + a == i {
                        assert(a == x && b == y) by (nonlinear_arith)
                            requires
                                b * self.width + a == y * self.width + x,
                                0 <= a < self.width,
                                0 <= x < self.width,
                                0 <= b,
                                0 <= y,
                        ;
                    }
                }
            }
        }
    }

    fn width(&self) -> (w: u32) {
        self.width
    }

    fn height(&self) -> (h: u32) {
        self.height
    }

    fn optimize(&self) {
    }

    fn get_base64(&self, x: u32, y: u32, width: u32, height: u32) -> (s: String) {
        let raw = self.region_bytes(x, y, width, height);
        let png = encode_png_rgb(&raw, width, height);
        encode_base64(&png)
    }
}

/// A window onto a store: `width` x `height` pixels whose top-left pixel is
/// `(x, y)` of the store. Coordinates handed to its methods are relative.
#[derive(Debug, Clone, Copy, PartialEq, Eq, Structural)]
pub struct ImageView {
    pub x: u32,
    pub y: u32,
    pub width: u32,
    pub height: u32,
}

impl ImageView {
    /// The window lies inside the store.
    pub open spec fn fits<I: StorableImage>(self, img: &I) -> bool {
        &&& img.inv()
        &&& img.spec_width() <= u32::MAX
        &&& img.spec_height() <= u32::MAX
        &&& self.x + self.width <= img.spec_width()
        &&& self.y + self.height <= img.spec_height()
    }

    /// `(x, y)`, relative, lies inside the window.
    pub open spec fn inside(self, x: int, y: int) -> bool {
        0 <= x < self.width && 0 <= y < self.height
    }

    /// The absolute pixel `(i, j)` lies inside the window.
    pub open spec fn covers(self, i: int, j: int) -> bool {
        self.inside(i - self.x, j - self.y)
    }

    /// The colour seen at relative `(x, y)`: background outside the window.
    pub open spec fn at<I: StorableImage>(self, img: &I, x: int, y: int) -> RGB {
        if self.inside(x, y) {
            img.spec_pixel(self.x + x, self.y + y)
        } else {
            white()
        }
    }

    /// The window whose corners are `from` and `to_inclusive`.
    pub fn new(from: Vector2D, to_inclusive: Vector2D) -> (v: Self)
        requires
            from.x <= to_inclusive.x,
            from.y <= to_inclusive.y,
            to_inclusive.x - from.x < u32::MAX,
            to_inclusive.y - from.y < u32::MAX,
        ensures
            v.x == from.x,
            v.y == from.y,
            v.width == to_inclusive.x - from.x + 1,
            v.height == to_inclusive.y - from.y + 1,
    {
        ImageView {
            x: from.x,
            y: from.y,
            width: to_inclusive.x - from.x + 1,
            height: to_inclusive.y - from.y + 1,
        }
    }

    /// The window over the whole store.
    pub fn from<I: StorableImage>(img: &I) -> (v: Self)
        ensures
            v.x == 0,
            v.y == 0,
            v.width == img.spec_width(),
            v.height == img.spec_height(),
    {
        ImageView { x: 0, y: 0, width: img.width(), height: img.height() }
    }

    pub fn get_pixel<I: StorableImage>(&self, img: &I, x: u32, y: u32) -> (c: RGB)
        requires
            self.fits(img),
        ensures
            c == self.at(img, x as int, y as int),
    {
        if x >= self.width || y >= self.height {
            RGB::blank_color()
        } else {
            img.get_pixel(self.x + x, self.y + y)
        }
    }

    /// Paints relative `(x, y)`; `Err` when it lies outside the window.
    pub fn set_pixel<I: StorableImage>(&self, img: &mut I, x: u32, y: u32, rgb: RGB) -> (r: Result<(), ()>)
        requires
            self.fits(old(img)),
        ensures
            self.fits(final(img)),
            final(img).spec_width() == old(img).spec_width(),
            final(img).spec_height() == old(img).spec_height(),
            r is Ok <==> self.inside(x as int, y as int),
            forall|i: int, j: int| #[trigger]
                final(img).spec_pixel(i, j) == if self.inside(x as int, y as int) && i == self.x + x && j
                    == self.y + y {
                    rgb
                } else {
                    old(img).spec_pixel(i, j)
                },
    {
        if x < self.width && y < self.height {
            img.set_pixel(self.x + x, self.y + y, &rgb);
            Ok(())
        } else {
            Err(())
        }
    }

    /// Paints the whole window in one colour.
    pub fn fill<I: StorableImage>(&self, img: &mut I, rgb: &RGB)
        requires
            self.fits(old(img)),
        ensures
            self.fits(final(img)),
            final(img).spec_width() == old(img).spec_width(),
            final(img).spec_height() == old(img).spec_height(),
            forall|i: int, j: int| #[trigger]
                final(img).spec_pixel(i, j) == if self.covers(i, j) {
                    *rgb
                } else {
                    old(img).spec_pixel(i, j)
                },
    {
        let ghost start = *old(img);
        let mut xx: u32 = 0;
        while xx < self.width
            invariant
                self.fits(img),
                img.spec_width() == start.spec_width(),
                img.spec_height() == start.spec_height(),
                xx <= self.width,
                forall|i: int, j: int| #[trigger]
                    img.spec_pixel(i, j) == if self.covers(i, j) && i - self.x < xx {
                        *rgb
                    } else {
                        start.spec_pixel(i, j)
                    },
            decreases self.width - xx,
        {
            let mut yy: u32 = 0;
            while yy < self.height
                invariant
                    self.fits(img),
                    img.spec_width() == start.spec_width(),
                    img.spec_height() == start.spec_height(),
                    xx < self.width,
                    yy <= self.height,
                    forall|i: int, j: int| #[trigger]
                        img.spec_pixel(i, j) == if self.covers(i, j) && (i - self.x < xx || (i - self.x
                            == xx && j - self.y < yy)) {
                            *rgb
                        } else {
                            start.spec_pixel(i, j)
                        },
                decreases self.height - yy,
            {
                let r = self.set_pixel(img, xx, yy, *rgb);
                yy = yy + 1;
            }
            xx = xx + 1;
        }
    }

    /// Paints the whole window white.
    pub fn clear<I: StorableImage>(&self, img: &mut I)
        requires
            self.fits(old(img)),
        ensures
            self.fits(final(img)),
            final(img).spec_width() == old(img).spec_width(),
            final(img).spec_height() == old(img).spec_height(),
            forall|i: int, j: int| #[trigger]
                final(img).spec_pixel(i, j) == if self.covers(i, j) {
                    white()
                } else {
                    old(img).spec_pixel(i, j)
                },
    {
        self.fill(img, &RGB::blank_color())
    }

    pub fn optimize<I: StorableImage>(&self, img: &I) {
        img.optimize()
    }

    /// The window as base64 text of a PNG file.
    pub fn get_base64<I: StorableImage>(&self, img: &I) -> (s: String)
        requires
            self.fits(img),
        ensures
            s@ == img.spec_base64(self.x as int, self.y as int, self.width as int, self.height as int),
    {
        img.get_base64(self.x, self.y, self.width, self.height)
    }
}

} // verus!
