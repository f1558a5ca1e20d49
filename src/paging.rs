use vstd::prelude::*;

use crate::colors::RGB;

verus! {

/// Rows per strip of the paged store.
pub const SLICE_STEP: u32 = 1024;

/// The little-endian integer of the four bytes at `at`.
pub open spec fn u32_le(b: Seq<u8>, at: int) -> int {
    b[at] + b[at + 1] * 0x100 + b[at + 2] * 0x1_0000 + b[at + 3] * 0x100_0000
}

pub fn read_u32_le(b: &Vec<u8>, at: usize) -> (r: u32)
    requires
        at + 4 <= b@.len(),
    ensures
        r == u32_le(b@, at as int),
{
    let _n = b.len();
    (b[at] as u64 + b[at + 1] as u64 * 0x100 + b[at + 2] as u64 * 0x1_0000 + b[at + 3] as u64 * 0x100_0000) as u32
}

/// What the store needs from the file header: picture size, where the
/// pixel rows start, and the padding that ends each row.
#[derive(Debug, Clone, Copy, PartialEq, Eq, Structural)]
pub struct BMPParams {
    pub width: u32,
    pub height: u32,
    pub data_offset: u32,
    pub data_padding: u32,
}

impl BMPParams {
    /// Bytes per stored row: three per pixel, padded to a multiple of four.
    pub open spec fn row_bytes(self) -> int {
        3 * self.width + self.data_padding
    }

    pub open spec fn wf(self) -> bool {
        &&& self.data_padding < 4
        &&& (3 * self.width + self.data_padding) % 4 == 0
        &&& self.row_bytes() * self.height + self.data_offset <= u64::MAX
    }
}

/// Reads the header: the pixel data offset at byte 10, width at 18 and
/// height at 22, little-endian. `None` when the header is too short or the
/// picture too large to address.
pub fn parse_header(header: &Vec<u8>) -> (r: Option<BMPParams>)
    ensures
        header@.len() < 26 ==> r is None,
        r matches Some(p) ==> {
            &&& p.wf()
            &&& p.data_offset == u32_le(header@, 10)
            &&& p.width == u32_le(header@, 18)
            &&& p.height == u32_le(header@, 22)
        },
        header@.len() >= 26 && u32_le(header@, 18) < 0x4000_0000 && u32_le(header@, 22) < 0x4000_0000 ==> r is Some,
{
    if header.len() < 26 {
        return None;
    }
    let data_offset = read_u32_le(header, 10);
    let width = read_u32_le(header, 18);
    let height = read_u32_le(header, 22);
    if width >= 0x4000_0000 || height >= 0x4000_0000 {
        return None;
    }
    let raw = width as u64 * 3;
    let data_padding = ((4 - raw % 4) % 4) as u32;
    let p = BMPParams { width, height, data_offset, data_padding };
    proof {
        assert(p.row_bytes() * p.height + p.data_offset <= u64::MAX) by (nonlinear_arith)
            requires
                p.row_bytes() == 3 * width + data_padding,
                width < 0x4000_0000,
                height < 0x4000_0000,
                data_padding < 4,
                data_offset <= u32::MAX,
        ;
    }
    Some(p)
}

/// One strip: file rows `y_from..y_to_exclusive`, its bytes while loaded,
/// whether they were written since they were last saved, and when it was
/// loaded.
#[derive(Debug)]
pub struct BMPSlice {
    pub y_from: u32,
    pub y_to_exclusive: u32,
    data: Option<Vec<u8>>,
    dirty: bool,
    pub bmp_params: BMPParams,
    loaded_nr: u32,
}

/// A strip as plain values.
pub struct SliceView {
    pub y_from: int,
    pub y_to: int,
    pub loaded: bool,
    pub dirty: bool,
    pub loaded_nr: int,
    pub data: Seq<u8>,
}

impl View for BMPSlice {
    type V = SliceView;

    closed spec fn view(&self) -> SliceView {
        SliceView {
            y_from: self.y_from as int,
            y_to: self.y_to_exclusive as int,
            loaded: self.data is Some,
            dirty: self.dirty,
            loaded_nr: self.loaded_nr as int,
            data: match self.data {
                Some(d) => d@,
                None => Seq::empty(),
            },
        }
    }
}

impl BMPSlice {
    pub closed spec fn params(&self) -> BMPParams {
        self.bmp_params
    }

    /// Well formed: rows in order inside the picture, and a loaded strip
    /// holds exactly its bytes; only a loaded strip is dirty.
    pub closed spec fn wf(&self) -> bool {
        &&& self.bmp_params.wf()
        &&& self.y_from <= self.y_to_exclusive <= self.bmp_params.height
        &&& self.data matches Some(d) ==> d@.len() == self.spec_capacity()
        &&& self.dirty ==> self.data is Some
    }

    pub closed spec fn spec_capacity(&self) -> int {
        (self.y_to_exclusive - self.y_from) * self.bmp_params.row_bytes()
    }

    pub fn new(y_from: u32, y_to_exclusive: u32, bmp_params: BMPParams) -> (s: Self)
        requires
            bmp_params.wf(),
            y_from <= y_to_exclusive <= bmp_params.height,
        ensures
            s.wf(),
            s.params() == bmp_params,
            s@.y_from == y_from,
            s@.y_to == y_to_exclusive,
            !s@.loaded,
            !s@.dirty,
    {
        BMPSlice { y_from, y_to_exclusive, data: None, dirty: false, bmp_params, loaded_nr: 0 }
    }

    /// Number of bytes of the strip.
    pub fn capacity(&self) -> (n: u64)
        requires
            self.wf(),
        ensures
            n == self.spec_capacity(),
    {
        let rows = (self.y_to_exclusive - self.y_from) as u64;
        let row = 3 * self.bmp_params.width as u64 + self.bmp_params.data_padding as u64;
        proof {
            let p = self.bmp_params;
            assert(rows * row <= row * p.height) by (nonlinear_arith)
                requires
                    rows <= p.height,
                    row >= 0,
            ;
            assert(row * p.height <= p.row_bytes() * p.height + p.data_offset);
        }
        rows * row
    }

    /// Byte position of the strip in the file.
    pub fn seek(&self) -> (n: u64)
        requires
            self.wf(),
        ensures
            n == self.params().data_offset + self@.y_from * self.params().row_bytes(),
    {
        let row = 3 * self.bmp_params.width as u64 + self.bmp_params.data_padding as u64;
        proof {
            let p = self.bmp_params;
            assert(self.y_from * row <= row * p.height) by (nonlinear_arith)
                requires
                    self.y_from <= p.height,
                    row >= 0,
            ;
        }
        self.bmp_params.data_offset as u64 + self.y_from as u64 * row
    }

    pub fn is_loaded(&self) -> (r: bool)
        ensures
            r == self@.loaded,
    {
        self.data.is_some()
    }

    pub fn is_dirty(&self) -> (r: bool)
        ensures
            r == self@.dirty,
    {
        self.dirty
    }

    /// Takes the strip's bytes as read from the file.
    pub fn fill(&mut self, data: Vec<u8>, nr: u32)
        requires
            old(self).wf(),
            !old(self)@.loaded,
            data@.len() == old(self).spec_capacity(),
        ensures
            final(self).wf(),
            final(self).params() == old(self).params(),
            final(self)@ == (SliceView { loaded: true, dirty: false, loaded_nr: nr as int, data: data@, ..old(self)@ }),
    {
        self.data = Some(data);
        self.loaded_nr = nr;
    }

    /// Drops the bytes of a clean strip.
    pub fn unload(&mut self)
        requires
            old(self).wf(),
            !old(self)@.dirty,
        ensures
            final(self).wf(),
            final(self).params() == old(self).params(),
            final(self)@ == (SliceView { loaded: false, data: Seq::empty(), ..old(self)@ }),
    {
        self.data = None;
    }

    /// The bytes to write back, while loaded.
    pub fn data(&self) -> (d: Option<&Vec<u8>>)
        ensures
            d is Some == self@.loaded,
            d matches Some(v) ==> v@ == self@.data,
    {
        self.data.as_ref()
    }

    /// Records that the bytes were written to the file.
    pub fn mark_saved(&mut self)
        requires
            old(self).wf(),
        ensures
            final(self).wf(),
            final(self).params() == old(self).params(),
            final(self)@ == (SliceView { dirty: false, ..old(self)@ }),
    {
        self.dirty = false;
    }

    proof fn lemma_offset(&self, x: int, y: int)
        requires
            self.wf(),
            0 <= x < self.params().width,
            self@.y_from <= y < self@.y_to,
        ensures
            0 <= (y - self@.y_from) * self.params().row_bytes(),
            (y - self@.y_from) * self.params().row_bytes() + 3 * x + 2 < self.spec_capacity(),
            self.spec_capacity() <= u64::MAX,
    {
        let p = self.bmp_params;
        let rb = p.row_bytes();
        let dy = y - self.y_from;
        let rows = self.y_to_exclusive - self.y_from;
        assert(dy * rb + 3 * x + 2 < rows * rb) by (nonlinear_arith)
            requires
                0 <= dy < rows,
                rb == 3 * p.width + p.data_padding,
                0 <= x < p.width,
                p.data_padding >= 0,
        ;
        assert(0 <= dy * rb) by (nonlinear_arith)
            requires
                0 <= dy,
                rb >= 0,
        ;
        assert(rows * rb <= rb * p.height) by (nonlinear_arith)
            requires
                0 <= rows <= p.height,
                rb >= 0,
        ;
    }

    /// The pixel at column `x` of file row `y`: stored blue, green, red.
    pub fn get_pixel(&self, x: u32, y: u32) -> (c: RGB)
        requires
            self.wf(),
            self@.loaded,
            x < self.params().width,
            self@.y_from <= y < self@.y_to,
        ensures
            ({
                let i = (y - self@.y_from) * self.params().row_bytes() + 3 * x;
                &&& 0 <= i
                &&& i + 2 < self@.data.len()
                &&& c == RGB { r: self@.data[i + 2], g: self@.data[i + 1], b: self@.data[i] }
            }),
    {
        proof {
            self.lemma_offset(x as int, y as int);
        }
        let row = 3 * self.bmp_params.width as u64 + self.bmp_params.data_padding as u64;
        let data = self.data.as_ref().unwrap();
        let n = data.len();
        let idx = ((y - self.y_from) as u64 * row + 3 * x as u64) as usize;
        RGB::new(data[idx + 2], data[idx + 1], data[idx])
    }

    /// Paints column `x` of file row `y` and marks the strip dirty.
    pub fn set_pixel(&mut self, x: u32, y: u32, rgb: &RGB)
        requires
            old(self).wf(),
            old(self)@.loaded,
            x < old(self).params().width,
            old(self)@.y_from <= y < old(self)@.y_to,
        ensures
            final(self).wf(),
            final(self).params() == old(self).params(),
            ({
                let i = (y - old(self)@.y_from) * old(self).params().row_bytes() + 3 * x;
                &&& 0 <= i
                &&& i + 2 < old(self)@.data.len()
                &&& final(self)@ == (SliceView {
                    dirty: true,
                    data: old(self)@.data.update(i, rgb.b).update(i + 1, rgb.g).update(i + 2, rgb.r),
                    ..old(self)@
                })
            }),
    {
        proof {
            self.lemma_offset(x as int, y as int);
        }
        let row = 3 * self.bmp_params.width as u64 + self.bmp_params.data_padding as u64;
        let mut data = self.data.take().unwrap();
        let n = data.len();
        let idx = ((y - self.y_from) as u64 * row + 3 * x as u64) as usize;
        data.set(idx, rgb.b);
        data.set(idx + 1, rgb.g);
        data.set(idx + 2, rgb.r);
        self.data = Some(data);
        self.dirty = true;
    }
}

/// Number of loaded strips.
pub open spec fn loaded_count(s: Seq<SliceView>) -> int
    decreases s.len(),
{
    if s.len() == 0 {
        0
    } else {
        loaded_count(s.drop_last()) + if s.last().loaded {
            1int
        } else {
            0
        }
    }
}

proof fn lemma_count_bound(s: Seq<SliceView>)
    ensures
        0 <= loaded_count(s) <= s.len(),
    decreases s.len(),
{
    if s.len() > 0 {
        lemma_count_bound(s.drop_last());
    }
}

proof fn lemma_count_update(s: Seq<SliceView>, j: int, v: SliceView)
    requires
        0 <= j < s.len(),
    ensures
        loaded_count(s.update(j, v)) == loaded_count(s) - (if s[j].loaded { 1int } else { 0 }) + (if v.loaded { 1int } else { 0 }),
    decreases s.len(),
{
    if j < s.len() - 1 {
        lemma_count_update(s.drop_last(), j, v);
        assert(s.update(j, v).drop_last() =~= s.drop_last().update(j, v));
    } else {
        assert(s.update(j, v).drop_last() =~= s.drop_last());
    }
}

/// The strips unloaded between `a` and `b` were loaded no later than any
/// clean strip still loaded in `b`: the least recently loaded go first.
pub open spec fn lru_order(a: Seq<SliceView>, b: Seq<SliceView>) -> bool {
    forall|u: int, k: int|
        0 <= u < a.len() && 0 <= k < b.len() && (#[trigger] a[u]).loaded && !b[u].loaded && (#[trigger] b[k]).loaded
            && !b[k].dirty ==> a[u].loaded_nr <= b[k].loaded_nr
}

/// The lazily loaded strips of a picture stored bottom-up in a file, with
/// the counter that orders their loading.
pub struct StripCache {
    bmp_params: BMPParams,
    slices: Vec<BMPSlice>,
    next_loaded_nr: u32,
}

/// Eviction keeps what must stay: a strip that is loaded afterwards was
/// loaded before with the same bytes, and a dirty strip stays loaded, dirty
/// and unchanged.
pub open spec fn evicted_only_clean(a: Seq<SliceView>, b: Seq<SliceView>) -> bool {
    &&& b.len() == a.len()
    &&& forall|i: int|
        0 <= i < a.len() ==> {
            &&& (#[trigger] b[i]).y_from == a[i].y_from
            &&& b[i].y_to == a[i].y_to
            &&& b[i].loaded_nr == a[i].loaded_nr
            &&& b[i].dirty == a[i].dirty
            &&& (b[i].loaded ==> a[i].loaded && b[i].data == a[i].data)
            &&& (a[i].dirty ==> b[i].loaded && b[i].data == a[i].data)
        }
}

/// Strip `i` of a picture of height `h` covers file rows `1024 * i` up to
/// `1024 * (i + 1)` or the last row, and the strips cover every row once.
pub open spec fn strip_layout(s: Seq<SliceView>, h: int) -> bool {
    &&& forall|i: int|
        0 <= i < s.len() ==> {
            &&& (#[trigger] s[i]).y_from == 1024 * i
            &&& s[i].y_to == if 1024 * (i + 1) <= h { 1024 * (i + 1) } else { h }
        }
    &&& 1024 * s.len() >= h
    &&& s.len() == 0 || 1024 * (s.len() - 1) < h
}

impl StripCache {
    /// The strip holding picture row `y` (rows are stored bottom-up).
    pub open spec fn strip_of(&self, y: int) -> int {
        (self.params().height - 1 - y) / 1024
    }

    /// The byte of pixel `(x, y)` within its strip.
    pub open spec fn byte_of(&self, x: int, y: int) -> int {
        (self.params().height - 1 - y - self.view()[self.strip_of(y)].y_from) * self.params().row_bytes() + 3 * x
    }

    /// Pixel `(x, y)` lies in the picture and its strip is loaded.
    pub open spec fn readable_at(&self, x: int, y: int) -> bool {
        0 <= x < self.params().width && 0 <= y < self.params().height && self.view()[self.strip_of(y)].loaded
    }

    pub closed spec fn view(&self) -> Seq<SliceView> {
        self.slices@.map_values(|s: BMPSlice| s@)
    }

    pub closed spec fn params(&self) -> BMPParams {
        self.bmp_params
    }

    /// Number of bytes of strip `i`.
    pub closed spec fn strip_capacity(&self, i: int) -> int {
        self.slices@[i].spec_capacity()
    }

    pub closed spec fn wf(&self) -> bool {
        &&& self.bmp_params.wf()
        &&& forall|i: int|
            0 <= i < self.slices@.len() ==> {
                &&& (#[trigger] self.slices@[i]).wf()
                &&& self.slices@[i].params() == self.bmp_params
                &&& self.slices@[i]@.y_from == 1024 * i
                &&& self.slices@[i]@.y_to == if 1024 * (i + 1) <= self.bmp_params.height {
                    1024 * (i + 1)
                } else {
                    self.bmp_params.height as int
                }
            }
        &&& 1024 * self.slices@.len() >= self.bmp_params.height
        &&& self.slices@.len() == 0 || 1024 * (self.slices@.len() - 1) < self.bmp_params.height
    }

    /// The strips of `params.height` rows, 1024 rows each but the last.
    pub fn new(bmp_params: BMPParams) -> (c: Self)
        requires
            bmp_params.wf(),
        ensures
            c.wf(),
            c.params() == bmp_params,
            forall|i: int| 0 <= i < c.view().len() ==> !(#[trigger] c.view()[i]).loaded && !c.view()[i].dirty,
            strip_layout(c.view(), bmp_params.height as int),
    {
        let mut slices: Vec<BMPSlice> = Vec::new();
        let mut y: u64 = 0;
        while y < bmp_params.height as u64
            invariant
                bmp_params.wf(),
                y <= bmp_params.height + SLICE_STEP,
                y == 1024 * slices@.len(),
                slices@.len() == 0 || 1024 * (slices@.len() - 1) < bmp_params.height,
                forall|i: int|
                    0 <= i < slices@.len() ==> {
                        &&& (#[trigger] slices@[i]).wf()
                        &&& slices@[i].params() == bmp_params
                        &&& !slices@[i]@.loaded
                        &&& slices@[i]@.y_from == 1024 * i
                        &&& slices@[i]@.y_to == if 1024 * (i + 1) <= bmp_params.height {
                            1024 * (i + 1)
                        } else {
                            bmp_params.height as int
                        }
                    },
            decreases bmp_params.height + SLICE_STEP - y,
        {
            let to = if y + SLICE_STEP as u64 <= bmp_params.height as u64 {
                y + SLICE_STEP as u64
            } else {
                bmp_params.height as u64
            };
            slices.push(BMPSlice::new(y as u32, to as u32, bmp_params));
            y = y + SLICE_STEP as u64;
        }
        StripCache { bmp_params, slices, next_loaded_nr: 1 }
    }

    pub fn width(&self) -> (w: u32)
        ensures
            w == self.params().width,
    {
        self.bmp_params.width
    }

    pub fn height(&self) -> (h: u32)
        ensures
            h == self.params().height,
    {
        self.bmp_params.height
    }

    pub fn len(&self) -> (n: usize)
        ensures
            n == self.view().len(),
    {
        self.slices.len()
    }

    /// The strip that holds picture row `y` (rows are stored bottom-up),
    /// and the file row.
    pub fn locate(&self, y: u32) -> (r: Option<(usize, u32)>)
        requires
            self.wf(),
        ensures
            r is Some <==> y < self.params().height,
            r matches Some((i, fy)) ==> {
                &&& i < self.view().len()
                &&& i == self.strip_of(y as int)
                &&& fy == self.params().height - y - 1
                &&& self.view()[i as int].y_from <= fy < self.view()[i as int].y_to
            },
    {
        if y >= self.bmp_params.height {
            return None;
        }
        let fy = self.bmp_params.height - y - 1;
        let i = (fy / SLICE_STEP) as usize;
        proof {
            vstd::arithmetic::div_mod::lemma_fundamental_div_mod(fy as int, 1024);
            let q = fy as int / 1024;
            if q >= self.slices@.len() {
                assert(1024 * q >= 1024 * self.slices@.len()) by (nonlinear_arith)
                    requires
                        q >= self.slices@.len(),
                ;
            }
            assert(q < self.slices@.len());
            assert(self.slices@[q]@.y_from == 1024 * q);
            assert(self.slices@[q]@ == self.view()[q]);
        }
        if i < self.slices.len() && self.slices[i].y_from <= fy && fy < self.slices[i].y_to_exclusive {
            Some((i, fy))
        } else {
            None
        }
    }

    pub fn slice(&self, i: usize) -> (s: &BMPSlice)
        requires
            i < self.view().len(),
        ensures
            s@ == self.view()[i as int],
    {
        &self.slices[i]
    }

    /// Takes strip `i`'s bytes, read from the file, and stamps it with the
    /// next load number.
    pub fn load(&mut self, i: usize, data: Vec<u8>)
        requires
            old(self).wf(),
            i < old(self).view().len(),
            !old(self).view()[i as int].loaded,
            data@.len() == old(self).strip_capacity(i as int),
        ensures
            final(self).wf(),
            final(self).params() == old(self).params(),
            final(self).view().len() == old(self).view().len(),
            final(self).view()[i as int].loaded,
            final(self).view()[i as int].data == data@,
            forall|j: int| 0 <= j < old(self).view().len() && j != i ==> #[trigger] final(self).view()[j] == old(self).view()[j],
    {
        let nr = self.next_loaded_nr;
        let mut s = self.slices.remove(i);
        s.fill(data, nr);
        self.slices.insert(i, s);
        if self.next_loaded_nr < u32::MAX {
            self.next_loaded_nr = self.next_loaded_nr + 1;
        }
        assert forall|j: int| 0 <= j < self.slices@.len() implies {
            &&& (#[trigger] self.slices@[j]).wf()
            &&& self.slices@[j].params() == self.bmp_params
        } by {
            if j != i {
                assert(self.slices@[j] == old(self).slices@[j]);
            }
        }
    }

    /// Strip `i`'s bytes, as needed to read it in.
    pub fn capacity_of(&self, i: usize) -> (n: u64)
        requires
            self.wf(),
            i < self.view().len(),
        ensures
            n == self.strip_capacity(i as int),
    {
        self.slices[i].capacity()
    }

    /// Records that dirty strip `i` was written to the file.
    pub fn mark_saved(&mut self, i: usize)
        requires
            old(self).wf(),
            i < old(self).view().len(),
        ensures
            final(self).wf(),
            final(self).params() == old(self).params(),
            final(self).view() == old(self).view().update(i as int, SliceView { dirty: false, ..old(self).view()[i as int] }),
    {
        let mut s = self.slices.remove(i);
        s.mark_saved();
        self.slices.insert(i, s);
        assert forall|j: int| 0 <= j < self.slices@.len() implies {
            &&& (#[trigger] self.slices@[j]).wf()
            &&& self.slices@[j].params() == self.bmp_params
        } by {
            if j != i {
                assert(self.slices@[j] == old(self).slices@[j]);
            }
        }
        assert(self.view() =~= old(self).view().update(i as int, SliceView { dirty: false, ..old(self).view()[i as int] }));
    }

    /// The colour of picture pixel `(x, y)`, if its strip is loaded.
    pub fn get_pixel(&self, x: u32, y: u32) -> (r: Option<RGB>)
        requires
            self.wf(),
        ensures
            r is Some <==> self.readable_at(x as int, y as int),
            self.readable_at(x as int, y as int) ==> 0 <= self.byte_of(x as int, y as int) && self.byte_of(x as int, y as int) + 2
                < self.view()[self.strip_of(y as int)].data.len(),
            r matches Some(c) ==> {
                let d = self.view()[self.strip_of(y as int)].data;
                let i = self.byte_of(x as int, y as int);
                c == RGB { r: d[i + 2], g: d[i + 1], b: d[i] }
            },
    {
        if x >= self.bmp_params.width {
            return None;
        }
        match self.locate(y) {
            Some((i, fy)) => {
                if self.slices[i].is_loaded() {
                    Some(self.slices[i].get_pixel(x, fy))
                } else {
                    None
                }
            },
            None => None,
        }
    }

    /// Paints picture pixel `(x, y)` if its strip is loaded, which makes the
    /// strip dirty; `false` when the strip must be loaded first.
    pub fn set_pixel(&mut self, x: u32, y: u32, rgb: &RGB) -> (done: bool)
        requires
            old(self).wf(),
        ensures
            final(self).wf(),
            final(self).params() == old(self).params(),
            final(self).view().len() == old(self).view().len(),
            done <==> old(self).readable_at(x as int, y as int),
            done ==> 0 <= old(self).byte_of(x as int, y as int) && old(self).byte_of(x as int, y as int) + 2
                < old(self).view()[old(self).strip_of(y as int)].data.len(),
            !done ==> final(self).view() == old(self).view(),
            done ==> {
                let si = old(self).strip_of(y as int);
                let i = old(self).byte_of(x as int, y as int);
                let s0 = old(self).view()[si];
                final(self).view() == old(self).view().update(si, SliceView {
                    dirty: true,
                    data: s0.data.update(i, rgb.b).update(i + 1, rgb.g).update(i + 2, rgb.r),
                    ..s0
                })
            },
            forall|j: int| 0 <= j < old(self).view().len() ==> {
                &&& (#[trigger] final(self).view()[j]).loaded == old(self).view()[j].loaded
                &&& (old(self).view()[j].dirty ==> final(self).view()[j].dirty)
            },
    {
        if x >= self.bmp_params.width {
            return false;
        }
        match self.locate(y) {
            Some((i, fy)) => {
                if self.slices[i].is_loaded() {
                    let ghost before = self.slices@;
                    let mut s = self.slices.remove(i);
                    s.set_pixel(x, fy, rgb);
                    self.slices.insert(i, s);
                    proof {
                        assert forall|j: int| 0 <= j < self.slices@.len() implies {
                            &&& (#[trigger] self.slices@[j]).wf()
                            &&& self.slices@[j].params() == self.bmp_params
                        } by {
                            if j != i {
                                assert(self.slices@[j] == before[j]);
                            }
                        }
                        assert forall|j: int| 0 <= j < old(self).view().len() implies {
                            &&& (#[trigger] self.view()[j]).loaded == old(self).view()[j].loaded
                            &&& (old(self).view()[j].dirty ==> self.view()[j].dirty)
                        } by {
                            if j != i {
                                assert(self.slices@[j] == before[j]);
                            }
                        }
                        assert(self.view() =~= old(self).view().update(i as int, self.view()[i as int]));
                    }
                    true
                } else {
                    false
                }
            },
            None => false,
        }
    }

    /// The loaded clean strip loaded longest ago, if any.
    fn oldest_clean(&self) -> (r: Option<usize>)
        requires
            self.wf(),
        ensures
            r matches Some(j) ==> {
                &&& j < self.view().len()
                &&& self.view()[j as int].loaded
                &&& !self.view()[j as int].dirty
                &&& forall|k: int|
                    0 <= k < self.view().len() && (#[trigger] self.view()[k]).loaded && !self.view()[k].dirty
                        ==> self.view()[j as int].loaded_nr <= self.view()[k].loaded_nr
            },
            r is None ==> forall|k: int| 0 <= k < self.view().len() ==> !(#[trigger] self.view()[k]).loaded || self.view()[k].dirty,
    {
        let mut best: Option<usize> = None;
        let mut k: usize = 0;
        while k < self.slices.len()
            invariant
                self.wf(),
                k <= self.view().len(),
                best matches Some(j) ==> {
                    &&& j < k
                    &&& self.view()[j as int].loaded
                    &&& !self.view()[j as int].dirty
                    &&& forall|m: int|
                        0 <= m < k && (#[trigger] self.view()[m]).loaded && !self.view()[m].dirty
                            ==> self.view()[j as int].loaded_nr <= self.view()[m].loaded_nr
                },
                best is None ==> forall|m: int| 0 <= m < k ==> !(#[trigger] self.view()[m]).loaded || self.view()[m].dirty,
            decreases self.slices.len() - k,
        {
            let s = &self.slices[k];
            assert(s@ == self.view()[k as int]);
            if s.is_loaded() && !s.is_dirty() {
                match best {
                    Some(j) => {
                        if s.loaded_nr < self.slices[j].loaded_nr {
                            best = Some(k);
                        }
                    },
                    None => {
                        best = Some(k);
                    },
                }
            }
            k = k + 1;
        }
        best
    }

    /// Unloads clean strips, the one loaded longest ago first, while at
    /// least half of the strips are loaded (when there is more than one).
    /// Dirty strips are never unloaded.
    pub fn optimize(&mut self)
        requires
            old(self).wf(),
        ensures
            final(self).wf(),
            final(self).params() == old(self).params(),
            evicted_only_clean(old(self).view(), final(self).view()),
            old(self).view().len() > 1 ==> loaded_count(final(self).view()) < old(self).view().len() / 2
                || forall|i: int| 0 <= i < final(self).view().len() && (#[trigger] final(self).view()[i]).loaded ==> final(self).view()[i].dirty,
            old(self).view().len() <= 1 ==> final(self).view() == old(self).view(),
            lru_order(old(self).view(), final(self).view()),
            (exists|u: int| 0 <= u < old(self).view().len() && #[trigger] old(self).view()[u].loaded && !final(self).view()[u].loaded)
                ==> loaded_count(final(self).view()) + 1 >= old(self).view().len() / 2,
    {
        let count = self.slices.len();
        if count <= 1 {
            return;
        }
        let ghost start = self.view();
        let mut loaded: usize = 0;
        let mut k: usize = 0;
        while k < count
            invariant
                self.wf(),
                self.bmp_params == old(self).bmp_params,
                self.view() == start,
                start == old(self).view(),
                count == self.view().len(),
                k <= count,
                loaded == loaded_count(self.view().subrange(0, k as int)),
                loaded <= k,
            decreases count - k,
        {
            assert(self.view().subrange(0, k + 1).drop_last() =~= self.view().subrange(0, k as int));
            assert(self.slices@[k as int]@ == self.view()[k as int]);
            if self.slices[k].is_loaded() {
                loaded = loaded + 1;
            }
            k = k + 1;
        }
        assert(self.view().subrange(0, count as int) =~= self.view());
        while loaded >= count / 2
            invariant
                self.wf(),
                count == self.view().len(),
                count > 1,
                self.bmp_params == old(self).bmp_params,
                start == old(self).view(),
                loaded == loaded_count(self.view()),
                evicted_only_clean(start, self.view()),
                lru_order(start, self.view()),
                (exists|u: int| 0 <= u < start.len() && #[trigger] start[u].loaded && !self.view()[u].loaded)
                    ==> loaded + 1 >= count / 2,
            decreases loaded,
        {
            match self.oldest_clean() {
                Some(j) => {
                    let ghost before = self.view();
                    let ghost before_s = self.slices@;
                    let mut s = self.slices.remove(j);
                    s.unload();
                    self.slices.insert(j, s);
                    proof {
                        assert forall|i: int| 0 <= i < self.slices@.len() implies {
                            &&& (#[trigger] self.slices@[i]).wf()
                            &&& self.slices@[i].params() == self.bmp_params
                        } by {
                            if i != j {
                                assert(self.slices@[i] == before_s[i]);
                            }
                        }
                        assert(self.view() =~= before.update(j as int, self.view()[j as int]));
                        lemma_count_update(before, j as int, self.view()[j as int]);
                        assert forall|u: int, k: int|
                            0 <= u < start.len() && 0 <= k < self.view().len() && (#[trigger] start[u]).loaded && !self.view()[u].loaded
                                && (#[trigger] self.view()[k]).loaded && !self.view()[k].dirty implies start[u].loaded_nr <= self.view()[k].loaded_nr by {
                            assert(k != j);
                            assert(self.view()[k] == before[k]);
                            if u == j {
                                assert(before[j as int].loaded_nr <= before[k].loaded_nr);
                                assert(start[u].loaded_nr == before[u].loaded_nr);
                            } else {
                                assert(self.view()[u] == before[u]);
                            }
                        }
                    }
                    loaded = loaded - 1;
                },
                None => {
                    return;
                },
            }
        }
    }
}

} // verus!
