use vstd::prelude::*;

use crate::blocks::{Block, BlocksMap};
use crate::colors::{RGB, blank, hex_color, meta, white};
use crate::image::StorableImage;
use crate::model::{Field, FieldType, Record, Vector2D};

verus! {

/// The code of a field that holds an image; also what a blank stamp reads as.
pub const DEFAULT_TYPE: u16 = 0b000_000_000;

/// A store whose coordinates fit `u32` and whose own invariant holds.
pub open spec fn readable<I: StorableImage>(img: &I) -> bool {
    &&& img.inv()
    &&& img.spec_width() <= u32::MAX
    &&& img.spec_height() <= u32::MAX
}

/// The colour at `(x, y)`, background off the grid.
pub open spec fn px<I: StorableImage>(img: &I, x: int, y: int) -> RGB {
    if 0 <= x < img.spec_width() && 0 <= y < img.spec_height() {
        img.spec_pixel(x, y)
    } else {
        white()
    }
}

pub open spec fn blank_at<I: StorableImage>(img: &I, x: int, y: int) -> bool {
    blank(px(img, x, y))
}

pub open spec fn meta_at<I: StorableImage>(img: &I, x: int, y: int) -> bool {
    meta(px(img, x, y))
}

/// `(x, y)` is the top-left corner of a bordered block: marker there, to its
/// right and below it; background above, to the left and on the diagonals
/// above and below-left.
pub open spec fn signature<I: StorableImage>(img: &I, x: int, y: int) -> bool {
    &&& meta_at(img, x, y)
    &&& blank_at(img, x, y - 1)
    &&& blank_at(img, x - 1, y - 1)
    &&& meta_at(img, x + 1, y)
    &&& meta_at(img, x, y + 1)
    &&& blank_at(img, x + 1, y - 1)
    &&& blank_at(img, x - 1, y)
    &&& blank_at(img, x - 1, y + 1)
}

pub open spec fn bit<I: StorableImage>(img: &I, x: int, y: int, weight: int) -> int {
    if blank_at(img, x, y) {
        0
    } else {
        weight
    }
}

/// The 9-bit code of the 3x3 stamp whose top-left pixel is `(x, y)`:
/// one bit per non-background pixel, row-major, most significant first.
pub open spec fn stamp_code<I: StorableImage>(img: &I, x: int, y: int) -> int {
    bit(img, x, y, 256) + bit(img, x + 1, y, 128) + bit(img, x + 2, y, 64) + bit(img, x, y + 1, 32)
        + bit(img, x + 1, y + 1, 16) + bit(img, x + 2, y + 1, 8) + bit(img, x, y + 2, 4) + bit(
        img,
        x + 1,
        y + 2,
        2,
    ) + bit(img, x + 2, y + 2, 1)
}

/// `a - k` on 32 bits, wrapping below zero.
pub open spec fn wrap_sub(a: u32, k: u32) -> u32 {
    if a >= k {
        (a - k) as u32
    } else {
        (a as int + 0x1_0000_0000 - k) as u32
    }
}

/// The type stamp of a block sits two pixels left of its right edge and
/// three above its top edge.
pub open spec fn stamp_anchor(b: Block) -> Vector2D {
    Vector2D { x: wrap_sub(b.x2, 2), y: wrap_sub(b.y1, 3) }
}

/// The type code of a block: its stamp, or, where the stamp reads as the
/// default code, the 3x3 at the top-left of its payload.
pub open spec fn block_type<I: StorableImage>(img: &I, b: Block, data_start: Vector2D) -> int {
    let c = stamp_code(img, b.x2 - 2, b.y1 - 3);
    if c == DEFAULT_TYPE {
        stamp_code(img, data_start.x as int, data_start.y as int)
    } else {
        c
    }
}

/// Where the payload's top-left corner lands: step diagonally inward from
/// `(x, y)` while the pixel is a marker and the bottom-right corner
/// `(x2, y2)` is not reached.
pub open spec fn erode_start<I: StorableImage>(img: &I, x: int, y: int, x2: int, y2: int) -> (int, int)
    decreases x2 - x,
{
    if meta_at(img, x, y) && x < x2 && y < y2 {
        erode_start(img, x + 1, y + 1, x2, y2)
    } else {
        (x, y)
    }
}

/// Where the payload's bottom-right corner lands: step diagonally inward
/// from `(x, y)` while the pixel is a marker and the top-left corner
/// `(sx, sy)` is not reached.
pub open spec fn erode_end<I: StorableImage>(img: &I, x: int, y: int, sx: int, sy: int) -> (int, int)
    decreases x - sx,
{
    if meta_at(img, x, y) && x > sx && y > sy {
        erode_end(img, x - 1, y - 1, sx, sy)
    } else {
        (x, y)
    }
}

/// Block `b`, recorded as `rec`, is what the scanner derives from its anchor:
/// the marker runs right and down from the anchor, the payload rectangle
/// lies inside the border, and the field carries the decoded type.
pub open spec fn discovered<I: StorableImage>(img: &I, rec: Record, b: Block) -> bool {
    let f = rec.fields@[0];
    &&& rec.position == Vector2D { x: b.x1, y: b.y1 }
    &&& rec.rb_position == Vector2D { x: b.x2, y: b.y2 }
    &&& signature(img, b.x1 as int, b.y1 as int)
    &&& 1 <= b.x1 < b.x2 < img.spec_width()
    &&& 1 <= b.y1 < b.y2 < img.spec_height()
    &&& forall|x: int| b.x1 <= x <= b.x2 ==> #[trigger] meta_at(img, x, b.y1 as int)
    &&& !meta_at(img, b.x2 + 1, b.y1 as int)
    &&& forall|y: int| b.y1 <= y <= b.y2 ==> #[trigger] meta_at(img, b.x1 as int, y)
    &&& !meta_at(img, b.x1 as int, b.y2 + 1)
    &&& rec.fields@.len() == 1
    &&& b.x1 < f.data_start.x <= f.data_end.x <= b.x2
    &&& b.y1 < f.data_start.y <= f.data_end.y <= b.y2
    &&& (meta_at(img, b.x2 as int, b.y2 as int) && f.data_start.x < b.x2 && f.data_start.y < b.y2) ==> f.data_end.x
        < b.x2 && f.data_end.y < b.y2
    &&& (f.data_start.x as int, f.data_start.y as int) == erode_start(img, b.x1 as int, b.y1 as int, b.x2 as int, b.y2 as int)
    &&& (f.data_end.x as int, f.data_end.y as int) == erode_end(img, b.x2 as int, b.y2 as int, f.data_start.x as int, f.data_start.y as int)
    &&& f.type_start == stamp_anchor(b)
    &&& f.field_type.0 == block_type(img, b, f.data_start)
    &&& f.ref_to_record is None
    &&& rec.column@ == hex_color(px(img, b.x1 as int, 0))
}

/// Blocks are found in row-major order of their anchors, and no block's
/// anchor lies in a block found before it.
pub open spec fn fresh_anchors(blocks: Seq<Block>) -> bool {
    forall|k: int, i: int|
        0 <= k < i < blocks.len() ==> {
            &&& !(#[trigger] blocks[k]).holds((#[trigger] blocks[i]).x1 as int, blocks[i].y1 as int)
            &&& (blocks[k].y1 < blocks[i].y1 || (blocks[k].y1 == blocks[i].y1 && blocks[k].x1 < blocks[i].x1))
        }
}

/// Every anchor of the grid lies in some block: either it starts one, or a
/// block found earlier already covers it.
pub open spec fn complete<I: StorableImage>(img: &I, blocks: Seq<Block>) -> bool {
    forall|x: int, y: int|
        1 <= x < img.spec_width() && 1 <= y < img.spec_height() && #[trigger] signature(img, x, y)
            ==> exists|i: int| 0 <= i < blocks.len() && (#[trigger] blocks[i]).holds(x, y)
}

pub fn pixel<I: StorableImage>(img: &I, x: i64, y: i64) -> (c: RGB)
    requires
        readable(img),
    ensures
        c == px(img, x as int, y as int),
{
    let w = img.width();
    let h = img.height();
    if 0 <= x && x < w as i64 && 0 <= y && y < h as i64 {
        img.get_pixel(x as u32, y as u32)
    } else {
        RGB::blank_color()
    }
}

fn is_blank_px<I: StorableImage>(img: &I, x: i64, y: i64) -> (r: bool)
    requires
        readable(img),
    ensures
        r == blank_at(img, x as int, y as int),
{
    pixel(img, x, y).is_blank()
}

fn is_meta_px<I: StorableImage>(img: &I, x: i64, y: i64) -> (r: bool)
    requires
        readable(img),
    ensures
        r == meta_at(img, x as int, y as int),
{
    pixel(img, x, y).is_meta()
}

fn bit_of<I: StorableImage>(img: &I, x: i64, y: i64, weight: u16) -> (r: u16)
    requires
        readable(img),
    ensures
        r == bit(img, x as int, y as int, weight as int),
{
    if is_blank_px(img, x, y) {
        0
    } else {
        weight
    }
}

/// Reads the 3x3 stamp whose top-left pixel is `(x, y)`.
pub fn read_stamp<I: StorableImage>(img: &I, x: i64, y: i64) -> (code: u16)
    requires
        readable(img),
        -0x1_0000_0000 <= x <= 0x1_0000_0000,
        -0x1_0000_0000 <= y <= 0x1_0000_0000,
    ensures
        code == stamp_code(img, x as int, y as int),
        code < 512,
{
    bit_of(img, x, y, 256) + bit_of(img, x + 1, y, 128) + bit_of(img, x + 2, y, 64) + bit_of(
        img,
        x,
        y + 1,
        32,
    ) + bit_of(img, x + 1, y + 1, 16) + bit_of(img, x + 2, y + 1, 8) + bit_of(img, x, y + 2, 4)
        + bit_of(img, x + 1, y + 2, 2) + bit_of(img, x + 2, y + 2, 1)
}

fn wrapping_sub(a: u32, k: u32) -> (r: u32)
    ensures
        r == wrap_sub(a, k),
{
    if a >= k {
        a - k
    } else {
        ((a as u64 + 0x1_0000_0000) - k as u64) as u32
    }
}

/// Decodes the block whose anchor is `(x, y)`.
fn read_block<I: StorableImage>(img: &I, x: u32, y: u32, id: usize) -> (r: (Record, Block))
    requires
        readable(img),
        1 <= x < img.spec_width(),
        1 <= y < img.spec_height(),
        signature(img, x as int, y as int),
    ensures
        discovered(img, r.0, r.1),
        r.1.block_id == id,
        r.1.x1 == x,
        r.1.y1 == y,
{
    let mut x2 = x;
    while is_meta_px(img, x2 as i64 + 1, y as i64)
        invariant
            readable(img),
            x <= x2 < img.spec_width(),
            forall|xx: int| x <= xx <= x2 ==> #[trigger] meta_at(img, xx, y as int),
        decreases img.spec_width() - x2,
    {
        x2 = x2 + 1;
    }
    let mut y2 = y;
    while is_meta_px(img, x as i64, y2 as i64 + 1)
        invariant
            readable(img),
            y <= y2 < img.spec_height(),
            forall|yy: int| y <= yy <= y2 ==> #[trigger] meta_at(img, x as int, yy),
        decreases img.spec_height() - y2,
    {
        y2 = y2 + 1;
    }
    assert(meta_at(img, x + 1, y as int));
    assert(meta_at(img, x as int, y + 1));
    let mut sx = x;
    let mut sy = y;
    while is_meta_px(img, sx as i64, sy as i64) && sx < x2 && sy < y2
        invariant
            readable(img),
            x <= sx <= x2,
            y <= sy <= y2,
            sx - x == sy - y,
            x2 < img.spec_width(),
            y2 < img.spec_height(),
            erode_start(img, sx as int, sy as int, x2 as int, y2 as int) == erode_start(img, x as int, y as int, x2 as int, y2 as int),
        decreases x2 - sx,
    {
        sx = sx + 1;
        sy = sy + 1;
    }
    let mut ex = x2;
    let mut ey = y2;
    while is_meta_px(img, ex as i64, ey as i64) && ex > sx && ey > sy
        invariant
            readable(img),
            sx <= ex <= x2,
            sy <= ey <= y2,
            ex - sx <= x2 - sx,
            x2 - ex == y2 - ey,
            erode_end(img, ex as int, ey as int, sx as int, sy as int) == erode_end(img, x2 as int, y2 as int, sx as int, sy as int),
        decreases ex,
    {
        ex = ex - 1;
        ey = ey - 1;
    }
    let block = Block { x1: x, y1: y, x2, y2, block_id: id };
    let stamp_x = wrapping_sub(x2, 2);
    let stamp_y = wrapping_sub(y, 3);
    let mut code = read_stamp(img, x2 as i64 - 2, y as i64 - 3);
    if code == DEFAULT_TYPE {
        code = read_stamp(img, sx as i64, sy as i64);
    }
    let column = pixel(img, x as i64, 0).to_hex_color();
    let field = Field {
        field_type: FieldType(code),
        data_start: Vector2D { x: sx, y: sy },
        data_end: Vector2D { x: ex, y: ey },
        type_start: Vector2D { x: stamp_x, y: stamp_y },
        ref_to_record: None,
    };
    let mut fields: Vec<Field> = Vec::new();
    fields.push(field);
    let rec = Record {
        position: Vector2D { x, y },
        fields,
        column,
        rb_position: Vector2D { x: x2, y: y2 },
    };
    (rec, block)
}

/// Scans the grid row by row, left to right, once, and returns one record
/// per block found, in discovery order, with the index of their rectangles.
/// A pixel with the corner signature starts a block unless an earlier block
/// already covers it.
pub fn scan_blocks<I: StorableImage>(img: &I) -> (r: (Vec<Record>, BlocksMap))
    requires
        readable(img),
    ensures
        r.1.wf(),
        r.0@.len() == r.1.view().len(),
        forall|i: int| 0 <= i < r.0@.len() ==> #[trigger] discovered(img, r.0@[i], r.1.view()[i]),
        forall|i: int| 0 <= i < r.0@.len() ==> (#[trigger] r.1.view()[i]).block_id == i,
        complete(img, r.1.view()),
        fresh_anchors(r.1.view()),
{
    let w = img.width();
    let h = img.height();
    let mut records: Vec<Record> = Vec::new();
    let mut blocks = BlocksMap::new();
    let mut y: u32 = 1;
    while y < h
        invariant
            readable(img),
            w == img.spec_width(),
            h == img.spec_height(),
            1 <= y,
            y <= h || h == 0,
            blocks.wf(),
            records@.len() == blocks.view().len(),
            forall|i: int| 0 <= i < records@.len() ==> #[trigger] discovered(img, records@[i], blocks.view()[i]),
            fresh_anchors(blocks.view()),
            forall|k: int| 0 <= k < blocks.view().len() ==> (#[trigger] blocks.view()[k]).y1 < y || (blocks.view()[k].y1 == y && blocks.view()[k].x1 < 1),
            forall|i: int| 0 <= i < records@.len() ==> (#[trigger] blocks.view()[i]).block_id == i,
            forall|xx: int, yy: int|
                1 <= xx < w && 1 <= yy < y && #[trigger] signature(img, xx, yy) ==> exists|i: int|
                    0 <= i < blocks.view().len() && (#[trigger] blocks.view()[i]).holds(xx, yy),
        decreases h - y,
    {
        let mut x: u32 = 1;
        while x < w
            invariant
                readable(img),
                w == img.spec_width(),
                h == img.spec_height(),
                1 <= y < h,
                1 <= x,
                x <= w || w == 0,
                blocks.wf(),
                records@.len() == blocks.view().len(),
                forall|i: int| 0 <= i < records@.len() ==> #[trigger] discovered(img, records@[i], blocks.view()[i]),
                fresh_anchors(blocks.view()),
                forall|k: int| 0 <= k < blocks.view().len() ==> (#[trigger] blocks.view()[k]).y1 < y || (blocks.view()[k].y1 == y && blocks.view()[k].x1 < x),
                forall|i: int| 0 <= i < records@.len() ==> (#[trigger] blocks.view()[i]).block_id == i,
                forall|xx: int, yy: int|
                    1 <= xx < w && 1 <= yy && (yy < y || (yy == y && xx < x)) && #[trigger] signature(img, xx, yy)
                        ==> exists|i: int| 0 <= i < blocks.view().len() && (#[trigger] blocks.view()[i]).holds(xx, yy),
            decreases w - x,
        {
            let xi = x as i64;
            let yi = y as i64;
            if is_meta_px(img, xi, yi) && is_blank_px(img, xi, yi - 1) && is_blank_px(img, xi - 1, yi - 1)
                && is_meta_px(img, xi + 1, yi) && is_meta_px(img, xi, yi + 1) && is_blank_px(img, xi + 1, yi - 1)
                && is_blank_px(img, xi - 1, yi) && is_blank_px(img, xi - 1, yi + 1) {
                match blocks.get_block(x, y) {
                    Some(b) => {
                        assert(blocks.view()[b.block_id as int].holds(x as int, y as int));
                    },
                    None => {
                        let id = blocks.len();
                        let (rec, block) = read_block(img, x, y, id);
                        let ghost before = blocks.view();
                        blocks.add(block);
                        records.push(rec);
                        proof {
                            assert(blocks.view()[id as int] == block);
                            assert forall|k: int, i: int| 0 <= k < i < blocks.view().len() implies {
                                &&& !(#[trigger] blocks.view()[k]).holds((#[trigger] blocks.view()[i]).x1 as int, blocks.view()[i].y1 as int)
                                &&& (blocks.view()[k].y1 < blocks.view()[i].y1 || (blocks.view()[k].y1 == blocks.view()[i].y1 && blocks.view()[k].x1 < blocks.view()[i].x1))
                            } by {
                                assert(blocks.view()[k] == before[k]);
                                if i < id {
                                    assert(blocks.view()[i] == before[i]);
                                }
                            }
                            assert(block.holds(x as int, y as int));
                            assert forall|i: int| 0 <= i < records@.len() implies #[trigger] discovered(
                                img,
                                records@[i],
                                blocks.view()[i],
                            ) by {
                                if i < id {
                                    assert(blocks.view()[i] == before[i]);
                                }
                            }
                            assert forall|xx: int, yy: int|
                                1 <= xx < w && 1 <= yy && (yy < y || (yy == y && xx < x)) && #[trigger] signature(
                                    img,
                                    xx,
                                    yy,
                                ) implies exists|i: int|
                                0 <= i < blocks.view().len() && (#[trigger] blocks.view()[i]).holds(xx, yy) by {
                                let i = choose|i: int| 0 <= i < before.len() && (#[trigger] before[i]).holds(xx, yy);
                                assert(blocks.view()[i] == before[i]);
                            }
                        }
                    },
                }
            }
            x = x + 1;
        }
        img.optimize();
        y = y + 1;
    }
    (records, blocks)
}

} // verus!
