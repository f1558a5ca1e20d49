use vstd::prelude::*;
use vstd::arithmetic::div_mod::lemma_fundamental_div_mod_converse;

use crate::codecs::{invalid_type, unchanged, wrong_type};
use crate::colors::{RGB, white};
use crate::image::{ImageView, StorableImage};
use crate::model::DataError;
use crate::value::DataValue;

verus! {

/// The colour of pixel `k` of a column-major fill with the runs: the first
/// run's colour for its first pixels, then the next run's, and background
/// after the last.
pub open spec fn run_color(runs: Seq<(RGB, u64)>, k: int) -> RGB
    decreases runs.len(),
{
    if runs.len() == 0 {
        white()
    } else if k < runs[0].1 {
        runs[0].0
    } else {
        run_color(runs.drop_first(), k - runs[0].1)
    }
}

/// Number of pixels of the first `r` runs.
pub open spec fn prefix(runs: Seq<(RGB, u64)>, r: int) -> int
    decreases r,
{
    if r <= 0 || runs.len() == 0 {
        0
    } else {
        runs[0].1 + prefix(runs.drop_first(), r - 1)
    }
}

proof fn lemma_prefix_step(runs: Seq<(RGB, u64)>, r: int)
    requires
        0 <= r < runs.len(),
    ensures
        prefix(runs, r + 1) == prefix(runs, r) + runs[r].1,
        prefix(runs, r) >= 0,
    decreases r,
{
    let rest = runs.drop_first();
    if r > 0 {
        lemma_prefix_step(rest, r - 1);
        assert(rest[r - 1] == runs[r]);
    } else {
        assert(prefix(rest, 0) == 0);
    }
}

proof fn lemma_run_color_in(runs: Seq<(RGB, u64)>, r: int, k: int)
    requires
        0 <= r < runs.len(),
        prefix(runs, r) <= k < prefix(runs, r) + runs[r].1,
    ensures
        run_color(runs, k) == runs[r].0,
    decreases r,
{
    if r > 0 {
        lemma_prefix_nonneg(runs.drop_first(), r - 1);
        lemma_run_color_in(runs.drop_first(), r - 1, k - runs[0].1);
    }
}

proof fn lemma_prefix_nonneg(runs: Seq<(RGB, u64)>, r: int)
    ensures
        prefix(runs, r) >= 0,
    decreases r,
{
    if r > 0 && runs.len() > 0 {
        lemma_prefix_nonneg(runs.drop_first(), r - 1);
    }
}

proof fn lemma_run_color_after(runs: Seq<(RGB, u64)>, k: int)
    requires
        k >= prefix(runs, runs.len() as int),
    ensures
        run_color(runs, k) == white(),
    decreases runs.len(),
{
    if runs.len() > 0 {
        lemma_prefix_nonneg(runs.drop_first(), runs.len() - 1);
        lemma_run_color_after(runs.drop_first(), k - runs[0].1);
    }
}

/// Pixel `(i, j)` of the window sits at this place of a column-major scan.
pub open spec fn scan_index(v: ImageView, i: int, j: int) -> int {
    (i - v.x) * v.height + (j - v.y)
}

/// `b` is `a` with the window of `v` filled column-major with the runs and
/// cleared past them.
pub open spec fn runs_painted<I: StorableImage>(v: ImageView, a: &I, b: &I, runs: Seq<(RGB, u64)>) -> bool {
    &&& b.spec_width() == a.spec_width()
    &&& b.spec_height() == a.spec_height()
    &&& forall|i: int, j: int| #[trigger]
        b.spec_pixel(i, j) == if v.covers(i, j) {
            run_color(runs, scan_index(v, i, j))
        } else {
            a.spec_pixel(i, j)
        }
}

/// Clears the field, then paints each colour's number of pixels in turn,
/// column by column, stopping at the end of the field.
pub fn write_histogram<I: StorableImage>(view: &ImageView, img: &mut I, value: DataValue) -> (r: Result<(), DataError>)
    requires
        view.fits(old(img)),
    ensures
        view.fits(final(img)),
        match value {
            DataValue::Histogram { value: runs, .. } => r is Ok && runs_painted(*view, old(img), final(img), runs@),
            _ => r == Err::<(), DataError>(wrong_type()) && unchanged(old(img), final(img)),
        },
{
    match value {
        DataValue::Histogram { value: runs, .. } => {
            paint_runs(view, img, &runs);
            Ok(())
        },
        _ => Err(invalid_type()),
    }
}

fn paint_runs<I: StorableImage>(view: &ImageView, img: &mut I, runs: &Vec<(RGB, u64)>)
    requires
        view.fits(old(img)),
    ensures
        view.fits(final(img)),
        runs_painted(*view, old(img), final(img), runs@),
{
    let ghost start = *old(img);
    view.clear(img);
    let w = view.width;
    let h = view.height;
    proof {
        assert(w as int * h as int <= u64::MAX) by (nonlinear_arith)
            requires
                w <= u32::MAX,
                h <= u32::MAX,
        ;
    }
    let area: u64 = w as u64 * h as u64;
    let mut pos: u64 = 0;
    let mut r: usize = 0;
    while r < runs.len()
        invariant
            view.fits(img),
            w == view.width,
            h == view.height,
            area == w * h,
            r <= runs@.len(),
            pos <= area,
            pos < area ==> pos == prefix(runs@, r as int),
            img.spec_width() == start.spec_width(),
            img.spec_height() == start.spec_height(),
            forall|i: int, j: int| #[trigger]
                img.spec_pixel(i, j) == if view.covers(i, j) {
                    if scan_index(*view, i, j) < pos {
                        run_color(runs@, scan_index(*view, i, j))
                    } else {
                        white()
                    }
                } else {
                    start.spec_pixel(i, j)
                },
        decreases runs.len() - r,
    {
        let (c, count) = runs[r];
        proof {
            lemma_prefix_step(runs@, r as int);
        }
        let mut left: u64 = count;
        while left > 0 && pos < area
            invariant
                view.fits(img),
                w == view.width,
                h == view.height,
                area == w * h,
                r < runs@.len(),
                runs@[r as int] == (c, count),
                left <= count,
                pos <= area,
                pos < area ==> pos == prefix(runs@, r as int) + (count - left),
                prefix(runs@, r as int + 1) == prefix(runs@, r as int) + count,
                img.spec_width() == start.spec_width(),
                img.spec_height() == start.spec_height(),
                forall|i: int, j: int| #[trigger]
                    img.spec_pixel(i, j) == if view.covers(i, j) {
                        if scan_index(*view, i, j) < pos {
                            run_color(runs@, scan_index(*view, i, j))
                        } else {
                            white()
                        }
                    } else {
                        start.spec_pixel(i, j)
                    },
            decreases left,
        {
            proof {
                assert(h > 0) by (nonlinear_arith)
                    requires
                        pos < area,
                        area == w * h,
                ;
                vstd::arithmetic::div_mod::lemma_fundamental_div_mod(pos as int, h as int);
                let q = pos as int / h as int;
                let rem = pos as int % h as int;
                assert(q < w) by (nonlinear_arith)
                    requires
                        pos == h * q + rem,
                        0 <= rem,
                        pos < area,
                        area == w * h,
                        h > 0,
                ;
            }
            let xx = (pos / h as u64) as u32;
            let yy = (pos % h as u64) as u32;
            proof {
                lemma_prefix_nonneg(runs@, r as int);
                lemma_run_color_in(runs@, r as int, pos as int);
            }
            let ghost before = *img;
            let _ = view.set_pixel(img, xx, yy, c);
            proof {
                assert forall|i: int, j: int| #[trigger]
                    img.spec_pixel(i, j) == if view.covers(i, j) {
                        if scan_index(*view, i, j) < pos + 1 {
                            run_color(runs@, scan_index(*view, i, j))
                        } else {
                            white()
                        }
                    } else {
                        start.spec_pixel(i, j)
                    } by {
                    if view.covers(i, j) {
                        let k = scan_index(*view, i, j);
                        if k == pos {
                            lemma_fundamental_div_mod_converse(pos as int, h as int, i - view.x, j - view.y);
                        } else if i == view.x + xx && j == view.y + yy {
                            assert(k == xx * h + yy);
                        }
                    }
                }
            }
            pos = pos + 1;
            left = left - 1;
        }
        r = r + 1;
    }
    proof {
        assert forall|i: int, j: int| #[trigger]
            img.spec_pixel(i, j) == if view.covers(i, j) {
                run_color(runs@, scan_index(*view, i, j))
            } else {
                start.spec_pixel(i, j)
            } by {
            if view.covers(i, j) {
                let k = scan_index(*view, i, j);
                assert(k < area) by (nonlinear_arith)
                    requires
                        k == (i - view.x) * h + (j - view.y),
                        0 <= i - view.x < w,
                        0 <= j - view.y < h,
                        area == w * h,
                ;
                if k >= pos {
                    lemma_run_color_after(runs@, k);
                }
            }
        }
    }
}

/// Number of scan positions below `n` whose run colour satisfies `p`.
pub open spec fn index_count(runs: Seq<(RGB, u64)>, p: spec_fn(RGB) -> bool, n: int) -> int
    decreases n,
{
    if n <= 0 {
        0
    } else {
        index_count(runs, p, n - 1) + if p(run_color(runs, n - 1)) {
            1int
        } else {
            0
        }
    }
}

/// Scan position `n` lies in run `r`, or past every run.
pub proof fn lemma_run_of(runs: Seq<(RGB, u64)>, n: int)
    requires
        0 <= n,
    ensures
        n >= prefix(runs, runs.len() as int) ==> run_color(runs, n) == white(),
        n < prefix(runs, runs.len() as int) ==> exists|r: int|
            0 <= r < runs.len() && prefix(runs, r) <= n < prefix(runs, r) + runs[r].1 && run_color(runs, n)
                == #[trigger] runs[r].0,
    decreases runs.len(),
{
    if runs.len() > 0 {
        let rest = runs.drop_first();
        lemma_prefix_nonneg(rest, rest.len() as int);
        if n >= runs[0].1 {
            lemma_run_of(rest, n - runs[0].1);
            if n < prefix(runs, runs.len() as int) {
                let r = choose|r: int|
                    0 <= r < rest.len() && prefix(rest, r) <= n - runs[0].1 < prefix(rest, r) + rest[r].1 && run_color(
                        rest,
                        n - runs[0].1,
                    ) == #[trigger] rest[r].0;
                assert(runs[r + 1] == rest[r]);
                assert(prefix(runs, r + 1) == runs[0].1 + prefix(rest, r));
                assert(0 <= r + 1 < runs.len() && prefix(runs, r + 1) <= n < prefix(runs, r + 1) + runs[r + 1].1
                    && run_color(runs, n) == runs[r + 1].0);
            }
        } else {
            assert(prefix(runs, 0) == 0);
            lemma_prefix_step(runs, 0);
            assert(run_color(runs, n) == runs[0].0);
            assert(0 <= 0 < runs.len() && prefix(runs, 0) <= n < prefix(runs, 0) + runs[0].1 && run_color(runs, n)
                == runs[0].0);
        }
    } else {
        assert(prefix(runs, 0) == 0);
    }
}

proof fn lemma_count_run(runs: Seq<(RGB, u64)>, k: int, n: int)
    requires
        0 <= k < runs.len(),
        0 <= n,
        forall|a: int, b: int| 0 <= a < b < runs.len() ==> runs[a].0 != runs[b].0,
        runs[k].0 != white(),
    ensures
        index_count(runs, crate::codecs::is_color(runs[k].0), n) == if n <= prefix(runs, k) {
            0
        } else if n >= prefix(runs, k) + runs[k].1 {
            runs[k].1 as int
        } else {
            n - prefix(runs, k)
        },
    decreases n,
{
    lemma_prefix_nonneg(runs, k);
    if n > 0 {
        lemma_count_run(runs, k, n - 1);
        let j = n - 1;
        lemma_run_of(runs, j);
        let c = runs[k].0;
        if prefix(runs, k) <= j < prefix(runs, k) + runs[k].1 {
            lemma_run_color_in(runs, k, j);
        } else if run_color(runs, j) == c {
            let r = choose|r: int|
                0 <= r < runs.len() && prefix(runs, r) <= j < prefix(runs, r) + runs[r].1 && run_color(runs, j)
                    == #[trigger] runs[r].0;
            assert(r == k);
        }
    }
}

/// Scan position `x * h + y` of the window is relative pixel `(x, y)`.
proof fn lemma_col_index<I: StorableImage>(v: ImageView, a: &I, b: &I, runs: Seq<(RGB, u64)>, p: spec_fn(RGB) -> bool, x: int, rows: int)
    requires
        runs_painted(v, a, b, runs),
        0 <= x < v.width,
        0 <= rows <= v.height,
    ensures
        crate::codecs::col_count(v, b, p, x, rows) == index_count(runs, p, x * v.height + rows) - index_count(runs, p, x * v.height),
    decreases rows,
{
    if rows == 0 {
        assert(x * v.height + rows == x * v.height);
    }
    if rows > 0 {
        lemma_col_index(v, a, b, runs, p, x, rows - 1);
        let i = v.x + x;
        let j = v.y + rows - 1;
        assert(v.covers(i, j));
        assert(scan_index(v, i, j) == x * v.height + rows - 1);
        assert(v.at(b, x, rows - 1) == b.spec_pixel(i, j));
    }
}

/// Counting over the window equals counting over scan positions.
pub proof fn lemma_area_index<I: StorableImage>(v: ImageView, a: &I, b: &I, runs: Seq<(RGB, u64)>, p: spec_fn(RGB) -> bool, cols: int)
    requires
        runs_painted(v, a, b, runs),
        0 <= cols <= v.width,
    ensures
        crate::codecs::area_count(v, b, p, cols) == index_count(runs, p, cols * v.height),
    decreases cols,
{
    if cols > 0 {
        lemma_area_index(v, a, b, runs, p, cols - 1);
        lemma_col_index(v, a, b, runs, p, cols - 1, v.height as int);
        let h = v.height as int;
        assert((cols - 1) * h + h == cols * h) by (nonlinear_arith);
        assert(index_count(runs, p, (cols - 1) * h + h) == index_count(runs, p, cols * h));
    } else {
        assert(cols * v.height == 0) by (nonlinear_arith)
            requires
                cols == 0,
        ;
    }
}

/// After painting distinct, non-background colours that fit the field,
/// each colour covers exactly its number of pixels.
pub proof fn lemma_runs_counted<I: StorableImage>(v: ImageView, a: &I, b: &I, runs: Seq<(RGB, u64)>, k: int)
    requires
        runs_painted(v, a, b, runs),
        prefix(runs, runs.len() as int) <= v.width * v.height,
        forall|i: int, j: int| 0 <= i < j < runs.len() ==> runs[i].0 != runs[j].0,
        forall|i: int| 0 <= i < runs.len() ==> (#[trigger] runs[i]).0 != white(),
        0 <= k < runs.len(),
    ensures
        crate::codecs::area_count(v, b, crate::codecs::is_color(runs[k].0), v.width as int) == runs[k].1,
{
    lemma_area_index(v, a, b, runs, crate::codecs::is_color(runs[k].0), v.width as int);
    lemma_count_run(runs, k, v.width * v.height);
    lemma_prefix_step(runs, k);
    lemma_prefix_mono(runs, k + 1, runs.len() as int);
    assert(v.width as int * v.height as int == v.width * v.height);
}

proof fn lemma_prefix_mono(runs: Seq<(RGB, u64)>, r: int, s: int)
    requires
        0 <= r <= s <= runs.len(),
    ensures
        prefix(runs, r) <= prefix(runs, s),
    decreases s - r,
{
    if r < s {
        lemma_prefix_mono(runs, r, s - 1);
        lemma_prefix_step(runs, s - 1);
    }
}

} // verus!
