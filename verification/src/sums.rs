//! Exact integer colour accumulation over image regions, and the integer
//! geometry of resampling: which source pixels feed an output pixel.
//!
//! A pixel contributes its channels scaled by its weight: 1 under
//! `AlphaPolicy::Ignore`, its alpha byte under `AlphaPolicy::Weighted`. The
//! average colour of a region is `r / weight` (and so on), which the front
//! end evaluates in floating point.
use vstd::prelude::*;

use crate::color::AlphaPolicy;
use crate::image::{lemma_pixel_in_bounds, pixel_at, RgbaImage, RgbaView};

verus! {

/// Exact channel sums of a set of pixels.
pub struct SumsModel {
    pub r: int,
    pub g: int,
    pub b: int,
    pub a: int,
    pub weight: int,
    pub count: int,
}

/// Weighted channel sums of a set of pixels: `r`, `g`, `b` are the channels
/// times the pixel weight, `a` the plain alpha total, `weight` the total
/// weight and `count` the number of pixels.
#[derive(Clone, Copy, Debug, PartialEq, Eq)]
pub struct ChannelSums {
    pub r: u128,
    pub g: u128,
    pub b: u128,
    pub a: u128,
    pub weight: u128,
    pub count: u128,
}

impl View for ChannelSums {
    type V = SumsModel;

    open spec fn view(&self) -> SumsModel {
        SumsModel {
            r: self.r as int,
            g: self.g as int,
            b: self.b as int,
            a: self.a as int,
            weight: self.weight as int,
            count: self.count as int,
        }
    }
}

/// The sums of no pixels.
pub open spec fn zero_sums() -> SumsModel {
    SumsModel { r: 0, g: 0, b: 0, a: 0, weight: 0, count: 0 }
}

pub open spec fn add_sums(x: SumsModel, y: SumsModel) -> SumsModel {
    SumsModel {
        r: x.r + y.r,
        g: x.g + y.g,
        b: x.b + y.b,
        a: x.a + y.a,
        weight: x.weight + y.weight,
        count: x.count + y.count,
    }
}

/// Weight of a pixel with alpha byte `a`.
pub open spec fn pixel_weight(a: u8, alpha: AlphaPolicy) -> int {
    match alpha {
        AlphaPolicy::Ignore => 1,
        AlphaPolicy::Weighted => a as int,
    }
}

/// What one pixel adds to the sums.
pub open spec fn contribution(px: (u8, u8, u8, u8), alpha: AlphaPolicy) -> SumsModel {
    let w = pixel_weight(px.3, alpha);
    SumsModel {
        r: px.0 * w,
        g: px.1 * w,
        b: px.2 * w,
        a: px.3 as int,
        weight: w,
        count: 1,
    }
}

/// Every field is bounded by `65025` (255 * 255) per counted pixel.
pub open spec fn sums_bounded(s: SumsModel) -> bool {
    &&& 0 <= s.count
    &&& 0 <= s.r <= 65025 * s.count
    &&& 0 <= s.g <= 65025 * s.count
    &&& 0 <= s.b <= 65025 * s.count
    &&& 0 <= s.a <= 255 * s.count
    &&& 0 <= s.weight <= 255 * s.count
}

proof fn lemma_contribution_bounded(px: (u8, u8, u8, u8), alpha: AlphaPolicy)
    ensures
        sums_bounded(contribution(px, alpha)),
{
    let w = pixel_weight(px.3, alpha);
    assert(0 <= px.0 * w <= 65025) by (nonlinear_arith)
        requires
            0 <= px.0 <= 255,
            0 <= w <= 255,
    ;
    assert(0 <= px.1 * w <= 65025) by (nonlinear_arith)
        requires
            0 <= px.1 <= 255,
            0 <= w <= 255,
    ;
    assert(0 <= px.2 * w <= 65025) by (nonlinear_arith)
        requires
            0 <= px.2 <= 255,
            0 <= w <= 255,
    ;
}

/// Sums of the pixels `x0 <= x < x1` of row `y`.
pub open spec fn row_sums(bytes: Seq<u8>, width: int, x0: int, x1: int, y: int, alpha: AlphaPolicy) -> SumsModel
    decreases x1 - x0,
{
    if x1 <= x0 {
        zero_sums()
    } else {
        add_sums(
            row_sums(bytes, width, x0, x1 - 1, y, alpha),
            contribution(pixel_at(bytes, width, x1 - 1, y), alpha),
        )
    }
}

/// Sums of the pixels of the rectangle `[x0, x1) x [y0, y1)`.
pub open spec fn rect_sums(
    bytes: Seq<u8>,
    width: int,
    x0: int,
    x1: int,
    y0: int,
    y1: int,
    alpha: AlphaPolicy,
) -> SumsModel
    decreases y1 - y0,
{
    if y1 <= y0 {
        zero_sums()
    } else {
        add_sums(
            rect_sums(bytes, width, x0, x1, y0, y1 - 1, alpha),
            row_sums(bytes, width, x0, x1, y1 - 1, alpha),
        )
    }
}

fn contribution_of(px: (u8, u8, u8, u8), alpha: AlphaPolicy) -> (r: ChannelSums)
    ensures
        r@ == contribution(px, alpha),
{
    let w: u128 = match alpha {
        AlphaPolicy::Ignore => 1,
        AlphaPolicy::Weighted => px.3 as u128,
    };
    proof {
        lemma_contribution_bounded(px, alpha);
    }
    ChannelSums {
        r: px.0 as u128 * w,
        g: px.1 as u128 * w,
        b: px.2 as u128 * w,
        a: px.3 as u128,
        weight: w,
        count: 1,
    }
}

/// Adds `y` into `x`; the bounds keep every field within `u128`.
fn add_into(x: &mut ChannelSums, y: &ChannelSums)
    requires
        sums_bounded(old(x)@),
        sums_bounded(y@),
        old(x)@.count + y@.count <= u64::MAX,
    ensures
        final(x)@ == add_sums(old(x)@, y@),
        sums_bounded(final(x)@),
{
    proof {
        let n = x@.count + y@.count;
        assert(65025 * n <= 65025 * u64::MAX) by (nonlinear_arith)
            requires
                n <= u64::MAX,
        ;
    }
    x.r = x.r + y.r;
    x.g = x.g + y.g;
    x.b = x.b + y.b;
    x.a = x.a + y.a;
    x.weight = x.weight + y.weight;
    x.count = x.count + y.count;
}

fn no_sums() -> (r: ChannelSums)
    ensures
        r@ == zero_sums(),
{
    ChannelSums { r: 0, g: 0, b: 0, a: 0, weight: 0, count: 0 }
}

/// Sums of the source pixels `[x0, x1) x [y0, y1)` of `view`.
pub fn window_sums(view: &RgbaView, x0: u32, x1: u32, y0: u32, y1: u32, alpha: AlphaPolicy) -> (r:
    ChannelSums)
    requires
        x0 <= x1 <= view.spec_width(),
        y0 <= y1 <= view.spec_height(),
    ensures
        r@ == rect_sums(
            view.bytes(),
            view.spec_width() as int,
            x0 as int,
            x1 as int,
            y0 as int,
            y1 as int,
            alpha,
        ),
        sums_bounded(r@),
        r@.count == (x1 - x0) * (y1 - y0),
{
    let ghost bytes = view.bytes();
    let ghost w = view.spec_width() as int;
    let mut acc = no_sums();
    let mut y = y0;
    while y < y1
        invariant
            y0 <= y <= y1,
            x0 <= x1 <= view.spec_width(),
            y1 <= view.spec_height(),
            bytes == view.bytes(),
            w == view.spec_width(),
            acc@ == rect_sums(bytes, w, x0 as int, x1 as int, y0 as int, y as int, alpha),
            sums_bounded(acc@),
            acc@.count == (x1 - x0) * (y - y0),
        decreases y1 - y,
    {
        let mut row = no_sums();
        let mut x = x0;
        while x < x1
            invariant
                y0 <= y < y1,
                x0 <= x <= x1,
                x1 <= view.spec_width(),
                y1 <= view.spec_height(),
                bytes == view.bytes(),
                w == view.spec_width(),
                row@ == row_sums(bytes, w, x0 as int, x as int, y as int, alpha),
                sums_bounded(row@),
                row@.count == x - x0,
            decreases x1 - x,
        {
            let px = view.pixel(x, y);
            let c = contribution_of(px, alpha);
            proof {
                lemma_contribution_bounded(px, alpha);
            }
            add_into(&mut row, &c);
            x = x + 1;
        }
        proof {
            assert((x1 - x0) * (y - y0) + (x1 - x0) == (x1 - x0) * (y + 1 - y0)) by (nonlinear_arith);
            assert((x1 - x0) * (y + 1 - y0) <= u32::MAX * u32::MAX) by (nonlinear_arith)
                requires
                    x1 - x0 <= u32::MAX,
                    y + 1 - y0 <= u32::MAX,
                    x1 >= x0,
                    y + 1 >= y0,
            ;
        }
        add_into(&mut acc, &row);
        y = y + 1;
    }
    acc
}

/// Bucket of local pixel `(lx, ly)` when a `rw x rh` region is reduced to a
/// `gw x gh` grid: column `lx * gw / rw`, row `ly * gh / rh`, row-major.
pub open spec fn bucket_of(lx: int, ly: int, rw: int, rh: int, gw: int, gh: int) -> int {
    (ly * gh / rh) * gw + lx * gw / rw
}

/// Sums of the pixels `0 <= lx < k` of local row `ly` that fall in bucket `bk`.
pub open spec fn bucket_row(
    bytes: Seq<u8>,
    width: int,
    rx: int,
    ry: int,
    rw: int,
    rh: int,
    gw: int,
    gh: int,
    alpha: AlphaPolicy,
    bk: int,
    ly: int,
    k: int,
) -> SumsModel
    decreases k,
{
    if k <= 0 {
        zero_sums()
    } else {
        let prev = bucket_row(bytes, width, rx, ry, rw, rh, gw, gh, alpha, bk, ly, k - 1);
        if bucket_of(k - 1, ly, rw, rh, gw, gh) == bk {
            add_sums(prev, contribution(pixel_at(bytes, width, rx + k - 1, ry + ly), alpha))
        } else {
            prev
        }
    }
}

/// Sums of the pixels of local rows `0 <= ly < l` that fall in bucket `bk`.
pub open spec fn bucket_rows(
    bytes: Seq<u8>,
    width: int,
    rx: int,
    ry: int,
    rw: int,
    rh: int,
    gw: int,
    gh: int,
    alpha: AlphaPolicy,
    bk: int,
    l: int,
) -> SumsModel
    decreases l,
{
    if l <= 0 {
        zero_sums()
    } else {
        add_sums(
            bucket_rows(bytes, width, rx, ry, rw, rh, gw, gh, alpha, bk, l - 1),
            bucket_row(bytes, width, rx, ry, rw, rh, gw, gh, alpha, bk, l - 1, rw),
        )
    }
}

/// The product of two `u32` values fits in a `u64`.
proof fn lemma_u32_product(a: int, b: int)
    requires
        0 <= a <= u32::MAX,
        0 <= b <= u32::MAX,
    ensures
        0 <= a * b <= u64::MAX,
{
    assert(0 <= a * b <= u32::MAX * u32::MAX) by (nonlinear_arith)
        requires
            0 <= a <= u32::MAX,
            0 <= b <= u32::MAX,
    ;
}

/// `a * n / d < n` when `a < d`.
proof fn lemma_scaled_index(a: int, n: int, d: int)
    requires
        0 <= a < d,
        n >= 1,
    ensures
        0 <= a * n / d < n,
{
    vstd::arithmetic::div_mod::lemma_fundamental_div_mod(a * n, d);
    let q = a * n / d;
    let r = (a * n) % d;
    assert(0 <= a * n) by (nonlinear_arith)
        requires
            0 <= a,
            n >= 1,
    ;
    assert(a * n < d * n) by (nonlinear_arith)
        requires
            0 <= a < d,
            n >= 1,
    ;
    assert(q >= 0) by (nonlinear_arith)
        requires
            a * n == d * q + r,
            0 <= r < d,
            0 <= a * n,
    ;
    assert(q < n) by (nonlinear_arith)
        requires
            a * n == d * q + r,
            0 <= r,
            a * n < d * n,
            d > 0,
    ;
}

/// Per-bucket sums of a `rw x rh` region at `(rx, ry)` of `view`, reduced
/// to a `gw x gh` row-major grid: local pixel `(lx, ly)` goes to column
/// `lx * gw / rw`, row `ly * gh / rh`. Buckets no pixel maps to stay zero.
pub fn bucket_sums(
    view: &RgbaView,
    rx: u32,
    ry: u32,
    rw: u32,
    rh: u32,
    gw: u32,
    gh: u32,
    alpha: AlphaPolicy,
) -> (r: Vec<ChannelSums>)
    requires
        rw >= 1,
        rh >= 1,
        gw >= 1,
        gh >= 1,
        rx + rw <= view.spec_width(),
        ry + rh <= view.spec_height(),
        gw * gh <= usize::MAX,
    ensures
        r@.len() == gw * gh,
        forall|bk: int|
            0 <= bk < gw * gh ==> (#[trigger] r@[bk])@ == bucket_rows(
                view.bytes(),
                view.spec_width() as int,
                rx as int,
                ry as int,
                rw as int,
                rh as int,
                gw as int,
                gh as int,
                alpha,
                bk,
                rh as int,
            ),
{
    let ghost bytes = view.bytes();
    let ghost w = view.spec_width() as int;
    let cells = (gw as usize) * (gh as usize);
    let mut acc: Vec<ChannelSums> = Vec::new();
    let mut i: usize = 0;
    while i < cells
        invariant
            i <= cells,
            acc@.len() == i,
            forall|q: int| 0 <= q < i ==> (#[trigger] acc@[q])@ == zero_sums(),
        decreases cells - i,
    {
        acc.push(no_sums());
        i = i + 1;
    }
    let mut ly: u32 = 0;
    while ly < rh
        invariant
            ly <= rh,
            rw >= 1,
            rh >= 1,
            gw >= 1,
            gh >= 1,
            rx + rw <= view.spec_width(),
            ry + rh <= view.spec_height(),
            cells == gw * gh,
            bytes == view.bytes(),
            w == view.spec_width(),
            acc@.len() == cells,
            forall|bk: int|
                0 <= bk < cells ==> (#[trigger] acc@[bk])@ == bucket_rows(
                    bytes,
                    w,
                    rx as int,
                    ry as int,
                    rw as int,
                    rh as int,
                    gw as int,
                    gh as int,
                    alpha,
                    bk,
                    ly as int,
                ),
            forall|bk: int| 0 <= bk < cells ==> sums_bounded((#[trigger] acc@[bk])@),
            forall|bk: int| 0 <= bk < cells ==> (#[trigger] acc@[bk])@.count <= ly * rw,
        decreases rh - ly,
    {
        proof {
            lemma_scaled_index(ly as int, gh as int, rh as int);
            lemma_u32_product(ly as int, gh as int);
        }
        let row = ((ly as u64 * gh as u64) / rh as u64) as usize;
        let ghost before = acc@;
        let mut lx: u32 = 0;
        while lx < rw
            invariant
                ly < rh,
                lx <= rw,
                rw >= 1,
                rh >= 1,
                gw >= 1,
                gh >= 1,
                rx + rw <= view.spec_width(),
                ry + rh <= view.spec_height(),
                cells == gw * gh,
                row == (ly as int) * (gh as int) / (rh as int),
                row < gh,
                bytes == view.bytes(),
                w == view.spec_width(),
                acc@.len() == cells,
                before.len() == cells,
                forall|bk: int|
                    0 <= bk < cells ==> (#[trigger] acc@[bk])@ == add_sums(
                        before[bk]@,
                        bucket_row(
                            bytes,
                            w,
                            rx as int,
                            ry as int,
                            rw as int,
                            rh as int,
                            gw as int,
                            gh as int,
                            alpha,
                            bk,
                            ly as int,
                            lx as int,
                        ),
                    ),
                forall|bk: int| 0 <= bk < cells ==> sums_bounded((#[trigger] acc@[bk])@),
                forall|bk: int| 0 <= bk < cells ==> (#[trigger] acc@[bk])@.count <= ly * rw + lx,
            decreases rw - lx,
        {
            proof {
                lemma_scaled_index(lx as int, gw as int, rw as int);
                lemma_u32_product(lx as int, gw as int);
            }
            let col = ((lx as u64 * gw as u64) / rw as u64) as usize;
            proof {
                assert(row * gw + col < gw * gh) by (nonlinear_arith)
                    requires
                        row < gh,
                        col < gw,
                ;
                assert(ly * rw + lx + 1 <= u32::MAX * u32::MAX) by (nonlinear_arith)
                    requires
                        ly < rh,
                        lx < rw,
                        rh <= u32::MAX,
                        rw <= u32::MAX,
                ;
            }
            let bk = row * (gw as usize) + col;
            let px = view.pixel(rx + lx, ry + ly);
            let c = contribution_of(px, alpha);
            proof {
                lemma_contribution_bounded(px, alpha);
            }
            let mut cur = acc[bk];
            add_into(&mut cur, &c);
            acc.set(bk, cur);
            proof {
                assert forall|b2: int| 0 <= b2 < cells implies (#[trigger] acc@[b2])@ == add_sums(
                    before[b2]@,
                    bucket_row(
                        bytes,
                        w,
                        rx as int,
                        ry as int,
                        rw as int,
                        rh as int,
                        gw as int,
                        gh as int,
                        alpha,
                        b2,
                        ly as int,
                        lx as int + 1,
                    ),
                ) by {
                    assert(bucket_of(lx as int, ly as int, rw as int, rh as int, gw as int, gh as int)
                        == bk);
                }
            }
            lx = lx + 1;
        }
        proof {
            assert forall|bk: int| 0 <= bk < cells implies (#[trigger] acc@[bk])@.count <= (ly + 1)
                * rw by {
                assert((ly + 1) * rw == ly * rw + rw) by (nonlinear_arith);
            }
        }
        ly = ly + 1;
    }
    acc
}

/// Sums of local row `ly`'s first `k` pixels over the buckets `0 <= bk < nb`.
pub open spec fn buckets_row_total(
    bytes: Seq<u8>,
    width: int,
    rx: int,
    ry: int,
    rw: int,
    rh: int,
    gw: int,
    gh: int,
    alpha: AlphaPolicy,
    ly: int,
    k: int,
    nb: int,
) -> SumsModel
    decreases nb,
{
    if nb <= 0 {
        zero_sums()
    } else {
        add_sums(
            buckets_row_total(bytes, width, rx, ry, rw, rh, gw, gh, alpha, ly, k, nb - 1),
            bucket_row(bytes, width, rx, ry, rw, rh, gw, gh, alpha, nb - 1, ly, k),
        )
    }
}

/// The buckets `0 <= bk < nb` of a region reduction, added together.
pub open spec fn buckets_total(
    bytes: Seq<u8>,
    width: int,
    rx: int,
    ry: int,
    rw: int,
    rh: int,
    gw: int,
    gh: int,
    alpha: AlphaPolicy,
    l: int,
    nb: int,
) -> SumsModel
    decreases nb,
{
    if nb <= 0 {
        zero_sums()
    } else {
        add_sums(
            buckets_total(bytes, width, rx, ry, rw, rh, gw, gh, alpha, l, nb - 1),
            bucket_rows(bytes, width, rx, ry, rw, rh, gw, gh, alpha, nb - 1, l),
        )
    }
}

/// Every pixel of the region lands in one of the `gw * gh` buckets.
proof fn lemma_bucket_in_grid(lx: int, ly: int, rw: int, rh: int, gw: int, gh: int)
    requires
        0 <= lx < rw,
        0 <= ly < rh,
        gw >= 1,
        gh >= 1,
    ensures
        0 <= bucket_of(lx, ly, rw, rh, gw, gh) < gw * gh,
{
    lemma_scaled_index(lx, gw, rw);
    lemma_scaled_index(ly, gh, rh);
    let col = lx * gw / rw;
    let row = ly * gh / rh;
    assert(0 <= row * gw + col < gw * gh) by (nonlinear_arith)
        requires
            0 <= row < gh,
            0 <= col < gw,
    ;
}

proof fn lemma_row_total_zero(
    bytes: Seq<u8>,
    width: int,
    rx: int,
    ry: int,
    rw: int,
    rh: int,
    gw: int,
    gh: int,
    alpha: AlphaPolicy,
    ly: int,
    nb: int,
)
    ensures
        buckets_row_total(bytes, width, rx, ry, rw, rh, gw, gh, alpha, ly, 0, nb) == zero_sums(),
    decreases nb,
{
    if nb > 0 {
        lemma_row_total_zero(bytes, width, rx, ry, rw, rh, gw, gh, alpha, ly, nb - 1);
    }
}

/// Adding pixel `k - 1` of the row to the buckets adds it to the total
/// exactly when its bucket is among the first `nb`.
proof fn lemma_row_total_step(
    bytes: Seq<u8>,
    width: int,
    rx: int,
    ry: int,
    rw: int,
    rh: int,
    gw: int,
    gh: int,
    alpha: AlphaPolicy,
    ly: int,
    k: int,
    nb: int,
)
    requires
        k >= 1,
    ensures
        ({
            let b0 = bucket_of(k - 1, ly, rw, rh, gw, gh);
            buckets_row_total(bytes, width, rx, ry, rw, rh, gw, gh, alpha, ly, k, nb) == add_sums(
                buckets_row_total(bytes, width, rx, ry, rw, rh, gw, gh, alpha, ly, k - 1, nb),
                if 0 <= b0 < nb {
                    contribution(pixel_at(bytes, width, rx + k - 1, ry + ly), alpha)
                } else {
                    zero_sums()
                },
            )
        }),
    decreases nb,
{
    if nb > 0 {
        lemma_row_total_step(bytes, width, rx, ry, rw, rh, gw, gh, alpha, ly, k, nb - 1);
    }
}

/// A row's pixels, spread over all the buckets, add up to the row's sums.
proof fn lemma_row_total(
    bytes: Seq<u8>,
    width: int,
    rx: int,
    ry: int,
    rw: int,
    rh: int,
    gw: int,
    gh: int,
    alpha: AlphaPolicy,
    ly: int,
    k: int,
)
    requires
        0 <= ly < rh,
        0 <= k <= rw,
        gw >= 1,
        gh >= 1,
    ensures
        buckets_row_total(bytes, width, rx, ry, rw, rh, gw, gh, alpha, ly, k, gw * gh) == row_sums(
            bytes,
            width,
            rx,
            rx + k,
            ry + ly,
            alpha,
        ),
    decreases k,
{
    if k == 0 {
        lemma_row_total_zero(bytes, width, rx, ry, rw, rh, gw, gh, alpha, ly, gw * gh);
    } else {
        lemma_row_total(bytes, width, rx, ry, rw, rh, gw, gh, alpha, ly, k - 1);
        lemma_row_total_step(bytes, width, rx, ry, rw, rh, gw, gh, alpha, ly, k, gw * gh);
        lemma_bucket_in_grid(k - 1, ly, rw, rh, gw, gh);
    }
}

proof fn lemma_total_zero(
    bytes: Seq<u8>,
    width: int,
    rx: int,
    ry: int,
    rw: int,
    rh: int,
    gw: int,
    gh: int,
    alpha: AlphaPolicy,
    nb: int,
)
    ensures
        buckets_total(bytes, width, rx, ry, rw, rh, gw, gh, alpha, 0, nb) == zero_sums(),
    decreases nb,
{
    if nb > 0 {
        lemma_total_zero(bytes, width, rx, ry, rw, rh, gw, gh, alpha, nb - 1);
    }
}

/// The buckets over `l` rows are those over `l - 1` rows plus row `l - 1`.
proof fn lemma_total_step(
    bytes: Seq<u8>,
    width: int,
    rx: int,
    ry: int,
    rw: int,
    rh: int,
    gw: int,
    gh: int,
    alpha: AlphaPolicy,
    l: int,
    nb: int,
)
    requires
        l >= 1,
    ensures
        buckets_total(bytes, width, rx, ry, rw, rh, gw, gh, alpha, l, nb) == add_sums(
            buckets_total(bytes, width, rx, ry, rw, rh, gw, gh, alpha, l - 1, nb),
            buckets_row_total(bytes, width, rx, ry, rw, rh, gw, gh, alpha, l - 1, rw, nb),
        ),
    decreases nb,
{
    if nb > 0 {
        lemma_total_step(bytes, width, rx, ry, rw, rh, gw, gh, alpha, l, nb - 1);
    }
}

proof fn lemma_total_rows(
    bytes: Seq<u8>,
    width: int,
    rx: int,
    ry: int,
    rw: int,
    rh: int,
    gw: int,
    gh: int,
    alpha: AlphaPolicy,
    l: int,
)
    requires
        0 <= l <= rh,
        rw >= 0,
        gw >= 1,
        gh >= 1,
    ensures
        buckets_total(bytes, width, rx, ry, rw, rh, gw, gh, alpha, l, gw * gh) == rect_sums(
            bytes,
            width,
            rx,
            rx + rw,
            ry,
            ry + l,
            alpha,
        ),
    decreases l,
{
    if l == 0 {
        lemma_total_zero(bytes, width, rx, ry, rw, rh, gw, gh, alpha, gw * gh);
    } else {
        lemma_total_rows(bytes, width, rx, ry, rw, rh, gw, gh, alpha, l - 1);
        lemma_total_step(bytes, width, rx, ry, rw, rh, gw, gh, alpha, l, gw * gh);
        lemma_row_total(bytes, width, rx, ry, rw, rh, gw, gh, alpha, l - 1, rw);
    }
}

/// The buckets partition the region: each pixel `(rx + lx, ry + ly)` of the
/// `rw x rh` region is counted in exactly one bucket, so the `gw * gh`
/// bucket sums of `bucket_sums` add up to the sums of the whole region.
pub proof fn law_buckets_partition_region(
    bytes: Seq<u8>,
    width: int,
    rx: int,
    ry: int,
    rw: int,
    rh: int,
    gw: int,
    gh: int,
    alpha: AlphaPolicy,
)
    requires
        rw >= 1,
        rh >= 1,
        gw >= 1,
        gh >= 1,
    ensures
        buckets_total(bytes, width, rx, ry, rw, rh, gw, gh, alpha, rh, gw * gh) == rect_sums(
            bytes,
            width,
            rx,
            rx + rw,
            ry,
            ry + rh,
            alpha,
        ),
{
    lemma_total_rows(bytes, width, rx, ry, rw, rh, gw, gh, alpha, rh);
}

/// Share `col` of `g` equal shares of `n` pixels holds pixel `x`:
/// `col * n / g <= x < (col + 1) * n / g`, written without division.
pub open spec fn in_share(col: int, x: int, n: int, g: int) -> bool {
    col * n <= x * g < (col + 1) * n
}

/// The one share holding `x` is `x * g / n`.
proof fn lemma_share(x: int, n: int, g: int, col: int)
    requires
        0 <= x < n,
        g >= 1,
    ensures
        0 <= x * g / n < g,
        in_share(x * g / n, x, n, g),
        in_share(col, x, n, g) ==> col == x * g / n,
{
    lemma_scaled_index(x, g, n);
    let q = x * g / n;
    vstd::arithmetic::div_mod::lemma_fundamental_div_mod(x * g, n);
    assert(q * n <= x * g < (q + 1) * n) by (nonlinear_arith)
        requires
            x * g == n * q + (x * g) % n,
            0 <= (x * g) % n < n,
    ;
    if in_share(col, x, n, g) {
        assert(col == q) by (nonlinear_arith)
            requires
                col * n <= x * g < (col + 1) * n,
                q * n <= x * g < (q + 1) * n,
                n >= 1,
        ;
    }
}

/// Where a pixel of the region goes: local pixel `(lx, ly)` lands in the
/// bucket `row * gw + col` of the `gw x gh` grid, where `col` is the one of
/// `gw` equal shares of the region's width that holds `lx`, and `row` the
/// one of `gh` equal shares of its height that holds `ly`.
pub proof fn law_bucket_position(lx: int, ly: int, rw: int, rh: int, gw: int, gh: int)
    requires
        0 <= lx < rw,
        0 <= ly < rh,
        gw >= 1,
        gh >= 1,
    ensures
        exists|col: int| 0 <= col < gw && #[trigger] in_share(col, lx, rw, gw),
        exists|row: int| 0 <= row < gh && #[trigger] in_share(row, ly, rh, gh),
        forall|col: int, row: int|
            #[trigger] in_share(col, lx, rw, gw) && #[trigger] in_share(row, ly, rh, gh) ==> bucket_of(
                lx,
                ly,
                rw,
                rh,
                gw,
                gh,
            ) == row * gw + col,
{
    lemma_share(lx, rw, gw, 0);
    lemma_share(ly, rh, gh, 0);
    assert forall|col: int, row: int|
        #[trigger] in_share(col, lx, rw, gw) && #[trigger] in_share(row, ly, rh, gh) implies bucket_of(
        lx,
        ly,
        rw,
        rh,
        gw,
        gh,
    ) == row * gw + col by {
        lemma_share(lx, rw, gw, col);
        lemma_share(ly, rh, gh, row);
    }
}

/// `[s0, s1)`: the source pixels an output pixel `i` of `n_out` covers when
/// `n_src` source pixels are resampled: `s0 = i * n_src / n_out`,
/// `s1 = (i + 1) * n_src / n_out`, widened to one pixel when empty.
pub open spec fn spec_source_span(i: int, n_out: int, n_src: int) -> (int, int) {
    let s0 = i * n_src / n_out;
    let s1 = (i + 1) * n_src / n_out;
    if s1 <= s0 {
        (s0, s0 + 1)
    } else {
        (s0, s1)
    }
}

/// The source span of output pixel `i`; never empty, always inside the source.
pub fn source_span(i: u32, n_out: u32, n_src: u32) -> (r: (u32, u32))
    requires
        i < n_out,
        n_src >= 1,
    ensures
        (r.0 as int, r.1 as int) == spec_source_span(i as int, n_out as int, n_src as int),
        r.0 < r.1 <= n_src,
{
    proof {
        lemma_scaled_index(i as int, n_src as int, n_out as int);
        assert((i + 1) * n_src <= n_out * n_src) by (nonlinear_arith)
            requires
                i + 1 <= n_out,
                n_src >= 1,
        ;
        vstd::arithmetic::div_mod::lemma_div_is_ordered((i + 1) * n_src, n_out * n_src, n_out as int);
        assert(n_out * n_src / (n_out as int) == n_src) by {
            vstd::arithmetic::div_mod::lemma_div_by_multiple(n_src as int, n_out as int);
            assert(n_out * n_src == n_src * n_out) by (nonlinear_arith);
        }
        assert(0 <= (i + 1) * n_src) by (nonlinear_arith)
            requires
                n_src >= 1,
        ;
        vstd::arithmetic::div_mod::lemma_div_pos_is_pos((i + 1) * n_src, n_out as int);
        lemma_u32_product(i as int, n_src as int);
        lemma_u32_product(i + 1, n_src as int);
    }
    let s0 = ((i as u64 * n_src as u64) / n_out as u64) as u32;
    let s1 = (((i as u64 + 1) * n_src as u64) / n_out as u64) as u32;
    if s1 <= s0 {
        (s0, s0 + 1)
    } else {
        (s0, s1)
    }
}

/// The nearest source pixel of output pixel `i` of `n_out` over a span of
/// `span` pixels starting at `origin`: `origin + i * span / n_out`, kept on
/// the last pixel of the span.
pub fn nearest_source(i: u32, n_out: u32, origin: u32, span: u32) -> (r: u32)
    requires
        i < n_out,
        span >= 1,
        origin + span <= u32::MAX,
    ensures
        r == (if origin + (i as int) * (span as int) / (n_out as int) <= origin + span - 1 {
            origin + (i as int) * (span as int) / (n_out as int)
        } else {
            origin + span - 1
        }),
        origin <= r < origin + span,
{
    proof {
        lemma_scaled_index(i as int, span as int, n_out as int);
        lemma_u32_product(i as int, span as int);
    }
    let q = ((i as u64 * span as u64) / n_out as u64) as u32;
    let t = origin + q;
    let last = origin + span - 1;
    if t <= last {
        t
    } else {
        last
    }
}

/// Whether pixel `(x, y)` lies in the `cw x ch` rectangle at `(ox, oy)`.
pub open spec fn in_rect(x: int, y: int, ox: int, oy: int, cw: int, ch: int) -> bool {
    ox <= x < ox + cw && oy <= y < oy + ch
}

/// Flat-fills the `cw x ch` cell at `(ox, oy)` with opaque `rgb`; every
/// pixel outside the cell keeps its value.
pub fn fill_cell(out: &mut RgbaImage, ox: u32, oy: u32, cw: u32, ch: u32, rgb: (u8, u8, u8))
    requires
        ox + cw <= old(out).spec_width(),
        oy + ch <= old(out).spec_height(),
    ensures
        final(out).spec_width() == old(out).spec_width(),
        final(out).spec_height() == old(out).spec_height(),
        final(out).bytes().len() == old(out).bytes().len(),
        forall|x: int, y: int|
            0 <= x < old(out).spec_width() && 0 <= y < old(out).spec_height() ==> #[trigger] pixel_at(
                final(out).bytes(),
                old(out).spec_width() as int,
                x,
                y,
            ) == if in_rect(x, y, ox as int, oy as int, cw as int, ch as int) {
                (rgb.0, rgb.1, rgb.2, 255u8)
            } else {
                pixel_at(old(out).bytes(), old(out).spec_width() as int, x, y)
            },
{
    let ghost w = out.spec_width() as int;
    let ghost h = out.spec_height() as int;
    let ghost start = out.bytes();
    proof {
        use_type_invariant(&*out);
        out.lemma_inv();
    }
    let mut y: u32 = 0;
    while y < ch
        invariant
            y <= ch,
            ox + cw <= w,
            oy + ch <= h,
            out.spec_width() == w,
            out.spec_height() == h,
            out.bytes().len() == start.len(),
            start.len() == w * h * 4,
            forall|px: int, py: int|
                0 <= px < w && 0 <= py < h ==> #[trigger] pixel_at(out.bytes(), w, px, py) == if in_rect(
                    px,
                    py,
                    ox as int,
                    oy as int,
                    cw as int,
                    y as int,
                ) {
                    (rgb.0, rgb.1, rgb.2, 255u8)
                } else {
                    pixel_at(start, w, px, py)
                },
        decreases ch - y,
    {
        let mut x: u32 = 0;
        while x < cw
            invariant
                y < ch,
                x <= cw,
                ox + cw <= w,
                oy + ch <= h,
                out.spec_width() == w,
                out.spec_height() == h,
                out.bytes().len() == start.len(),
                start.len() == w * h * 4,
                forall|px: int, py: int|
                    0 <= px < w && 0 <= py < h ==> #[trigger] pixel_at(out.bytes(), w, px, py)
                        == if in_rect(px, py, ox as int, oy as int, cw as int, y as int) || (py == oy
                        + y && ox <= px < ox + x) {
                        (rgb.0, rgb.1, rgb.2, 255u8)
                    } else {
                        pixel_at(start, w, px, py)
                    },
            decreases cw - x,
        {
            let ghost before = out.bytes();
            let tx = ox + x;
            let ty = oy + y;
            proof {
                lemma_pixel_in_bounds(w, h, tx as int, ty as int);
            }
            out.put_pixel(tx, ty, (rgb.0, rgb.1, rgb.2, 255u8));
            proof {
                assert forall|px: int, py: int| 0 <= px < w && 0 <= py < h implies #[trigger] pixel_at(
                    out.bytes(),
                    w,
                    px,
                    py,
                ) == if in_rect(px, py, ox as int, oy as int, cw as int, y as int) || (py == oy + y
                    && ox <= px < ox + x + 1) {
                    (rgb.0, rgb.1, rgb.2, 255u8)
                } else {
                    pixel_at(start, w, px, py)
                } by {
                    lemma_pixel_in_bounds(w, h, px, py);
                    lemma_pixel_in_bounds(w, h, tx as int, ty as int);
                    if px != tx || py != ty {
                        crate::image::lemma_pixels_disjoint(w, px, py, tx as int, ty as int);
                        assert(pixel_at(out.bytes(), w, px, py) == pixel_at(before, w, px, py));
                    }
                }
            }
            x = x + 1;
        }
        proof {
            assert forall|px: int, py: int| 0 <= px < w && 0 <= py < h implies #[trigger] pixel_at(
                out.bytes(),
                w,
                px,
                py,
            ) == if in_rect(px, py, ox as int, oy as int, cw as int, y + 1) {
                (rgb.0, rgb.1, rgb.2, 255u8)
            } else {
                pixel_at(start, w, px, py)
            } by {
                assert(in_rect(px, py, ox as int, oy as int, cw as int, y + 1) == (in_rect(
                    px,
                    py,
                    ox as int,
                    oy as int,
                    cw as int,
                    y as int,
                ) || (py == oy + y && ox <= px < ox + cw)));
            }
        }
        y = y + 1;
    }
}


/// Resampling leaves no gaps: every source pixel lies in the span of some
/// output pixel.
pub proof fn law_spans_cover_source(n_out: int, n_src: int, s: int)
    requires
        n_out >= 1,
        n_src >= 1,
        0 <= s < n_src,
    ensures
        exists|i: int|
            0 <= i < n_out && (#[trigger] spec_source_span(i, n_out, n_src)).0 <= s < spec_source_span(
                i,
                n_out,
                n_src,
            ).1,
{
    lemma_span_cover_from(n_out, n_src, s, 0);
}

/// Searching upward from `i`, whose span starts at or before `s`, finds the
/// output pixel whose span holds `s`.
proof fn lemma_span_cover_from(n_out: int, n_src: int, s: int, i: int)
    requires
        n_out >= 1,
        n_src >= 1,
        0 <= s < n_src,
        0 <= i < n_out,
        i * n_src / n_out <= s,
    ensures
        exists|k: int|
            0 <= k < n_out && (#[trigger] spec_source_span(k, n_out, n_src)).0 <= s < spec_source_span(
                k,
                n_out,
                n_src,
            ).1,
    decreases n_out - i,
{
    let next = (i + 1) * n_src / n_out;
    if next > s || i + 1 == n_out {
        if i + 1 == n_out {
            assert((i + 1) * n_src / n_out == n_src) by {
                vstd::arithmetic::div_mod::lemma_div_by_multiple(n_src, n_out);
                assert((i + 1) * n_src == n_src * n_out) by (nonlinear_arith)
                    requires
                        i + 1 == n_out,
                ;
            }
        }
        assert(spec_source_span(i, n_out, n_src).0 <= s < spec_source_span(i, n_out, n_src).1);
    } else {
        lemma_span_cover_from(n_out, n_src, s, i + 1);
    }
}

/// On a downscale (`n_out <= n_src`) the spans of neighbouring output
/// pixels abut, so each source pixel is averaged into exactly one output pixel.
pub proof fn law_spans_abut_on_downscale(n_out: int, n_src: int, i: int)
    requires
        1 <= n_out <= n_src,
        0 <= i,
        i + 1 < n_out,
    ensures
        spec_source_span(i, n_out, n_src).1 == spec_source_span(i + 1, n_out, n_src).0,
{
    let a = i * n_src;
    let b = (i + 1) * n_src;
    assert(b == a + n_src) by (nonlinear_arith)
        requires
            a == i * n_src,
            b == (i + 1) * n_src,
    ;
    assert(0 <= a) by (nonlinear_arith)
        requires
            a == i * n_src,
            0 <= i,
            n_src >= 1,
    ;
    // a / n_out + 1 <= (a + n_src) / n_out since n_src >= n_out
    vstd::arithmetic::div_mod::lemma_div_is_ordered(a + n_out, b, n_out);
    vstd::arithmetic::div_mod::lemma_hoist_over_denominator(a, 1, n_out as nat);
    assert(n_out * 1 == n_out);
}
} // verus!
