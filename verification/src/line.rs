//! Bresenham line drawing into a buffer of pixels, rows indexed by `y`.
use vstd::prelude::*;

verus! {

/// `a / b` rounded up, for `b > 0`.
pub open spec fn ceil_div(a: int, b: int) -> int {
    -((-a) / b)
}

/// For a line that advances `run > 0` steps along its long axis and
/// `rise >= 0` along its short axis, how far along the short axis the pixel
/// drawn at step `k` lies: the offset nearest the ideal line (an exact half
/// rounds toward the start), and never more than one per step.
pub open spec fn bres_offset(run: int, rise: int, k: int) -> int {
    let c = ceil_div(2 * rise * k - run, 2 * run);
    if c < k {
        c
    } else {
        k
    }
}

pub open spec fn abs_int(v: int) -> int {
    if v < 0 {
        -v
    } else {
        v
    }
}

pub open spec fn sign_int(v: int) -> int {
    if v < 0 {
        -1
    } else {
        1
    }
}

pub open spec fn fits_i32(v: int) -> bool {
    i32::MIN <= v <= i32::MAX
}

/// Pixel `(x, y)` is drawn by a line stepped one column at a time from `p0`
/// towards `p1` (the column of `p1` itself is not drawn).
pub open spec fn low_covers(p0: (i32, i32), p1: (i32, i32), x: int, y: int) -> bool {
    let run = p1.0 - p0.0;
    let dy = p1.1 - p0.1;
    &&& p0.0 <= x < p1.0
    &&& y == p0.1 + sign_int(dy) * bres_offset(run, abs_int(dy), x - p0.0)
}

/// Pixel `(x, y)` is drawn by a line stepped one row at a time from `p0`
/// towards `p1` (the row of `p1` itself is not drawn).
pub open spec fn high_covers(p0: (i32, i32), p1: (i32, i32), x: int, y: int) -> bool {
    let run = p1.1 - p0.1;
    let dx = p1.0 - p0.0;
    &&& p0.1 <= y < p1.1
    &&& x == p0.0 + sign_int(dx) * bres_offset(run, abs_int(dx), y - p0.1)
}

/// Pixel `(x, y)` is drawn by a line between `p0` and `p1`: stepped along
/// its longer axis, from the end point with the smaller coordinate there.
pub open spec fn line_covers(p0: (i32, i32), p1: (i32, i32), x: int, y: int) -> bool {
    if abs_int(p1.1 - p0.1) < abs_int(p1.0 - p0.0) {
        if p0.0 > p1.0 {
            low_covers(p1, p0, x, y)
        } else {
            low_covers(p0, p1, x, y)
        }
    } else {
        if p0.1 > p1.1 {
            high_covers(p1, p0, x, y)
        } else {
            high_covers(p0, p1, x, y)
        }
    }
}

/// `new` is `old` with the pixels that `covers` names lit; pixels outside the
/// buffer are left out, and no row changes its length.
pub open spec fn painted(
    old: Seq<Vec<bool>>,
    new: Seq<Vec<bool>>,
    covers: spec_fn(int, int) -> bool,
) -> bool {
    &&& new.len() == old.len()
    &&& forall|r: int| 0 <= r < old.len() ==> (#[trigger] new[r])@.len() == old[r]@.len()
    &&& forall|r: int, c: int|
        0 <= r < old.len() && 0 <= c < old[r]@.len() ==> #[trigger] new[r]@[c] == (old[r]@[c]
            || covers(c, r))
}

/// Pixel `(x, y)` lies inside the buffer.
pub open spec fn inside(buf: Seq<Vec<bool>>, x: int, y: int) -> bool {
    0 <= y < buf.len() && 0 <= x < buf[y]@.len()
}

/// Pixel `(x, y)` is lit in `new` if it lies inside the buffer.
pub open spec fn lit_if_inside(old: Seq<Vec<bool>>, new: Seq<Vec<bool>>, x: int, y: int) -> bool {
    inside(old, x, y) ==> new[y]@[x]
}

/// Column `x` has a lit pixel (unless it falls outside the buffer) in a row
/// between the rows of `p0` and `p1`.
pub open spec fn column_lit_in_box(
    old: Seq<Vec<bool>>,
    new: Seq<Vec<bool>>,
    p0: (i32, i32),
    p1: (i32, i32),
    x: int,
) -> bool {
    exists|y: int|
        min_int(p0.1 as int, p1.1 as int) <= y <= max_int(p0.1 as int, p1.1 as int)
            && #[trigger] lit_if_inside(old, new, x, y)
}

/// Row `y` has a lit pixel (unless it falls outside the buffer) in a column
/// between the columns of `p0` and `p1`.
pub open spec fn row_lit_in_box(
    old: Seq<Vec<bool>>,
    new: Seq<Vec<bool>>,
    p0: (i32, i32),
    p1: (i32, i32),
    y: int,
) -> bool {
    exists|x: int|
        min_int(p0.0 as int, p1.0 as int) <= x <= max_int(p0.0 as int, p1.0 as int)
            && #[trigger] lit_if_inside(old, new, x, y)
}

/// Column `x` has a lit pixel (unless it falls outside the buffer) within
/// half a pixel of the ideal line through `p0` and `p1`.
pub open spec fn column_lit_near_line(
    old: Seq<Vec<bool>>,
    new: Seq<Vec<bool>>,
    p0: (i32, i32),
    p1: (i32, i32),
    x: int,
) -> bool {
    exists|y: int|
        abs_int(line_cross(p0, p1, x, y)) <= max_int(abs_int(p1.0 - p0.0), abs_int(p1.1 - p0.1))
            && #[trigger] lit_if_inside(old, new, x, y)
}

/// Row `y` has a lit pixel (unless it falls outside the buffer) within half
/// a pixel of the ideal line through `p0` and `p1`.
pub open spec fn row_lit_near_line(
    old: Seq<Vec<bool>>,
    new: Seq<Vec<bool>>,
    p0: (i32, i32),
    p1: (i32, i32),
    y: int,
) -> bool {
    exists|x: int|
        abs_int(line_cross(p0, p1, x, y)) <= max_int(abs_int(p1.0 - p0.0), abs_int(p1.1 - p0.1))
            && #[trigger] lit_if_inside(old, new, x, y)
}

/// Painting with the same pixels named another way.
pub proof fn lemma_painted_same(
    a: Seq<Vec<bool>>,
    b: Seq<Vec<bool>>,
    f: spec_fn(int, int) -> bool,
    g: spec_fn(int, int) -> bool,
)
    requires
        painted(a, b, f),
        forall|x: int, y: int| #[trigger] f(x, y) == g(x, y),
    ensures
        painted(a, b, g),
{
    assert forall|r: int, c: int| 0 <= r < a.len() && 0 <= c < a[r]@.len() implies #[trigger] b[r]@[c]
        == (a[r]@[c] || g(c, r)) by {
        assert(f(c, r) == g(c, r));
    }
}

/// The arithmetic of a line stepped along `x` from `p0` to `p1` stays within
/// `i32`.
pub open spec fn low_fits(p0: (i32, i32), p1: (i32, i32)) -> bool {
    let run = p1.0 - p0.0;
    let dy = p1.1 - p0.1;
    let rise = abs_int(dy);
    &&& fits_i32(run)
    &&& fits_i32(dy)
    &&& fits_i32(rise)
    &&& fits_i32(2 * rise)
    &&& fits_i32(2 * rise - run)
    &&& run > 0 ==> fits_i32(2 * (rise - run))
    &&& run > 0 && rise > run ==> fits_i32(2 * (rise - run) * run + 2 * rise - run)
}

/// The arithmetic of a line stepped along `y` from `p0` to `p1` stays within
/// `i32`.
pub open spec fn high_fits(p0: (i32, i32), p1: (i32, i32)) -> bool {
    low_fits((p0.1, p0.0), (p1.1, p1.0))
}

/// The arithmetic of drawing a line between `p0` and `p1` stays within `i32`.
pub open spec fn line_fits(p0: (i32, i32), p1: (i32, i32)) -> bool {
    &&& fits_i32(p1.0 - p0.0)
    &&& fits_i32(p1.1 - p0.1)
    &&& fits_i32(abs_int(p1.0 - p0.0))
    &&& fits_i32(abs_int(p1.1 - p0.1))
    &&& if abs_int(p1.1 - p0.1) < abs_int(p1.0 - p0.0) {
        if p0.0 > p1.0 {
            low_fits(p1, p0)
        } else {
            low_fits(p0, p1)
        }
    } else {
        if p0.1 > p1.1 {
            high_fits(p1, p0)
        } else {
            high_fits(p0, p1)
        }
    }
}

proof fn lemma_ceil_div_bounds(a: int, b: int)
    requires
        b > 0,
    ensures
        a <= b * ceil_div(a, b) < a + b,
{
    vstd::arithmetic::div_mod::lemma_fundamental_div_mod(-a, b);
    vstd::arithmetic::div_mod::lemma_mod_bound(-a, b);
    let q = (-a) / b;
    let r = (-a) % b;
    assert(b * ceil_div(a, b) == -(b * q)) by (nonlinear_arith)
        requires
            ceil_div(a, b) == -q,
    ;
}

/// The facts about the offsets that the line drawing relies on.
pub proof fn lemma_bres_offset_facts(run: int, rise: int, k: int)
    requires
        run > 0,
        rise >= 0,
        k >= 0,
    ensures
        0 <= bres_offset(run, rise, k) <= k,
        rise <= run ==> -run <= 2 * run * bres_offset(run, rise, k) - 2 * rise * k < run,
        rise > run ==> bres_offset(run, rise, k) == k,
        k <= run ==> bres_offset(run, rise, k) <= rise,
{
    let a = 2 * rise * k - run;
    let b = 2 * run;
    let c = ceil_div(a, b);
    lemma_ceil_div_bounds(a, b);
    assert(c >= 0) by (nonlinear_arith)
        requires
            a <= b * c,
            a == 2 * rise * k - run,
            b == 2 * run,
            run > 0,
            rise >= 0,
            k >= 0,
    ;
    if rise <= run {
        assert(c <= k) by (nonlinear_arith)
            requires
                b * c < a + b,
                a == 2 * rise * k - run,
                b == 2 * run,
                run > 0,
                rise >= 0,
                rise <= run,
                k >= 0,
        ;
        assert(2 * run * c == b * c);
        assert(k <= run ==> c <= rise) by (nonlinear_arith)
            requires
                b * c < a + b,
                a == 2 * rise * k - run,
                b == 2 * run,
                run > 0,
                rise >= 0,
                rise <= run,
                k >= 0,
        ;
    } else {
        assert(c >= k) by (nonlinear_arith)
            requires
                a <= b * c,
                a == 2 * rise * k - run,
                b == 2 * run,
                run > 0,
                rise > run,
                k >= 0,
        ;
    }
}

/// One step of the line: the offset goes up by one exactly when the error
/// term of the step is positive.
pub proof fn lemma_bres_offset_step(run: int, rise: int, k: int)
    requires
        run > 0,
        rise >= 0,
        k >= 0,
    ensures
        bres_offset(run, rise, k + 1) == bres_offset(run, rise, k) + if 2 * rise * (k + 1) - run
            - 2 * run * bres_offset(run, rise, k) > 0 {
            1int
        } else {
            0int
        },
{
    let m = bres_offset(run, rise, k);
    let m1 = bres_offset(run, rise, k + 1);
    lemma_bres_offset_facts(run, rise, k);
    lemma_bres_offset_facts(run, rise, k + 1);
    let d = 2 * rise * (k + 1) - run - 2 * run * m;
    if rise > run {
        assert(d > 0) by (nonlinear_arith)
            requires
                d == 2 * rise * (k + 1) - run - 2 * run * m,
                m == k,
                rise > run,
                run > 0,
                k >= 0,
        ;
    } else {
        assert(m1 == m + if d > 0 {
            1int
        } else {
            0int
        }) by (nonlinear_arith)
            requires
                -run <= 2 * run * m - 2 * rise * k < run,
                -run <= 2 * run * m1 - 2 * rise * (k + 1) < run,
                d == 2 * rise * (k + 1) - run - 2 * run * m,
                rise <= run,
                run > 0,
                rise >= 0,
        ;
    }
}

/// The error term of the line after `k` steps: positive exactly when the
/// next step also moves along the short axis.
pub open spec fn bres_error(run: int, rise: int, k: int) -> int {
    2 * rise * (k + 1) - run - 2 * run * bres_offset(run, rise, k)
}

proof fn lemma_bres_error_step(run: int, rise: int, k: int)
    requires
        run > 0,
        rise >= 0,
        k >= 0,
    ensures
        bres_offset(run, rise, 0) == 0,
        bres_error(run, rise, 0) == 2 * rise - run,
        bres_offset(run, rise, k + 1) == bres_offset(run, rise, k) + if bres_error(run, rise, k)
            > 0 {
            1int
        } else {
            0int
        },
        bres_error(run, rise, k + 1) == bres_error(run, rise, k) + if bres_error(run, rise, k)
            > 0 {
            2 * (rise - run)
        } else {
            2 * rise
        },
{
    lemma_bres_offset_facts(run, rise, 0);
    lemma_bres_offset_step(run, rise, k);
    let m = bres_offset(run, rise, k);
    let m1 = bres_offset(run, rise, k + 1);
    let e = bres_error(run, rise, k);
    let e1 = bres_error(run, rise, k + 1);
    assert(e1 == e + if e > 0 {
        2 * (rise - run)
    } else {
        2 * rise
    }) by (nonlinear_arith)
        requires
            e == 2 * rise * (k + 1) - run - 2 * run * m,
            e1 == 2 * rise * (k + 1 + 1) - run - 2 * run * m1,
            m1 == m + if e > 0 {
                1int
            } else {
                0int
            },
    ;
}

fn fits_i32_exec(v: i128) -> (ok: bool)
    ensures
        ok == fits_i32(v as int),
{
    -2147483648i128 <= v && v <= 2147483647i128
}

fn low_fits_exec(p0: (i32, i32), p1: (i32, i32)) -> (ok: bool)
    ensures
        ok == low_fits(p0, p1),
{
    let run: i128 = p1.0 as i128 - p0.0 as i128;
    let dy: i128 = p1.1 as i128 - p0.1 as i128;
    let rise: i128 = if dy < 0 {
        -dy
    } else {
        dy
    };
    let basic = fits_i32_exec(run) && fits_i32_exec(dy) && fits_i32_exec(rise) && fits_i32_exec(
        2 * rise,
    ) && fits_i32_exec(2 * rise - run);
    if !basic {
        return false;
    }
    if run > 0 {
        if !fits_i32_exec(2 * (rise - run)) {
            return false;
        }
        if rise > run {
            assert(0 < 2 * (rise - run) * run <= 0x1_0000_0000 * 0x1_0000_0000) by (nonlinear_arith)
                requires
                    0 < rise - run <= 0x8000_0000,
                    0 < run <= 0x8000_0000,
            ;
            return fits_i32_exec(2 * (rise - run) * run + 2 * rise - run);
        }
    }
    true
}

/// Whether the arithmetic of drawing the line between `p0` and `p1` stays
/// within `i32`, so that `plot_line` may be called on them.
pub fn can_plot_line(p0: (i32, i32), p1: (i32, i32)) -> (ok: bool)
    ensures
        ok == line_fits(p0, p1),
        -0x1000_0000 <= p0.0 <= 0x1000_0000 && -0x1000_0000 <= p0.1 <= 0x1000_0000 && -0x1000_0000
            <= p1.0 <= 0x1000_0000 && -0x1000_0000 <= p1.1 <= 0x1000_0000 ==> ok,
{
    let dx: i128 = p1.0 as i128 - p0.0 as i128;
    let dy: i128 = p1.1 as i128 - p0.1 as i128;
    let dx_abs: i128 = if dx < 0 {
        -dx
    } else {
        dx
    };
    let dy_abs: i128 = if dy < 0 {
        -dy
    } else {
        dy
    };
    if !(fits_i32_exec(dx) && fits_i32_exec(dy) && fits_i32_exec(dx_abs) && fits_i32_exec(dy_abs)) {
        return false;
    }
    if dy_abs < dx_abs {
        if p0.0 > p1.0 {
            low_fits_exec(p1, p0)
        } else {
            low_fits_exec(p0, p1)
        }
    } else {
        if p0.1 > p1.1 {
            low_fits_exec((p1.1, p1.0), (p0.1, p0.0))
        } else {
            low_fits_exec((p0.1, p0.0), (p1.1, p1.0))
        }
    }
}

/// Lights pixel `(x, y)` when it lies inside the buffer.
fn plot_pixel(data: &mut Vec<Vec<bool>>, x: i32, y: i32)
    ensures
        painted(old(data)@, final(data)@, |c: int, r: int| c == x && r == y),
{
    if 0 <= y && (y as usize) < data.len() {
        let yu = y as usize;
        if 0 <= x && (x as usize) < data[yu].len() {
            let xu = x as usize;
            data[yu][xu] = true;
        }
    }
}

/// Painting twice paints the union.
pub proof fn lemma_painted_then(
    a: Seq<Vec<bool>>,
    b: Seq<Vec<bool>>,
    c: Seq<Vec<bool>>,
    f: spec_fn(int, int) -> bool,
    g: spec_fn(int, int) -> bool,
    h: spec_fn(int, int) -> bool,
)
    requires
        painted(a, b, f),
        painted(b, c, g),
        forall|x: int, y: int| #[trigger] h(x, y) == (f(x, y) || g(x, y)),
    ensures
        painted(a, c, h),
{
    assert forall|r: int, x: int| 0 <= r < a.len() && 0 <= x < a[r]@.len() implies #[trigger] c[r]@[x]
        == (a[r]@[x] || h(x, r)) by {
        assert(b[r]@[x] == (a[r]@[x] || f(x, r)));
        assert(c[r]@[x] == (b[r]@[x] || g(x, r)));
        assert(h(x, r) == (f(x, r) || g(x, r)));
    }
}

/// Painting nothing leaves the buffer as it is.
pub proof fn lemma_painted_nothing(a: Seq<Vec<bool>>, f: spec_fn(int, int) -> bool)
    requires
        forall|x: int, y: int| !#[trigger] f(x, y),
    ensures
        painted(a, a, f),
{
}

/// Draws the line from `p0` towards `p1` one column at a time, lighting in
/// each column `x` with `p0.0 <= x < p1.0` the pixel nearest the line.
pub fn plot_line_low(data: &mut Vec<Vec<bool>>, p0: (i32, i32), p1: (i32, i32))
    requires
        low_fits(p0, p1),
    ensures
        painted(old(data)@, final(data)@, |x: int, y: int| low_covers(p0, p1, x, y)),
        forall|x: int|
            p0.0 <= x < p1.0 ==> #[trigger] column_lit_in_box(old(data)@, final(data)@, p0, p1, x),
{
    let run: i32 = p1.0 - p0.0;
    let mut rise: i32 = p1.1 - p0.1;
    let y_change: i32 = if rise < 0 {
        rise = -rise;
        -1
    } else {
        1
    };
    let ghost dy: int = p1.1 - p0.1;
    assert(rise == abs_int(dy) && y_change == sign_int(dy));
    let mut d: i32 = (2 * rise) - run;
    let mut y: i32 = p0.1;
    let mut x: i32 = p0.0;
    let ghost start = data@;
    proof {
        lemma_painted_nothing(start, |c: int, r: int| c < x && low_covers(p0, p1, c, r));
        if run > 0 {
            lemma_bres_error_step(run as int, rise as int, 0);
        }
    }
    while x < p1.0
        invariant
            low_fits(p0, p1),
            run == p1.0 - p0.0,
            rise == abs_int(dy),
            dy == p1.1 - p0.1,
            y_change == sign_int(dy),
            p0.0 <= x,
            x < p1.0 ==> run > 0,
            run > 0 ==> x <= p1.0,
            run > 0 ==> y == p0.1 + y_change * bres_offset(run as int, rise as int, x - p0.0),
            run > 0 ==> d == bres_error(run as int, rise as int, x - p0.0),
            painted(start, data@, |c: int, r: int| c < x && low_covers(p0, p1, c, r)),
        decreases p1.0 - x,
    {
        let ghost k: int = x - p0.0;
        let ghost before = data@;
        plot_pixel(data, x, y);
        proof {
            lemma_painted_then(
                start,
                before,
                data@,
                |c: int, r: int| c < x && low_covers(p0, p1, c, r),
                |c: int, r: int| c == x && r == y,
                |c: int, r: int| c < x + 1 && low_covers(p0, p1, c, r),
            );
            lemma_bres_error_step(run as int, rise as int, k);
            lemma_bres_offset_facts(run as int, rise as int, k);
            lemma_bres_offset_facts(run as int, rise as int, k + 1);
            lemma_d_next_fits(run as int, rise as int, k);
        }
        if d > 0 {
            y = y + y_change;
            d = d + (2 * (rise - run));
        } else {
            d = d + 2 * rise;
        }
        x = x + 1;
    }
    proof {
        assert forall|cx: int| p0.0 <= cx < p1.0 implies #[trigger] column_lit_in_box(
            start,
            data@,
            p0,
            p1,
            cx,
        ) by {
            let cy = p0.1 + sign_int(dy) * bres_offset(run as int, rise as int, cx - p0.0);
            assert(low_covers(p0, p1, cx, cy));
            lemma_low_in_box_and_near(p0, p1, cx, cy);
            if inside(start, cx, cy) {
                assert(data@[cy]@[cx] == (start[cy]@[cx] || (cx < x && low_covers(p0, p1, cx, cy))));
            }
            assert(lit_if_inside(start, data@, cx, cy));
        }
    }
}

/// Draws the line from `p0` towards `p1` one row at a time, lighting in each
/// row `y` with `p0.1 <= y < p1.1` the pixel nearest the line.
pub fn plot_line_high(data: &mut Vec<Vec<bool>>, p0: (i32, i32), p1: (i32, i32))
    requires
        high_fits(p0, p1),
    ensures
        painted(old(data)@, final(data)@, |x: int, y: int| high_covers(p0, p1, x, y)),
        forall|y: int|
            p0.1 <= y < p1.1 ==> #[trigger] row_lit_in_box(old(data)@, final(data)@, p0, p1, y),
{
    let mut rise: i32 = p1.0 - p0.0;
    let run: i32 = p1.1 - p0.1;
    let x_change: i32 = if rise < 0 {
        rise = -rise;
        -1
    } else {
        1
    };
    let ghost dx: int = p1.0 - p0.0;
    assert(rise == abs_int(dx) && x_change == sign_int(dx));
    let mut d: i32 = (2 * rise) - run;
    let mut x: i32 = p0.0;
    let mut y: i32 = p0.1;
    let ghost start = data@;
    proof {
        lemma_painted_nothing(start, |c: int, r: int| r < y && high_covers(p0, p1, c, r));
        if run > 0 {
            lemma_bres_error_step(run as int, rise as int, 0);
        }
    }
    while y < p1.1
        invariant
            high_fits(p0, p1),
            run == p1.1 - p0.1,
            rise == abs_int(dx),
            dx == p1.0 - p0.0,
            x_change == sign_int(dx),
            p0.1 <= y,
            y < p1.1 ==> run > 0,
            run > 0 ==> y <= p1.1,
            run > 0 ==> x == p0.0 + x_change * bres_offset(run as int, rise as int, y - p0.1),
            run > 0 ==> d == bres_error(run as int, rise as int, y - p0.1),
            painted(start, data@, |c: int, r: int| r < y && high_covers(p0, p1, c, r)),
        decreases p1.1 - y,
    {
        let ghost k: int = y - p0.1;
        let ghost before = data@;
        plot_pixel(data, x, y);
        proof {
            lemma_painted_then(
                start,
                before,
                data@,
                |c: int, r: int| r < y && high_covers(p0, p1, c, r),
                |c: int, r: int| c == x && r == y,
                |c: int, r: int| r < y + 1 && high_covers(p0, p1, c, r),
            );
            lemma_bres_error_step(run as int, rise as int, k);
            lemma_bres_offset_facts(run as int, rise as int, k);
            lemma_bres_offset_facts(run as int, rise as int, k + 1);
            lemma_d_next_fits(run as int, rise as int, k);
        }
        if d > 0 {
            x = x + x_change;
            d = d + (2 * (rise - run));
        } else {
            d = d + 2 * rise;
        }
        y = y + 1;
    }
    proof {
        assert forall|cy: int| p0.1 <= cy < p1.1 implies #[trigger] row_lit_in_box(
            start,
            data@,
            p0,
            p1,
            cy,
        ) by {
            let cx = p0.0 + sign_int(dx) * bres_offset(run as int, rise as int, cy - p0.1);
            assert(high_covers(p0, p1, cx, cy));
            lemma_low_in_box_and_near((p0.1, p0.0), (p1.1, p1.0), cy, cx);
            if inside(start, cx, cy) {
                assert(data@[cy]@[cx] == (start[cy]@[cx] || (cy < y && high_covers(p0, p1, cx, cy))));
            }
            assert(lit_if_inside(start, data@, cx, cy));
        }
    }
}

/// Draws the line between `p0` and `p1` (Bresenham): stepped along the longer
/// axis from the end point that is smaller there, lighting one pixel per step
/// and leaving out the step of the far end point.
pub fn plot_line(data: &mut Vec<Vec<bool>>, p0: (i32, i32), p1: (i32, i32))
    requires
        line_fits(p0, p1),
    ensures
        painted(old(data)@, final(data)@, |x: int, y: int| line_covers(p0, p1, x, y)),
        abs_int(p1.1 - p0.1) < abs_int(p1.0 - p0.0) ==> forall|x: int|
            min_int(p0.0 as int, p1.0 as int) <= x < max_int(p0.0 as int, p1.0 as int)
                ==> #[trigger] column_lit_near_line(old(data)@, final(data)@, p0, p1, x),
        abs_int(p1.1 - p0.1) >= abs_int(p1.0 - p0.0) ==> forall|y: int|
            min_int(p0.1 as int, p1.1 as int) <= y < max_int(p0.1 as int, p1.1 as int)
                ==> #[trigger] row_lit_near_line(old(data)@, final(data)@, p0, p1, y),
        forall|x: int, y: int|
            inside(old(data)@, x, y) ==> #[trigger] final(data)@[y]@[x] == (old(data)@[y]@[x]
                || line_window(p0, p1, x, y)),
{
    let dy: i32 = p1.1 - p0.1;
    let dx: i32 = p1.0 - p0.0;
    let dy_abs: i32 = if dy < 0 {
        -dy
    } else {
        dy
    };
    let dx_abs: i32 = if dx < 0 {
        -dx
    } else {
        dx
    };
    if dy_abs < dx_abs {
        if p0.0 > p1.0 {
            plot_line_low(data, p1, p0);
        } else {
            plot_line_low(data, p0, p1);
        }
    } else {
        if p0.1 > p1.1 {
            plot_line_high(data, p1, p0);
        } else {
            plot_line_high(data, p0, p1);
        }
    }
    proof {
        let start = old(data)@;
        assert forall|x: int, y: int| inside(start, x, y) implies #[trigger] data@[y]@[x] == (
        start[y]@[x] || line_window(p0, p1, x, y)) by {
            lemma_line_window(p0, p1, x, y);
        }
        if abs_int(p1.1 - p0.1) < abs_int(p1.0 - p0.0) {
            assert forall|cx: int|
                min_int(p0.0 as int, p1.0 as int) <= cx < max_int(
                    p0.0 as int,
                    p1.0 as int,
                ) implies #[trigger] column_lit_near_line(start, data@, p0, p1, cx) by {
                lemma_line_column_covered(p0, p1, cx);
                let cy = choose|cy: int| line_covers(p0, p1, cx, cy);
                lemma_line_near_ideal(p0, p1, cx, cy);
                assert(lit_if_inside(start, data@, cx, cy));
            }
        } else {
            assert forall|cy: int|
                min_int(p0.1 as int, p1.1 as int) <= cy < max_int(
                    p0.1 as int,
                    p1.1 as int,
                ) implies #[trigger] row_lit_near_line(start, data@, p0, p1, cy) by {
                lemma_line_row_covered(p0, p1, cy);
                let cx = choose|cx: int| line_covers(p0, p1, cx, cy);
                lemma_line_near_ideal(p0, p1, cx, cy);
                assert(lit_if_inside(start, data@, cx, cy));
            }
        }
    }
}

/// Pixel `(x, y)` is on one of the three sides of the triangle.
pub open spec fn triangle_covers(
    p1: (i32, i32),
    p2: (i32, i32),
    p3: (i32, i32),
    x: int,
    y: int,
) -> bool {
    line_covers(p1, p2, x, y) || line_covers(p2, p3, x, y) || line_covers(p3, p1, x, y)
}

/// Draws the outline of a triangle: the sides from `p1` to `p2`, from `p2` to
/// `p3` and from `p3` back to `p1`.
pub fn plot_triangle(data: &mut Vec<Vec<bool>>, p1: (i32, i32), p2: (i32, i32), p3: (i32, i32))
    requires
        line_fits(p1, p2),
        line_fits(p2, p3),
        line_fits(p3, p1),
    ensures
        painted(old(data)@, final(data)@, |x: int, y: int| triangle_covers(p1, p2, p3, x, y)),
        painted(
            old(data)@,
            final(data)@,
            |x: int, y: int|
                line_covers(p1, p2, x, y) || line_covers(p2, p3, x, y) || line_covers(p3, p1, x, y),
        ),
        forall|x: int, y: int|
            inside(old(data)@, x, y) ==> #[trigger] final(data)@[y]@[x] == (old(data)@[y]@[x]
                || line_window(p1, p2, x, y) || line_window(p2, p3, x, y) || line_window(
                p3,
                p1,
                x,
                y,
            )),
{
    let ghost s0 = data@;
    plot_line(data, p1, p2);
    let ghost s1 = data@;
    plot_line(data, p2, p3);
    let ghost s2 = data@;
    proof {
        lemma_painted_then(
            s0,
            s1,
            s2,
            |x: int, y: int| line_covers(p1, p2, x, y),
            |x: int, y: int| line_covers(p2, p3, x, y),
            |x: int, y: int| line_covers(p1, p2, x, y) || line_covers(p2, p3, x, y),
        );
    }
    plot_line(data, p3, p1);
    proof {
        lemma_painted_then(
            s0,
            s2,
            data@,
            |x: int, y: int| line_covers(p1, p2, x, y) || line_covers(p2, p3, x, y),
            |x: int, y: int| line_covers(p3, p1, x, y),
            |x: int, y: int|
                line_covers(p1, p2, x, y) || line_covers(p2, p3, x, y) || line_covers(p3, p1, x, y),
        );
        lemma_painted_same(
            s0,
            data@,
            |x: int, y: int|
                line_covers(p1, p2, x, y) || line_covers(p2, p3, x, y) || line_covers(p3, p1, x, y),
            |x: int, y: int| triangle_covers(p1, p2, p3, x, y),
        );
        assert forall|x: int, y: int| inside(s0, x, y) implies #[trigger] data@[y]@[x] == (s0[y]@[x]
            || line_window(p1, p2, x, y) || line_window(p2, p3, x, y) || line_window(
            p3,
            p1,
            x,
            y,
        )) by {
            lemma_line_window(p1, p2, x, y);
            lemma_line_window(p2, p3, x, y);
            lemma_line_window(p3, p1, x, y);
        }
    }
}

pub open spec fn min_int(a: int, b: int) -> int {
    if a < b {
        a
    } else {
        b
    }
}

pub open spec fn max_int(a: int, b: int) -> int {
    if a < b {
        b
    } else {
        a
    }
}

/// Twice the cross product of `q - p0` with `p1 - p0`: zero exactly on the
/// ideal line through `p0` and `p1`.
pub open spec fn line_cross(p0: (i32, i32), p1: (i32, i32), x: int, y: int) -> int {
    2 * (x - p0.0) * (p1.1 - p0.1) - 2 * (y - p0.1) * (p1.0 - p0.0)
}

/// Two buffers painted from the same buffer with the same pixels are equal,
/// row for row.
pub proof fn lemma_painted_unique(
    a: Seq<Vec<bool>>,
    b: Seq<Vec<bool>>,
    c: Seq<Vec<bool>>,
    f: spec_fn(int, int) -> bool,
    g: spec_fn(int, int) -> bool,
)
    requires
        painted(a, b, f),
        painted(a, c, g),
        forall|x: int, y: int| #[trigger] f(x, y) == g(x, y),
    ensures
        b.len() == c.len(),
        forall|r: int| 0 <= r < b.len() ==> (#[trigger] b[r])@ == c[r]@,
{
    assert forall|r: int| 0 <= r < b.len() implies (#[trigger] b[r])@ == c[r]@ by {
        assert forall|x: int| 0 <= x < b[r]@.len() implies b[r]@[x] == c[r]@[x] by {
            assert(f(x, r) == g(x, r));
        }
        assert(b[r]@ =~= c[r]@);
    }
}

/// A line lights the same pixels whichever end point it is drawn from.
pub proof fn lemma_line_symmetric(p0: (i32, i32), p1: (i32, i32))
    ensures
        forall|x: int, y: int| #[trigger] line_covers(p0, p1, x, y) == line_covers(p1, p0, x, y),
{
    assert(abs_int(p0.1 - p1.1) == abs_int(p1.1 - p0.1));
    assert(abs_int(p0.0 - p1.0) == abs_int(p1.0 - p0.0));
}

/// Drawing a line from `p0` to `p1` and drawing it from `p1` to `p0` leave
/// the same buffer.
pub proof fn lemma_line_direction_irrelevant(
    start: Seq<Vec<bool>>,
    forward: Seq<Vec<bool>>,
    backward: Seq<Vec<bool>>,
    p0: (i32, i32),
    p1: (i32, i32),
)
    requires
        painted(start, forward, |x: int, y: int| line_covers(p0, p1, x, y)),
        painted(start, backward, |x: int, y: int| line_covers(p1, p0, x, y)),
    ensures
        forward.len() == backward.len(),
        forall|r: int| 0 <= r < forward.len() ==> (#[trigger] forward[r])@ == backward[r]@,
{
    lemma_line_symmetric(p0, p1);
    lemma_painted_unique(
        start,
        forward,
        backward,
        |x: int, y: int| line_covers(p0, p1, x, y),
        |x: int, y: int| line_covers(p1, p0, x, y),
    );
}

proof fn lemma_low_in_box_and_near(q0: (i32, i32), q1: (i32, i32), x: int, y: int)
    requires
        low_covers(q0, q1, x, y),
    ensures
        q0.0 <= x < q1.0,
        min_int(q0.1 as int, q1.1 as int) <= y <= max_int(q0.1 as int, q1.1 as int),
        abs_int(q1.1 - q0.1) <= q1.0 - q0.0 ==> abs_int(line_cross(q0, q1, x, y)) <= q1.0 - q0.0,
{
    let run: int = q1.0 - q0.0;
    let dy: int = q1.1 - q0.1;
    let rise = abs_int(dy);
    let s = sign_int(dy);
    let k = x - q0.0;
    let m = bres_offset(run, rise, k);
    lemma_bres_offset_facts(run, rise, k);
    assert(y - q0.1 == s * m);
    if rise <= run {
        let cross = line_cross(q0, q1, x, y);
        assert(abs_int(cross) <= run) by (nonlinear_arith)
            requires
                cross == 2 * k * dy - 2 * (y - q0.1) * run,
                y - q0.1 == s * m,
                dy == s * rise,
                s == 1 || s == -1,
                -run <= 2 * run * m - 2 * rise * k < run,
        ;
    }
}

/// Pixel `(x, y)` is the pixel of column `x` nearest the ideal line from `q0`
/// to `q1`, for `q0.0 <= x < q1.0`: twice its distance from the line,
/// measured along `y` and scaled by the run, lies in `[-run, run)`, so an
/// exact half falls toward `q0`.
pub open spec fn low_window(q0: (i32, i32), q1: (i32, i32), x: int, y: int) -> bool {
    let run: int = q1.0 - q0.0;
    let dy: int = q1.1 - q0.1;
    &&& q0.0 <= x < q1.0
    &&& -run <= sign_int(dy) * (2 * run * (y - q0.1) - 2 * (x - q0.0) * dy) < run
}

/// Pixel `(x, y)` is, along the line's longer axis, within the span from the
/// smaller end point up to (not including) the other, and is the pixel of its
/// column (or row) nearest the ideal line, an exact half falling toward that
/// smaller end point.
pub open spec fn line_window(p0: (i32, i32), p1: (i32, i32), x: int, y: int) -> bool {
    if abs_int(p1.1 - p0.1) < abs_int(p1.0 - p0.0) {
        if p0.0 > p1.0 {
            low_window(p1, p0, x, y)
        } else {
            low_window(p0, p1, x, y)
        }
    } else {
        if p0.1 > p1.1 {
            low_window((p1.1, p1.0), (p0.1, p0.0), y, x)
        } else {
            low_window((p0.1, p0.0), (p1.1, p1.0), y, x)
        }
    }
}

proof fn lemma_low_window(q0: (i32, i32), q1: (i32, i32), x: int, y: int)
    requires
        abs_int(q1.1 - q0.1) <= q1.0 - q0.0,
    ensures
        low_covers(q0, q1, x, y) == low_window(q0, q1, x, y),
{
    if q0.0 <= x < q1.0 {
        let run: int = q1.0 - q0.0;
        let dy: int = q1.1 - q0.1;
        let rise = abs_int(dy);
        let s = sign_int(dy);
        let k = x - q0.0;
        let m = bres_offset(run, rise, k);
        lemma_bres_offset_facts(run, rise, k);
        let e = s * (2 * run * (y - q0.1) - 2 * k * dy);
        let mm = s * (y - q0.1);
        assert(e == 2 * run * mm - 2 * rise * k && y - q0.1 == s * mm) by (nonlinear_arith)
            requires
                e == s * (2 * run * (y - q0.1) - 2 * k * dy),
                mm == s * (y - q0.1),
                s == 1 || s == -1,
                dy == s * rise,
        ;
        if low_covers(q0, q1, x, y) {
            assert(mm == m) by (nonlinear_arith)
                requires
                    y - q0.1 == s * m,
                    mm == s * (y - q0.1),
                    s == 1 || s == -1,
            ;
        }
        if low_window(q0, q1, x, y) {
            assert(mm == m) by (nonlinear_arith)
                requires
                    -run <= 2 * run * mm - 2 * rise * k < run,
                    -run <= 2 * run * m - 2 * rise * k < run,
                    run > 0,
            ;
        }
    }
}

/// The pixels a line lights are exactly those of `line_window`.
pub proof fn lemma_line_window(p0: (i32, i32), p1: (i32, i32), x: int, y: int)
    ensures
        line_covers(p0, p1, x, y) == line_window(p0, p1, x, y),
{
    if abs_int(p1.1 - p0.1) < abs_int(p1.0 - p0.0) {
        if p0.0 > p1.0 {
            lemma_low_window(p1, p0, x, y);
        } else {
            lemma_low_window(p0, p1, x, y);
        }
    } else {
        if p0.1 > p1.1 {
            lemma_low_window((p1.1, p1.0), (p0.1, p0.0), y, x);
        } else {
            lemma_low_window((p0.1, p0.0), (p1.1, p1.0), y, x);
        }
    }
}

/// A line that is wider than tall lights a pixel in every column from the
/// smaller end point's column up to, and not including, the other's.
pub proof fn lemma_line_column_covered(p0: (i32, i32), p1: (i32, i32), x: int)
    requires
        abs_int(p1.1 - p0.1) < abs_int(p1.0 - p0.0),
        min_int(p0.0 as int, p1.0 as int) <= x < max_int(p0.0 as int, p1.0 as int),
    ensures
        exists|y: int| line_covers(p0, p1, x, y),
{
    let (q0, q1) = if p0.0 > p1.0 {
        (p1, p0)
    } else {
        (p0, p1)
    };
    let dy: int = q1.1 - q0.1;
    let y = q0.1 + sign_int(dy) * bres_offset(q1.0 - q0.0, abs_int(dy), x - q0.0);
    assert(low_covers(q0, q1, x, y));
    assert(line_covers(p0, p1, x, y));
}

/// A line that is at least as tall as wide lights a pixel in every row from
/// the smaller end point's row up to, and not including, the other's.
pub proof fn lemma_line_row_covered(p0: (i32, i32), p1: (i32, i32), y: int)
    requires
        abs_int(p1.1 - p0.1) >= abs_int(p1.0 - p0.0),
        min_int(p0.1 as int, p1.1 as int) <= y < max_int(p0.1 as int, p1.1 as int),
    ensures
        exists|x: int| line_covers(p0, p1, x, y),
{
    let (q0, q1) = if p0.1 > p1.1 {
        (p1, p0)
    } else {
        (p0, p1)
    };
    let dx: int = q1.0 - q0.0;
    let x = q0.0 + sign_int(dx) * bres_offset(q1.1 - q0.1, abs_int(dx), y - q0.1);
    assert(high_covers(q0, q1, x, y));
    assert(line_covers(p0, p1, x, y));
}

/// A line lights one pixel per step along its longer axis, and only in the
/// span from the smaller end point up to, not including, the other.
pub proof fn lemma_line_one_per_step(p0: (i32, i32), p1: (i32, i32), x: int, y: int, x2: int, y2: int)
    requires
        line_covers(p0, p1, x, y),
        line_covers(p0, p1, x2, y2),
    ensures
        abs_int(p1.1 - p0.1) < abs_int(p1.0 - p0.0) ==> min_int(p0.0 as int, p1.0 as int) <= x
            < max_int(p0.0 as int, p1.0 as int) && (x == x2 ==> y == y2),
        abs_int(p1.1 - p0.1) >= abs_int(p1.0 - p0.0) ==> min_int(p0.1 as int, p1.1 as int) <= y
            < max_int(p0.1 as int, p1.1 as int) && (y == y2 ==> x == x2),
{
}

/// Every pixel of a line lies within the rectangle spanned by its end points.
pub proof fn lemma_line_in_box(p0: (i32, i32), p1: (i32, i32), x: int, y: int)
    requires
        line_covers(p0, p1, x, y),
    ensures
        min_int(p0.0 as int, p1.0 as int) <= x <= max_int(p0.0 as int, p1.0 as int),
        min_int(p0.1 as int, p1.1 as int) <= y <= max_int(p0.1 as int, p1.1 as int),
{
    if abs_int(p1.1 - p0.1) < abs_int(p1.0 - p0.0) {
        if p0.0 > p1.0 {
            lemma_low_in_box_and_near(p1, p0, x, y);
        } else {
            lemma_low_in_box_and_near(p0, p1, x, y);
        }
    } else {
        if p0.1 > p1.1 {
            lemma_low_in_box_and_near((p1.1, p1.0), (p0.1, p0.0), y, x);
        } else {
            lemma_low_in_box_and_near((p0.1, p0.0), (p1.1, p1.0), y, x);
        }
    }
}

/// Every pixel of a line lies within half a pixel of the ideal line, measured
/// across the line's longer axis: twice the cross product is at most the
/// line's extent along that axis.
pub proof fn lemma_line_near_ideal(p0: (i32, i32), p1: (i32, i32), x: int, y: int)
    requires
        line_covers(p0, p1, x, y),
    ensures
        abs_int(line_cross(p0, p1, x, y)) <= max_int(
            abs_int(p1.0 - p0.0),
            abs_int(p1.1 - p0.1),
        ),
{
    let c = line_cross(p0, p1, x, y);
    if abs_int(p1.1 - p0.1) < abs_int(p1.0 - p0.0) {
        if p0.0 > p1.0 {
            lemma_low_in_box_and_near(p1, p0, x, y);
            let c2 = line_cross(p1, p0, x, y);
            assert(c == -c2) by (nonlinear_arith)
                requires
                    c == 2 * (x - p0.0) * (p1.1 - p0.1) - 2 * (y - p0.1) * (p1.0 - p0.0),
                    c2 == 2 * (x - p1.0) * (p0.1 - p1.1) - 2 * (y - p1.1) * (p0.0 - p1.0),
            ;
        } else {
            lemma_low_in_box_and_near(p0, p1, x, y);
        }
    } else {
        let q0 = (p0.1, p0.0);
        let q1 = (p1.1, p1.0);
        if p0.1 > p1.1 {
            lemma_low_in_box_and_near(q1, q0, y, x);
            let c2 = line_cross(q1, q0, y, x);
            assert(c == c2) by (nonlinear_arith)
                requires
                    c == 2 * (x - p0.0) * (p1.1 - p0.1) - 2 * (y - p0.1) * (p1.0 - p0.0),
                    c2 == 2 * (y - p1.1) * (p0.0 - p1.0) - 2 * (x - p1.0) * (p0.1 - p1.1),
            ;
        } else {
            lemma_low_in_box_and_near(q0, q1, y, x);
            let c2 = line_cross(q0, q1, y, x);
            assert(c == -c2) by (nonlinear_arith)
                requires
                    c == 2 * (x - p0.0) * (p1.1 - p0.1) - 2 * (y - p0.1) * (p1.0 - p0.0),
                    c2 == 2 * (y - p0.1) * (p1.0 - p0.0) - 2 * (x - p0.0) * (p1.1 - p0.1),
            ;
        }
    }
}

/// The error term after step `k` of a line stays within `i32` when the line's
/// arithmetic does.
proof fn lemma_d_next_fits(run: int, rise: int, k: int)
    requires
        run > 0,
        rise >= 0,
        0 <= k < run,
        fits_i32(2 * rise),
        fits_i32(2 * rise - run),
        fits_i32(2 * (rise - run)),
        rise > run ==> fits_i32(2 * (rise - run) * run + 2 * rise - run),
    ensures
        fits_i32(bres_error(run, rise, k + 1)),
{
    lemma_bres_offset_facts(run, rise, k + 1);
    let m = bres_offset(run, rise, k + 1);
    if rise > run {
        assert(fits_i32(2 * rise * (k + 2) - run - 2 * run * m)) by (nonlinear_arith)
            requires
                m == k + 1,
                0 <= k < run,
                rise > run,
                fits_i32(2 * rise - run),
                fits_i32(2 * (rise - run) * run + 2 * rise - run),
        ;
    } else {
        assert(fits_i32(2 * rise * (k + 2) - run - 2 * run * m)) by (nonlinear_arith)
            requires
                -run <= 2 * run * m - 2 * rise * (k + 1) < run,
                fits_i32(2 * rise),
                fits_i32(2 * (rise - run)),
                run > 0,
        ;
    }
}

} // verus!
