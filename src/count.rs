use vstd::prelude::*;

verus! {

/// The sum of `f(x, y)` over `0 <= y < h`.
pub open spec fn sum_col(f: spec_fn(int, int) -> int, x: int, h: int) -> int
    decreases h,
{
    if h <= 0 {
        0
    } else {
        sum_col(f, x, h - 1) + f(x, h - 1)
    }
}

/// The sum of `f(x, y)` over the rectangle `0 <= x < w`, `0 <= y < h`.
pub open spec fn sum_grid(f: spec_fn(int, int) -> int, w: int, h: int) -> int
    decreases w,
{
    if w <= 0 {
        0
    } else {
        sum_grid(f, w - 1, h) + sum_col(f, w - 1, h)
    }
}

proof fn lemma_sum_col_point(
    f: spec_fn(int, int) -> int,
    f2: spec_fn(int, int) -> int,
    x: int,
    h: int,
    p: (int, int),
)
    requires
        forall|a: int, b: int| (a, b) != p ==> #[trigger] f2(a, b) == f(a, b),
    ensures
        sum_col(f2, x, h) == sum_col(f, x, h) + if x == p.0 && 0 <= p.1 < h {
            f2(p.0, p.1) - f(p.0, p.1)
        } else {
            0
        },
    decreases h,
{
    if h > 0 {
        lemma_sum_col_point(f, f2, x, h - 1, p);
        assert((x, h - 1) != p ==> f2(x, h - 1) == f(x, h - 1));
    }
}

/// Changing `f` at one point changes its sum over the rectangle by the change
/// there, where the point lies inside, and not at all otherwise.
pub proof fn lemma_sum_grid_point(
    f: spec_fn(int, int) -> int,
    f2: spec_fn(int, int) -> int,
    w: int,
    h: int,
    p: (int, int),
)
    requires
        forall|a: int, b: int| (a, b) != p ==> #[trigger] f2(a, b) == f(a, b),
    ensures
        sum_grid(f2, w, h) == sum_grid(f, w, h) + if 0 <= p.0 < w && 0 <= p.1 < h {
            f2(p.0, p.1) - f(p.0, p.1)
        } else {
            0
        },
    decreases w,
{
    if w > 0 {
        lemma_sum_grid_point(f, f2, w - 1, h, p);
        lemma_sum_col_point(f, f2, w - 1, h, p);
    }
}

proof fn lemma_sum_col_zero(f: spec_fn(int, int) -> int, x: int, h: int)
    requires
        forall|a: int, b: int| #[trigger] f(a, b) == 0,
    ensures
        sum_col(f, x, h) == 0,
    decreases h,
{
    if h > 0 {
        lemma_sum_col_zero(f, x, h - 1);
    }
}

/// A function that is zero everywhere sums to zero.
pub proof fn lemma_sum_grid_zero(f: spec_fn(int, int) -> int, w: int, h: int)
    requires
        forall|a: int, b: int| #[trigger] f(a, b) == 0,
    ensures
        sum_grid(f, w, h) == 0,
    decreases w,
{
    if w > 0 {
        lemma_sum_grid_zero(f, w - 1, h);
        lemma_sum_col_zero(f, w - 1, h);
    }
}

} // verus!
