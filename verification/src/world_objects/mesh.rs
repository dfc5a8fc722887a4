//! Triangles of a surface of revolution: a profile of points turned around
//! the vertical axis, `n` copies of each point per turn.

use vstd::prelude::*;

verus! {

/// Corner `t` (of six) of the quad between profile points `i` and `i + 1`
/// and turns `j` and `j + 1` (wrapping): two triangles `a b c` and `a c d`.
pub open spec fn quad_corner(n: int, i: int, j: int, t: int) -> int {
    let jn = (j + 1) % n;
    let a = i * n + j;
    let b = (i + 1) * n + j;
    let c = (i + 1) * n + jn;
    let d = i * n + jn;
    if t == 0 {
        a
    } else if t == 1 {
        b
    } else if t == 2 {
        c
    } else if t == 3 {
        a
    } else if t == 4 {
        c
    } else {
        d
    }
}

/// The triangle list joining `profile_len` rings of `n_radial` vertices:
/// vertex `p * n_radial + j` is point `p` of the profile at turn `j`.
pub fn ring_triangle_indices(profile_len: u32, n_radial: u32) -> (r: Vec<u32>)
    requires
        profile_len >= 1,
        n_radial > 0,
        profile_len * n_radial <= u32::MAX,
    ensures
        r@.len() == 6 * (profile_len - 1) * n_radial,
        forall|i: int, j: int, t: int|
            0 <= i < profile_len - 1 && 0 <= j < n_radial && 0 <= t < 6 ==> r@[6 * (i * n_radial + j)
                + t] == quad_corner(n_radial as int, i, j, t),
{
    let n = n_radial;
    let rings = profile_len - 1;
    let mut out: Vec<u32> = Vec::new();
    let mut i: u32 = 0;
    let mut row_base: u32 = 0;
    assert(6 * 0 * n == 0) by (nonlinear_arith);
    while i < rings
        invariant
            row_base == i * n,
            rings == profile_len - 1,
            n == n_radial,
            n > 0,
            profile_len * n <= u32::MAX,
            i <= rings,
            out@.len() == 6 * i * n,
            forall|i2: int, j2: int, t: int|
                0 <= i2 < i && 0 <= j2 < n && 0 <= t < 6 ==> out@[6 * (i2 * n + j2) + t] == quad_corner(
                    n as int,
                    i2,
                    j2,
                    t,
                ),
        decreases rings - i,
    {
        let mut j: u32 = 0;
        assert(6 * (i * n + 0) == 6 * i * n) by (nonlinear_arith);
        while j < n
            invariant
                row_base == i * n,
                rings == profile_len - 1,
                n == n_radial,
                n > 0,
                profile_len * n <= u32::MAX,
                i < rings,
                j <= n,
                out@.len() == 6 * (i * n + j),
                forall|i2: int, j2: int, t: int|
                    0 <= i2 < i && 0 <= j2 < n && 0 <= t < 6 ==> out@[6 * (i2 * n + j2) + t]
                        == quad_corner(n as int, i2, j2, t),
                forall|j2: int, t: int|
                    0 <= j2 < j && 0 <= t < 6 ==> out@[6 * (i * n + j2) + t] == quad_corner(
                        n as int,
                        i as int,
                        j2,
                        t,
                    ),
            decreases n - j,
        {
            proof {
                assert((i + 2) * n <= profile_len * n) by (nonlinear_arith)
                    requires
                        i + 2 <= profile_len,
                ;
                assert((i + 1) * n == i * n + n) by (nonlinear_arith);
                assert((i + 2) * n == i * n + n + n) by (nonlinear_arith);
            }
            let jn = (j + 1) % n;
            let a = row_base + j;
            let b = row_base + n + j;
            let c = row_base + n + jn;
            let d = row_base + jn;
            let ghost before = out@;
            out.push(a);
            out.push(b);
            out.push(c);
            out.push(a);
            out.push(c);
            out.push(d);
            proof {
                let base = 6 * (i * n + j);
                assert(out@.len() == base + 6);
                assert forall|i2: int, j2: int, t: int|
                    0 <= i2 < i && 0 <= j2 < n && 0 <= t < 6 implies out@[6 * (i2 * n + j2) + t]
                        == quad_corner(n as int, i2, j2, t) by {
                    assert(i2 * n + j2 < i * n) by (nonlinear_arith)
                        requires
                            i2 < i,
                            j2 < n,
                            0 <= j2,
                    ;
                    assert(out@[6 * (i2 * n + j2) + t] == before[6 * (i2 * n + j2) + t]);
                }
                assert forall|j2: int, t: int|
                    0 <= j2 < j + 1 && 0 <= t < 6 implies out@[6 * (i * n + j2) + t] == quad_corner(
                        n as int,
                        i as int,
                        j2,
                        t,
                    ) by {
                    if j2 < j {
                        assert(out@[6 * (i * n + j2) + t] == before[6 * (i * n + j2) + t]);
                    }
                }
            }
            j += 1;
        }
        proof {
            assert(6 * (i * n + n) == 6 * (i + 1) * n) by (nonlinear_arith);
            assert((i + 1) * n == i * n + n) by (nonlinear_arith);
            assert((i + 1) * n <= profile_len * n) by (nonlinear_arith)
                requires
                    i + 1 <= profile_len,
            ;
            assert forall|i2: int, j2: int, t: int|
                0 <= i2 < i + 1 && 0 <= j2 < n && 0 <= t < 6 implies out@[6 * (i2 * n + j2) + t]
                    == quad_corner(n as int, i2, j2, t) by {
                if i2 == i {
                }
            }
        }
        row_base = row_base + n;
        i += 1;
    }
    proof {
        assert(6 * i * n == 6 * (profile_len - 1) * n_radial);
    }
    out
}

} // verus!
