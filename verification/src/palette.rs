//! The palette generator: a roughly cube-root-spaced lattice over the RGB
//! color cube, offset by one full step so it is not anchored at black, and
//! handed to the engine in a uniformly shuffled order.

use vstd::prelude::*;

use crate::color::Color;
use crate::random::Rng;

verus! {

/// 256 cubed: the number of points of the full RGB cube.
pub const CUBE_VOLUME: u64 = 16777216;

/// The largest palette size `generate_palette` accepts: beyond the volume of
/// the color cube the lattice stride would fall to zero.
pub const MAX_PALETTE_COUNT: u32 = 16777216;

/// Walks the candidate strides downward; the result is the largest stride
/// `s` in [1, top] with `s^3 * count <= CUBE_VOLUME`, or 1 if none is.
pub open spec fn step_search(count: int, top: int) -> int
    decreases top,
{
    if top <= 1 {
        1
    } else if top * top * top * count <= CUBE_VOLUME {
        top
    } else {
        step_search(count, top - 1)
    }
}

/// The lattice stride for a palette of `count` colors: the integer part of
/// 256 divided by the cube root of `count`.
pub open spec fn step_spec(count: int) -> int {
    step_search(count, 256)
}

/// The number of lattice points per axis for stride `s`: how many multiples
/// of `s` lie in [0, 256).
pub open spec fn axis_points(s: int) -> int {
    (255int / s) + 1
}

/// One channel of a lattice point: the `k`-th multiple of the stride, offset
/// by one full step, wrapped into the 8-bit range.
pub open spec fn lattice_channel(s: int, k: int) -> u8 {
    (((k * s) + s) % 256) as u8
}

/// The color at position `i` of the lattice enumeration, which runs `b`
/// fastest, then `g`, then `r`.
pub open spec fn lattice_color(s: int, n: int, i: int) -> Color {
    Color {
        r: lattice_channel(s, i / (n * n)),
        g: lattice_channel(s, (i / n) % n),
        b: lattice_channel(s, i % n),
    }
}

/// The whole lattice for a palette of `count` colors, in enumeration order.
/// Its length is the cube of the per-axis point count, which may exceed or
/// fall short of `count`.
pub open spec fn lattice(count: int) -> Seq<Color> {
    let s = step_spec(count);
    let n = axis_points(s);
    Seq::new((n * n * n) as nat, |i: int| lattice_color(s, n, i))
}

/// `step_search` returns the largest admissible stride: what it returns
/// satisfies the cube bound (or is the floor 1), and every larger stride up
/// to `top` violates it.
proof fn lemma_step_search(count: int, top: int)
    requires
        1 <= count,
        1 <= top,
    ensures
        1 <= step_search(count, top) <= top,
        step_search(count, top) > 1 ==> step_search(count, top) * step_search(count, top)
            * step_search(count, top) * count <= CUBE_VOLUME,
        forall|t: int|
            step_search(count, top) < t <= top ==> #[trigger] (t * t * t) * count > CUBE_VOLUME,
    decreases top,
{
    if top <= 1 {
    } else if top * top * top * count <= CUBE_VOLUME {
    } else {
        lemma_step_search(count, top - 1);
        assert forall|t: int| step_search(count, top) < t <= top implies #[trigger] (t * t * t)
            * count > CUBE_VOLUME by {
            if t == top {
                assert(t * t * t * count == (t * t * t) * count);
            }
        }
    }
}

/// The stride fits the spec of "floor of 256 over the cube root": its cube
/// times `count` stays within the color cube, while the next stride's cube
/// would overflow it.
pub proof fn lemma_step_bounds(count: int)
    requires
        1 <= count <= MAX_PALETTE_COUNT,
    ensures
        1 <= step_spec(count) <= 256,
        step_spec(count) * step_spec(count) * step_spec(count) * count <= CUBE_VOLUME,
        (step_spec(count) + 1) * (step_spec(count) + 1) * (step_spec(count) + 1) * count
            > CUBE_VOLUME,
{
    lemma_step_search(count, 256);
    let s = step_spec(count);
    if s == 1 {
        assert(s * s * s * count == count);
    }
    if s < 256 {
        assert((s + 1) * (s + 1) * (s + 1) * count == ((s + 1) * (s + 1) * (s + 1)) * count);
    } else {
        assert(257 * 257 * 257 * count > CUBE_VOLUME) by (nonlinear_arith)
            requires
                count >= 1,
        ;
    }
}

/// Computes the lattice stride for a palette of `count` colors.
///
/// The result is pinned by two inequalities: its cube times `count` does not
/// exceed the volume of the color cube, and the cube of the next stride
/// does.
pub fn color_step(count: u32) -> (s: u32)
    requires
        1 <= count <= MAX_PALETTE_COUNT,
    ensures
        s == step_spec(count as int),
        1 <= s <= 256,
        s * s * s * count <= CUBE_VOLUME,
        (s + 1) * (s + 1) * (s + 1) * count > CUBE_VOLUME,
{
    proof {
        lemma_step_search(count as int, 256);
        lemma_step_bounds(count as int);
    }
    let mut top: u64 = 256;
    loop
        invariant
            1 <= top <= 256,
            1 <= count <= MAX_PALETTE_COUNT,
            step_search(count as int, top as int) == step_spec(count as int),
        ensures
            top == step_spec(count as int),
        decreases top,
    {
        if top <= 1 {
            break ;
        }
        proof {
            assert(top * top <= 65536 && top * top * top <= 16777216 && top * top * top * (
            count as u64) <= 0x1000000000000) by (nonlinear_arith)
                requires
                    1 <= top <= 256,
                    1 <= count <= 16777216,
            ;
        }
        let cube = top * top * top * (count as u64);
        if cube <= CUBE_VOLUME {
            break ;
        }
        top = top - 1;
    }
    top as u32
}

/// Splitting an index of the lattice enumeration back into its three axis
/// digits: for `i = kr*n*n + kg*n + kb` with `kg` and `kb` below `n`, the
/// quotients and remainders recover the digits.
proof fn lemma_lattice_digits(kr: int, kg: int, kb: int, n: int)
    requires
        1 <= n,
        0 <= kr,
        0 <= kg < n,
        0 <= kb < n,
    ensures
        (kr * n * n + kg * n + kb) / (n * n) == kr,
        ((kr * n * n + kg * n + kb) / n) % n == kg,
        (kr * n * n + kg * n + kb) % n == kb,
{
    let i = kr * n * n + kg * n + kb;
    assert(i == (kr * n + kg) * n + kb) by (nonlinear_arith)
        requires
            i == kr * n * n + kg * n + kb,
    ;
    vstd::arithmetic::div_mod::lemma_fundamental_div_mod_converse(i, n, kr * n + kg, kb);
    vstd::arithmetic::div_mod::lemma_fundamental_div_mod_converse(kr * n + kg, n, kr, kg);
    assert(0 <= kg * n + kb < n * n) by (nonlinear_arith)
        requires
            1 <= n,
            0 <= kg < n,
            0 <= kb < n,
    ;
    assert(i == kr * (n * n) + (kg * n + kb)) by (nonlinear_arith)
        requires
            i == kr * n * n + kg * n + kb,
    ;
    vstd::arithmetic::div_mod::lemma_fundamental_div_mod_converse(i, n * n, kr, kg * n + kb);
}

/// One channel of a lattice point, as executable code.
fn lattice_channel_exec(s: u32, k: u32) -> (c: u8)
    requires
        1 <= s <= 256,
        k < 256,
    ensures
        c == lattice_channel(s as int, k as int),
{
    proof {
        assert(k * s <= 65280) by (nonlinear_arith)
            requires
                k < 256,
                1 <= s <= 256,
        ;
    }
    (((k * s) + s) % 256) as u8
}

/// Builds the palette for a canvas of `count` cells: every point of the
/// stride-spaced lattice over the RGB cube, in an order shuffled uniformly
/// by `rng`. The result holds exactly the lattice's colors, so its length is
/// the cube of the per-axis point count and may differ from `count`.
pub fn generate_palette(count: u32, rng: &mut Rng) -> (palette: Vec<Color>)
    requires
        1 <= count <= MAX_PALETTE_COUNT,
    ensures
        palette@.to_multiset() == lattice(count as int).to_multiset(),
        palette@.len() == lattice(count as int).len(),
{
    let s = color_step(count);
    let n: u32 = (255 / s) + 1;
    let ghost gn: int = n as int;
    let ghost target: Seq<Color> = lattice(count as int);
    proof {
        assert(gn == axis_points(s as int));
    }
    assert(n * n * n == gn * gn * gn) by (nonlinear_arith)
        requires
            1 <= n <= 256,
            gn == n as int,
    ;
    let mut colors: Vec<Color> = Vec::new();
    let mut kr: u32 = 0;
    while kr < n
        invariant
            s == step_spec(count as int),
            gn == axis_points(s as int),
            1 <= s <= 256,
            1 <= n <= 256,
            gn == n as int,
            kr <= n,
            target == lattice(count as int),
            target.len() == gn * gn * gn,
            colors@.len() == kr * gn * gn,
            forall|i: int| 0 <= i < colors@.len() ==> colors@[i] == target[i],
        decreases n - kr,
    {
        let mut kg: u32 = 0;
        while kg < n
            invariant
                s == step_spec(count as int),
                gn == axis_points(s as int),
                1 <= s <= 256,
                1 <= n <= 256,
                gn == n as int,
                kr < n,
                kg <= n,
                target == lattice(count as int),
                target.len() == gn * gn * gn,
                colors@.len() == kr * gn * gn + kg * gn,
                forall|i: int| 0 <= i < colors@.len() ==> colors@[i] == target[i],
            decreases n - kg,
        {
            let mut kb: u32 = 0;
            while kb < n
                invariant
                    s == step_spec(count as int),
                    gn == axis_points(s as int),
                    1 <= s <= 256,
                    1 <= n <= 256,
                    gn == n as int,
                    kr < n,
                    kg < n,
                    kb <= n,
                    target == lattice(count as int),
                    target.len() == gn * gn * gn,
                    colors@.len() == kr * gn * gn + kg * gn + kb,
                    forall|i: int| 0 <= i < colors@.len() ==> colors@[i] == target[i],
                decreases n - kb,
            {
                let ghost i: int = colors@.len() as int;
                proof {
                    lemma_lattice_digits(kr as int, kg as int, kb as int, gn);
                    assert(kr * gn * gn + kg * gn + kb < gn * gn * gn) by (nonlinear_arith)
                        requires
                            1 <= gn,
                            0 <= kr < gn,
                            0 <= kg < gn,
                            0 <= kb < gn,
                    ;
                }
                let c = Color {
                    r: lattice_channel_exec(s, kr),
                    g: lattice_channel_exec(s, kg),
                    b: lattice_channel_exec(s, kb),
                };
                proof {
                    assert(target[i] == lattice_color(s as int, gn, i));
                }
                colors.push(c);
                kb = kb + 1;
            }
            kg = kg + 1;
            proof {
                assert(kr * gn * gn + (kg - 1) * gn + gn == kr * gn * gn + kg * gn)
                    by (nonlinear_arith);
            }
        }
        kr = kr + 1;
        proof {
            assert((kr - 1) * gn * gn + gn * gn == kr * gn * gn) by (nonlinear_arith);
        }
    }
    proof {
        assert(colors@ =~= target);
    }
    rng.shuffle_colors(&mut colors);
    colors
}

} // verus!
