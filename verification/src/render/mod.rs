use vstd::prelude::*;

pub mod fast;
pub mod pretty;
pub use fast::RenderSettingsFast;
pub use pretty::RenderSettingsPretty;

verus! {

/// The colour channel of `color` that starts at bit `shift`.
pub open spec fn channel(color: u32, shift: nat) -> int {
    (color as int / vstd::arithmetic::power2::pow2(shift) as int) % 256
}

/// `v` held within 0 and 255.
pub open spec fn clamp_channel(v: int) -> int {
    if v < 0 {
        0
    } else if v > 255 {
        255
    } else {
        v
    }
}

/// `color` with `x` added to each of its red, green and blue channels, each
/// held within 0 and 255; the alpha byte is dropped.
pub open spec fn brightened(color: u32, x: i32) -> int {
    clamp_channel(channel(color, 16) + x) * 65536 + clamp_channel(channel(color, 8) + x) * 256
        + clamp_channel(channel(color, 0) + x)
}

/// Adjusting by nothing keeps the red, green and blue channels and drops only
/// the alpha byte.
pub proof fn lemma_brightness_zero(color: u32)
    ensures
        brightened(color, 0) == color as int % 16777216,
{
    vstd::arithmetic::power2::lemma2_to64();
    assert(channel(color, 16) == (color / 65536) % 256);
    assert(channel(color, 8) == (color / 256) % 256);
    assert(channel(color, 0) == color % 256);
    assert((color / 65536) % 256 * 65536 + (color / 256) % 256 * 256 + color % 256 == color % 16777216) by (bit_vector);
}


/// The offsets that the midpoint circle drawing visits from the state
/// `(x, y, p)` on: while `x < -y`, `y` moves one up where the decision value
/// `p` is positive, the offset `(x, y)` is visited, and `x` moves one right.
pub open spec fn circle_from(x: int, y: int, p: int) -> Seq<(int, int)>
    decreases -y - x + 2,
{
    if x < -y {
        let (y2, p2) = if p > 0 {
            (y + 1, p + 2 * (x + y + 1) + 1)
        } else {
            (y, p + 2 * x + 1)
        };
        seq![(x, y2)] + circle_from(x + 1, y2, p2)
    } else {
        Seq::empty()
    }
}

/// The offsets, in the first octant below the centre, that drawing a circle of
/// `radius` visits; each stands for eight pixels mirrored around the centre.
pub open spec fn circle_offsets(radius: int) -> Seq<(int, int)> {
    circle_from(0, -radius, -radius)
}

/// The offsets that drawing a circle of `radius` visits, in order: `x` counts
/// up from zero while `y` climbs from `-radius` towards zero, one pixel per
/// column, until `x` reaches `-y`.
pub fn circle_points(radius: isize) -> (r: Vec<(isize, isize)>)
    requires
        2 * radius <= isize::MAX + 1,
    ensures
        r@.map_values(|o: (isize, isize)| (o.0 as int, o.1 as int)) == circle_offsets(radius as int),
{
    let mut out: Vec<(isize, isize)> = Vec::new();
    if radius <= 0 {
        assert(circle_offsets(radius as int) =~= Seq::empty());
        return out;
    }
    let mut x: isize = 0;
    let mut y: isize = -radius;
    let mut p: isize = -radius;
    let ghost r = radius as int;
    assert((-r) * (-r) == r * r) by (nonlinear_arith);
    while x < -y
        invariant
            0 < r,
            2 * r <= isize::MAX + 1,
            0 <= x,
            -r <= y <= 0,
            x <= -y + 1,
            p == x * x + y * y - r * r + y,
            -2 * r <= p <= 2 * x - 1,
            out@.map_values(|o: (isize, isize)| (o.0 as int, o.1 as int)) + circle_from(x as int, y as int, p as int)
                == circle_offsets(r),
        decreases -y - x + 2,
    {
        let ghost old_out = out@.map_values(|o: (isize, isize)| (o.0 as int, o.1 as int));
        let ghost (ox, oy, op) = (x as int, y as int, p as int);
        if p > 0 {
            y = y + 1;
            p = p + (2 * (x + y) + 1);
        } else {
            p = p + (2 * x + 1);
        }
        assert(p == (x + 1) * (x + 1) + y * y - r * r + y) by (nonlinear_arith)
            requires
                op == ox * ox + oy * oy - r * r + oy,
                x == ox,
                (y == oy + 1 && p == op + 2 * (ox + oy + 1) + 1) || (y == oy && p == op + 2 * ox + 1),
        ;
        out.push((x, y));
        proof {
            assert(out@.map_values(|o: (isize, isize)| (o.0 as int, o.1 as int)) =~= old_out.push((x as int, y as int)));
            assert(circle_from(ox, oy, op) == seq![(x as int, y as int)] + circle_from(x + 1, y as int, p as int));
            assert(old_out + circle_from(ox, oy, op) =~= old_out.push((x as int, y as int)) + circle_from(x + 1, y as int, p as int));
        }
        x = x + 1;
    }
    assert(circle_from(x as int, y as int, p as int) =~= Seq::empty());
    assert(out@.map_values(|o: (isize, isize)| (o.0 as int, o.1 as int)) + Seq::<(int, int)>::empty()
        =~= out@.map_values(|o: (isize, isize)| (o.0 as int, o.1 as int)));
    out
}


proof fn lemma_circle_from_shape(x: int, y: int, p: int)
    requires
        0 <= x,
        y <= 0,
    ensures
        ({
            let c = circle_from(x, y, p);
            &&& forall|k: int| 0 <= k < c.len() ==> (#[trigger] c[k]).0 == x + k && x + k <= -c[k].1 && y <= c[k].1
                <= 0
            &&& forall|k: int| 0 <= k < c.len() - 1 ==> #[trigger] c[k].1 <= c[k + 1].1 <= c[k].1 + 1
            &&& c.len() > 0 ==> y <= c[0].1 <= y + 1
            &&& x < -y ==> 1 <= c.len() <= -y - x
            &&& x >= -y ==> c.len() == 0
        }),
    decreases -y - x + 2,
{
    if x < -y {
        let (y2, p2) = if p > 0 {
            (y + 1, p + 2 * (x + y + 1) + 1)
        } else {
            (y, p + 2 * x + 1)
        };
        lemma_circle_from_shape(x + 1, y2, p2);
        let rest = circle_from(x + 1, y2, p2);
        let c = circle_from(x, y, p);
        assert(c == seq![(x, y2)] + rest);
        assert forall|k: int| 0 <= k < c.len() implies (#[trigger] c[k]).0 == x + k && x + k <= -c[k].1 && y <= c[k].1 <= 0 by {
            if k > 0 {
                assert(c[k] == rest[k - 1]);
            }
        }
        assert forall|k: int| 0 <= k < c.len() - 1 implies #[trigger] c[k].1 <= c[k + 1].1 <= c[k].1 + 1 by {
            assert(c[k + 1] == rest[k]);
            if k > 0 {
                assert(c[k] == rest[k - 1]);
            }
        }
    }
}

/// The offsets that drawing a circle visits lie in the first octant below the
/// centre: the `k`-th is `k` pixels right of the centre, no farther right than
/// it is down, and at most `radius` down; from one offset to the next, the
/// height stays or climbs by one.
pub proof fn lemma_circle_offsets_octant(radius: int)
    requires
        radius >= 0,
    ensures
        ({
            let c = circle_offsets(radius);
            &&& forall|k: int| 0 <= k < c.len() ==> (#[trigger] c[k]).0 == k && k <= -c[k].1 && -radius <= c[k].1 <= 0
            &&& forall|k: int| 0 <= k < c.len() - 1 ==> #[trigger] c[k].1 <= c[k + 1].1 <= c[k].1 + 1
        }),
{
    lemma_circle_from_shape(0, -radius, -radius);
}

/// A circle of radius at least one is drawn from at least one and at most
/// `radius` offsets, the first straight above the centre; the pixels of each
/// offset are closed under mirroring left to right, top to bottom and across
/// the diagonal, and those of the first are the four points at `radius` from
/// the centre along the axes.
pub proof fn lemma_circle_shape(radius: int)
    requires
        radius >= 1,
    ensures
        ({
            let c = circle_offsets(radius);
            &&& 1 <= c.len() <= radius
            &&& c[0] == (0int, -radius)
            &&& mirrored(c[0]).contains((0int, radius))
            &&& mirrored(c[0]).contains((0int, -radius))
            &&& mirrored(c[0]).contains((radius, 0int))
            &&& mirrored(c[0]).contains((-radius, 0int))
            &&& forall|k: int, i: int|
                0 <= k < c.len() && 0 <= i < 8 ==> {
                    let d = #[trigger] mirrored(c[k])[i];
                    &&& mirrored(c[k]).contains((-d.0, d.1))
                    &&& mirrored(c[k]).contains((d.0, -d.1))
                    &&& mirrored(c[k]).contains((d.1, d.0))
                }
        }),
{
    lemma_circle_from_shape(0, -radius, -radius);
    let c = circle_offsets(radius);
    assert(c[0] == (0int, -radius));
    let m0 = mirrored(c[0]);
    assert(m0[2] == (0int, radius));
    assert(m0[0] == (0int, -radius));
    assert(m0[6] == (radius, 0int));
    assert(m0[4] == (-radius, 0int));
    assert forall|k: int, i: int| 0 <= k < c.len() && 0 <= i < 8 implies {
        let d = #[trigger] mirrored(c[k])[i];
        &&& mirrored(c[k]).contains((-d.0, d.1))
        &&& mirrored(c[k]).contains((d.0, -d.1))
        &&& mirrored(c[k]).contains((d.1, d.0))
    } by {
        let m = mirrored(c[k]);
        let (x, y) = c[k];
        assert(m[0] == (x, y) && m[1] == (-x, y) && m[2] == (x, -y) && m[3] == (-x, -y));
        assert(m[4] == (y, x) && m[5] == (y, -x) && m[6] == (-y, x) && m[7] == (-y, -x));
    }
}

/// The eight offsets that the offset `(x, y)` stands for, mirrored around the
/// centre, in the order in which a circle draws them.
pub open spec fn mirrored(o: (int, int)) -> Seq<(int, int)> {
    let (x, y) = o;
    seq![(x, y), (-x, y), (x, -y), (-x, -y), (y, x), (y, -x), (-y, x), (-y, -x)]
}

/// The coordinate `p` moved by `d`, wrapping around the range of `usize`.
pub open spec fn moved(p: usize, d: int) -> int {
    (p + d) % (usize::MAX + 1)
}

/// The pixels that the offsets stand for around the centre `(cx, cy)`: for each
/// offset in turn, its eight mirror images moved to the centre.
pub open spec fn pixels_of(offsets: Seq<(int, int)>, cx: usize, cy: usize) -> Seq<(int, int)>
    decreases offsets.len(),
{
    if offsets.len() == 0 {
        Seq::empty()
    } else {
        pixels_of(offsets.drop_last(), cx, cy) + mirrored(offsets.last()).map_values(
            |d: (int, int)| (moved(cx, d.0), moved(cy, d.1)),
        )
    }
}

/// Moves the coordinate `p` by `d`, wrapping around the range of `usize`.
fn shift(p: usize, d: isize) -> (r: usize)
    ensures
        r == moved(p, d as int),
{
    let r = p.wrapping_add_signed(d);
    proof {
        let m: int = usize::MAX + 1;
        let v: int = p + d;
        if v > usize::MAX {
            vstd::arithmetic::div_mod::lemma_mod_sub_multiples_vanish(v, m);
            vstd::arithmetic::div_mod::lemma_small_mod((-m + v) as nat, m as nat);
        } else if v < 0 {
            vstd::arithmetic::div_mod::lemma_mod_add_multiples_vanish(v, m);
            vstd::arithmetic::div_mod::lemma_small_mod((m + v) as nat, m as nat);
        } else {
            vstd::arithmetic::div_mod::lemma_small_mod(v as nat, m as nat);
        }
    }
    r
}

/// The pixels of a circle of `radius` around `(pos_x, pos_y)`, in the order in
/// which they are drawn: each offset that the drawing visits, mirrored eight
/// ways, with coordinates that wrap around the range of `usize`.
pub fn circle_pixels(pos_x: usize, pos_y: usize, radius: isize) -> (r: Vec<(usize, usize)>)
    requires
        2 * radius <= isize::MAX + 1,
    ensures
        r@.map_values(|p: (usize, usize)| (p.0 as int, p.1 as int)) == pixels_of(
            circle_offsets(radius as int),
            pos_x,
            pos_y,
        ),
{
    let offsets = circle_points(radius);
    let ghost c = circle_offsets(radius as int);
    proof {
        if radius >= 0 {
            lemma_circle_offsets_octant(radius as int);
        } else {
            assert(c =~= Seq::empty());
        }
        assert(offsets@.map_values(|o: (isize, isize)| (o.0 as int, o.1 as int)).len() == offsets@.len());
    }
    let mut out: Vec<(usize, usize)> = Vec::new();
    let mut k: usize = 0;
    assert(c.take(0) =~= Seq::<(int, int)>::empty());
    while k < offsets.len()
        invariant
            k <= offsets@.len(),
            offsets@.map_values(|o: (isize, isize)| (o.0 as int, o.1 as int)) == c,
            offsets@.len() == c.len(),
            forall|j: int| 0 <= j < c.len() ==> 0 <= (#[trigger] c[j]).0 <= -c[j].1 <= radius,
            out@.map_values(|p: (usize, usize)| (p.0 as int, p.1 as int)) == pixels_of(c.take(k as int), pos_x, pos_y),
        decreases offsets@.len() - k,
    {
        let (x, y) = offsets[k];
        assert(c[k as int] == (x as int, y as int));
        let ghost before = out@.map_values(|p: (usize, usize)| (p.0 as int, p.1 as int));
        out.push((shift(pos_x, x), shift(pos_y, y)));
        out.push((shift(pos_x, -x), shift(pos_y, y)));
        out.push((shift(pos_x, x), shift(pos_y, -y)));
        out.push((shift(pos_x, -x), shift(pos_y, -y)));
        out.push((shift(pos_x, y), shift(pos_y, x)));
        out.push((shift(pos_x, y), shift(pos_y, -x)));
        out.push((shift(pos_x, -y), shift(pos_y, x)));
        out.push((shift(pos_x, -y), shift(pos_y, -x)));
        proof {
            let t = c.take(k + 1);
            assert(t.drop_last() =~= c.take(k as int));
            assert(t.last() == c[k as int]);
            let eight = mirrored(c[k as int]).map_values(|d: (int, int)| (moved(pos_x, d.0), moved(pos_y, d.1)));
            assert(out@.map_values(|p: (usize, usize)| (p.0 as int, p.1 as int)) =~= before + eight);
        }
        k = k + 1;
    }
    assert(c.take(c.len() as int) =~= c);
    out
}

} // verus!
