//! Flood fill: starting from one pixel, recolors 4-connected pixels
//! whose color matches the start pixel's color within a threshold,
//! optionally gated by a selection mask. A frontier stack drives the
//! fill; an explicit visited bitset keyed by pixel index keeps matching
//! judged against the buffer as it was before the fill began, so the
//! fill stays correct even when the fill color itself matches the
//! region.

use crate::base::RgbaBuffer;
use crate::fill::{color_close, colors_match};
use crate::pix::{
    byte_at, in_grid, lemma_grid_coords, lemma_mul4_mod, lemma_pix_bounds, lemma_pix_div_mod, pix,
    pixel_of, put_pixel, px_len,
};
use vstd::prelude::*;

verus! {

broadcast use vstd::std_specs::vec::axiom_spec_len, vstd::slice::axiom_spec_len;

/// The fixed surroundings of one fill operation: the buffer bytes as they
/// were before any pixel was recolored, the grid, the start pixel's
/// color, the threshold, and the optional mask gate.
pub struct FillEnv {
    pub data: Seq<u8>,
    pub w: int,
    pub h: int,
    pub sc: Seq<u8>,
    pub thr: u8,
    pub mask: Option<Seq<u8>>,
    pub inside: bool,
}

/// The view of an optional borrowed mask.
pub open spec fn mask_view(mask: Option<&[u8]>) -> Option<Seq<u8>> {
    match mask {
        Some(m) => Some(m@),
        None => None,
    }
}

/// Whether the mask gate admits pixel `(x, y)`: with no mask, always;
/// with a mask, the pixel's mask byte must be nonzero (`inside`) or zero
/// or absent (`!inside`). Pixels beyond the mask's bytes count as not
/// selected.
pub open spec fn gate_ok(mask: Option<Seq<u8>>, inside: bool, w: int, x: int, y: int) -> bool {
    match mask {
        None => true,
        Some(m) => {
            let sel = 0 <= pix(w, x, y) < m.len() && m[pix(w, x, y)] != 0;
            if inside {
                sel
            } else {
                !sel
            }
        },
    }
}

/// Whether the fill may spread to pixel `(x, y)`: it lies in the grid,
/// its original color matches the start color within the threshold, and
/// the mask gate admits it.
pub open spec fn can_fill(env: FillEnv, x: int, y: int) -> bool {
    &&& in_grid(env.w, env.h, x, y)
    &&& color_close(pixel_of(env.data, env.w, x, y), env.sc, env.thr)
    &&& gate_ok(env.mask, env.inside, env.w, x, y)
}

/// 4-connectivity of two pixel coordinates.
pub open spec fn adjacent(x1: int, y1: int, x2: int, y2: int) -> bool {
    ||| (x2 == x1 + 1 && y2 == y1)
    ||| (x2 == x1 - 1 && y2 == y1)
    ||| (x2 == x1 && y2 == y1 + 1)
    ||| (x2 == x1 && y2 == y1 - 1)
}

/// A path witnessing that the fill spreads from `(sx, sy)`: it starts
/// there, every step is 4-connected, and every pixel on it is fillable.
pub open spec fn path_ok(env: FillEnv, sx: int, sy: int, path: Seq<(int, int)>) -> bool {
    &&& path.len() > 0
    &&& path[0] == (sx, sy)
    &&& (forall|k: int| 0 <= k < path.len() ==> can_fill(env, #[trigger] path[k].0, path[k].1))
    &&& (forall|k: int|
        1 <= k < path.len() ==> adjacent(path[k - 1].0, path[k - 1].1, #[trigger] path[k].0, path[k].1))
}

/// Whether the fill region spreading from `(sx, sy)` contains `(x, y)`:
/// some 4-connected path of fillable pixels joins them.
pub open spec fn reaches(env: FillEnv, sx: int, sy: int, x: int, y: int) -> bool {
    exists|path: Seq<(int, int)>| path_ok(env, sx, sy, path) && path.last() == (x, y)
}

/// The whole contract of one flood fill against the buffer bytes before
/// the call: the fill reports a change exactly when the start pixel is in
/// bounds, differs from the fill color, and passes the mask gate. When it
/// does, exactly the pixels the fill region reaches take the fill color:
/// every reached pixel is recolored, and every byte that changes belongs
/// to a reached pixel. When it does not, nothing moves. Pixels not
/// 4-connected to the start through matching, gate-admitted pixels are
/// never touched.
pub open spec fn flood_fill_spec(
    old_data: Seq<u8>,
    new_data: Seq<u8>,
    changed: bool,
    w: int,
    h: int,
    sx: int,
    sy: int,
    fc: Seq<u8>,
    thr: u8,
    mask: Option<Seq<u8>>,
    inside: bool,
) -> bool {
    let env = FillEnv { data: old_data, w, h, sc: pixel_of(old_data, w, sx, sy), thr, mask, inside };
    &&& changed == (in_grid(w, h, sx, sy) && pixel_of(old_data, w, sx, sy) != fc && gate_ok(
        mask,
        inside,
        w,
        sx,
        sy,
    ))
    &&& (changed ==> new_data.len() == old_data.len() && pixel_of(new_data, w, sx, sy) == fc && (
    forall|i: int|
        0 <= i < new_data.len() ==> new_data[i] == old_data[i] || (reaches(
            env,
            sx,
            sy,
            (i / 4) % w,
            (i / 4) / w,
        ) && new_data[i] == fc[i % 4])))
    &&& (changed ==> forall|x: int, y: int|
        reaches(env, sx, sy, x, y) ==> pixel_of(new_data, w, x, y) == fc)
    &&& (!changed ==> new_data == old_data)
}

/// Whether some stack entry is the pixel `(x, y)`.
pub open spec fn stack_has(st: Seq<(u32, u32)>, x: int, y: int) -> bool {
    exists|k: int| 0 <= k < st.len() && (#[trigger] st[k]).0 == x && st[k].1 == y
}

/// One neighbor obligation of the fill frontier: the pixel at `(x, y)`
/// is out of the grid, not fillable, already recolored, or waiting on the
/// work stack.
pub open spec fn neighbor_ok(
    env: FillEnv,
    visited: Seq<bool>,
    st: Seq<(u32, u32)>,
    x: int,
    y: int,
) -> bool {
    ||| !in_grid(env.w, env.h, x, y)
    ||| !can_fill(env, x, y)
    ||| visited[pix(env.w, x, y)]
    ||| stack_has(st, x, y)
}

/// The fill frontier is covered: every 4-connected neighbor of every
/// recolored pixel is itself recolored, unfillable, or on the stack.
/// With an empty stack this makes the recolored set closed under fill
/// steps.
pub open spec fn frontier_ok(env: FillEnv, visited: Seq<bool>, st: Seq<(u32, u32)>) -> bool {
    forall|x: int, y: int|
        in_grid(env.w, env.h, x, y) && visited[#[trigger] pix(env.w, x, y)] ==> neighbor_ok(
            env,
            visited,
            st,
            x + 1,
            y,
        ) && neighbor_ok(env, visited, st, x - 1, y) && neighbor_ok(env, visited, st, x, y + 1)
            && neighbor_ok(env, visited, st, x, y - 1)
}

/// The number of `false` entries of a bitset.
pub closed spec fn count_false(v: Seq<bool>) -> nat
    decreases v.len(),
{
    if v.len() == 0 {
        0
    } else {
        count_false(v.drop_last()) + if v.last() {
            0nat
        } else {
            1nat
        }
    }
}

/// Setting one `false` entry to `true` strictly lowers `count_false`.
proof fn lemma_count_false_update(v: Seq<bool>, p: int)
    requires
        0 <= p < v.len(),
        !v[p],
    ensures
        count_false(v.update(p, true)) < count_false(v),
    decreases v.len(),
{
    let u = v.update(p, true);
    if p == v.len() - 1 {
        assert(u.drop_last() =~= v.drop_last());
    } else {
        assert(u.drop_last() =~= v.drop_last().update(p, true));
        lemma_count_false_update(v.drop_last(), p);
    }
}

/// A fillable start pixel reaches itself.
proof fn lemma_reach_self(env: FillEnv, sx: int, sy: int)
    requires
        can_fill(env, sx, sy),
    ensures
        reaches(env, sx, sy, sx, sy),
{
    let path = seq![(sx, sy)];
    assert(path_ok(env, sx, sy, path));
    assert(path.last() == (sx, sy));
}

/// The fill region is closed under one 4-connected step to a fillable
/// pixel.
proof fn lemma_reach_step(env: FillEnv, sx: int, sy: int, x1: int, y1: int, x2: int, y2: int)
    requires
        reaches(env, sx, sy, x1, y1),
        adjacent(x1, y1, x2, y2),
        can_fill(env, x2, y2),
    ensures
        reaches(env, sx, sy, x2, y2),
{
    let path = choose|path: Seq<(int, int)>| path_ok(env, sx, sy, path) && path.last() == (x1, y1);
    let p2 = path.push((x2, y2));
    assert(p2.last() == (x2, y2));
    assert forall|k: int| 0 <= k < p2.len() implies can_fill(env, #[trigger] p2[k].0, p2[k].1) by {
        if k < path.len() {
            assert(p2[k] == path[k]);
        }
    }
    assert forall|k: int|
        1 <= k < p2.len() implies adjacent(p2[k - 1].0, p2[k - 1].1, #[trigger] p2[k].0, p2[k].1) by {
        if k < path.len() {
            assert(p2[k] == path[k]);
            assert(p2[k - 1] == path[k - 1]);
        } else {
            assert(p2[k - 1] == path[path.len() - 1]);
        }
    }
    assert(path_ok(env, sx, sy, p2));
}

/// While the fill runs, an unvisited pixel still holds its original
/// bytes.
proof fn lemma_pixel_unvisited_eq(
    env: FillEnv,
    data: Seq<u8>,
    visited: Seq<bool>,
    fcv: Seq<u8>,
    x: int,
    y: int,
)
    requires
        env.data.len() == env.w * env.h * 4,
        data.len() == env.data.len(),
        visited.len() == env.w * env.h,
        in_grid(env.w, env.h, x, y),
        !visited[pix(env.w, x, y)],
        forall|i: int|
            0 <= i < data.len() ==> data[i] == (if visited[i / 4] {
                fcv[i % 4]
            } else {
                env.data[i]
            }),
    ensures
        pixel_of(data, env.w, x, y) == pixel_of(env.data, env.w, x, y),
{
    lemma_pix_bounds(env.w, env.h, x, y);
    lemma_mul4_mod(pix(env.w, x, y), 0);
    lemma_mul4_mod(pix(env.w, x, y), 1);
    lemma_mul4_mod(pix(env.w, x, y), 2);
    lemma_mul4_mod(pix(env.w, x, y), 3);
    assert(pixel_of(data, env.w, x, y) =~= pixel_of(env.data, env.w, x, y));
}

/// The pixel `(x, y)` of `data`, read as four bytes.
fn read_pixel_at(data: &Vec<u8>, w: u32, h: u32, x: u32, y: u32) -> (r: [u8; 4])
    requires
        data@.len() == px_len(w as int, h as int),
        in_grid(w as int, h as int, x as int, y as int),
    ensures
        r@ == pixel_of(data@, w as int, x as int, y as int),
{
    proof {
        vstd::std_specs::vec::axiom_spec_len(data);
        lemma_pix_bounds(w as int, h as int, x as int, y as int);
    }
    let idx = (y as usize * w as usize + x as usize) * 4;
    let r = [data[idx], data[idx + 1], data[idx + 2], data[idx + 3]];
    proof {
        assert(r@ =~= pixel_of(data@, w as int, x as int, y as int));
    }
    r
}

/// Overwrites the pixel `(x, y)` of `data` with `c`.
fn write_pixel_at(data: &mut Vec<u8>, w: u32, h: u32, x: u32, y: u32, c: &[u8; 4])
    requires
        old(data)@.len() == px_len(w as int, h as int),
        in_grid(w as int, h as int, x as int, y as int),
    ensures
        final(data)@ == put_pixel(old(data)@, w as int, x as int, y as int, c@),
{
    proof {
        vstd::std_specs::vec::axiom_spec_len(data);
        lemma_pix_bounds(w as int, h as int, x as int, y as int);
    }
    let idx = (y as usize * w as usize + x as usize) * 4;
    data[idx] = c[0];
    data[idx + 1] = c[1];
    data[idx + 2] = c[2];
    data[idx + 3] = c[3];
}

/// Whether the fill may spread to `(x, y)`, judged on the current bytes:
/// the pixel's color matches the start color and the mask gate admits it.
fn can_fill_exec(
    data: &Vec<u8>,
    w: u32,
    h: u32,
    start_color: &[u8; 4],
    threshold: u8,
    mask: Option<&[u8]>,
    inside: bool,
    x: u32,
    y: u32,
) -> (r: bool)
    requires
        data@.len() == px_len(w as int, h as int),
        in_grid(w as int, h as int, x as int, y as int),
    ensures
        r == (color_close(pixel_of(data@, w as int, x as int, y as int), start_color@, threshold)
            && gate_ok(mask_view(mask), inside, w as int, x as int, y as int)),
{
    let pxl = read_pixel_at(data, w, h, x, y);
    if !colors_match(&pxl, start_color, threshold) {
        return false;
    }
    match mask {
        None => true,
        Some(m) => {
            proof {
                lemma_pix_bounds(w as int, h as int, x as int, y as int);
                vstd::std_specs::vec::axiom_spec_len(data);
            }
            let p = y as usize * w as usize + x as usize;
            let sel = p < m.len() && *vstd::slice::slice_index_get(m, p) != 0;
            if inside {
                sel
            } else {
                !sel
            }
        },
    }
}

/// A pushed pixel stays on the stack when more pixels are pushed, and the
/// pushed pixel itself is on the result.
proof fn lemma_push_keeps(st: Seq<(u32, u32)>, e: (u32, u32))
    ensures
        stack_has(st.push(e), e.0 as int, e.1 as int),
        forall|qx: int, qy: int| stack_has(st, qx, qy) ==> stack_has(st.push(e), qx, qy),
{
    assert(st.push(e)[st.len() as int] == e);
    assert forall|qx: int, qy: int| stack_has(st, qx, qy) implies stack_has(
        st.push(e),
        qx,
        qy,
    ) by {
        let k = choose|k: int| 0 <= k < st.len() && (#[trigger] st[k]).0 == qx && st[k].1 == qy;
        assert(st.push(e)[k] == st[k]);
    }
}


/// A covered neighbor obligation survives a pop: the popped pixel is by
/// then recolored or known unfillable, the recolored set only grows, and
/// the stack keeps every other entry.
proof fn lemma_neighbor_lift(
    env: FillEnv,
    old_v: Seq<bool>,
    new_v: Seq<bool>,
    old_st: Seq<(u32, u32)>,
    new_st: Seq<(u32, u32)>,
    x: u32,
    y: u32,
    nx: int,
    ny: int,
)
    requires
        old_v.len() == env.w * env.h,
        new_v.len() == old_v.len(),
        forall|q: int| 0 <= q < old_v.len() && old_v[q] ==> new_v[q],
        old_st.len() <= new_st.len(),
        forall|k: int| 0 <= k < old_st.len() ==> new_st[k] == old_st[k],
        in_grid(env.w, env.h, x as int, y as int),
        new_v[pix(env.w, x as int, y as int)] || !can_fill(env, x as int, y as int),
        neighbor_ok(env, old_v, old_st.push((x, y)), nx, ny),
    ensures
        neighbor_ok(env, new_v, new_st, nx, ny),
{
    if in_grid(env.w, env.h, nx, ny) && can_fill(env, nx, ny) {
        lemma_pix_bounds(env.w, env.h, nx, ny);
        let pre = old_st.push((x, y));
        if old_v[pix(env.w, nx, ny)] {
        } else if stack_has(pre, nx, ny) {
            let k = choose|k: int|
                0 <= k < pre.len() && (#[trigger] pre[k]).0 == nx && pre[k].1 == ny;
            if k < old_st.len() {
                assert(new_st[k] == old_st[k]);
                assert(pre[k] == old_st[k]);
                assert(stack_has(new_st, nx, ny));
            } else {
                assert(pre[k] == (x, y));
                assert(nx == x as int && ny == y as int);
            }
        }
    }
}

/// With an empty stack, a covered frontier makes the recolored set closed
/// under 4-connected steps to fillable pixels, so it contains the end of
/// every fill path.
proof fn lemma_reach_closed(
    env: FillEnv,
    sx: int,
    sy: int,
    visited: Seq<bool>,
    st: Seq<(u32, u32)>,
    path: Seq<(int, int)>,
)
    requires
        visited.len() == env.w * env.h,
        in_grid(env.w, env.h, sx, sy),
        visited[pix(env.w, sx, sy)],
        st.len() == 0,
        frontier_ok(env, visited, st),
        path_ok(env, sx, sy, path),
    ensures
        visited[pix(env.w, path.last().0, path.last().1)],
    decreases path.len(),
{
    let n = path.len() as int;
    if n == 1 {
        assert(path.last() == (sx, sy));
    } else {
        let prefix = path.drop_last();
        assert(prefix.len() == n - 1);
        assert forall|k: int| 0 <= k < prefix.len() implies can_fill(
            env,
            #[trigger] prefix[k].0,
            prefix[k].1,
        ) by {
            assert(prefix[k] == path[k]);
        }
        assert forall|k: int|
            1 <= k < prefix.len() implies adjacent(
            prefix[k - 1].0,
            prefix[k - 1].1,
            #[trigger] prefix[k].0,
            prefix[k].1,
        ) by {
            assert(prefix[k] == path[k]);
            assert(prefix[k - 1] == path[k - 1]);
        }
        assert(path_ok(env, sx, sy, prefix));
        lemma_reach_closed(env, sx, sy, visited, st, prefix);
        let a = path[n - 2];
        let b = path[n - 1];
        assert(prefix.last() == a);
        assert(can_fill(env, a.0, a.1));
        assert(can_fill(env, b.0, b.1));
        assert(adjacent(a.0, a.1, b.0, b.1));
        assert(visited[pix(env.w, a.0, a.1)]);
        lemma_pix_bounds(env.w, env.h, b.0, b.1);
        assert(neighbor_ok(env, visited, st, b.0, b.1));
        assert(!stack_has(st, b.0, b.1));
        assert(visited[pix(env.w, b.0, b.1)]);
    }
}

/// Recolors one popped pixel, already known to be unvisited and fillable,
/// and pushes its 4-connected in-bounds neighbors; every loop invariant
/// of the fill survives and the unvisited count strictly shrinks.
#[verifier::loop_isolation(false)]
#[verifier::rlimit(100)]
#[verifier::spinoff_prover]
fn flood_step(
    data: &mut Vec<u8>,
    visited: &mut Vec<bool>,
    stack: &mut Vec<(u32, u32)>,
    width: u32,
    height: u32,
    start_color: &[u8; 4],
    fc: &[u8; 4],
    threshold: u8,
    mask: Option<&[u8]>,
    inside: bool,
    x: u32,
    y: u32,
    Ghost(env): Ghost<FillEnv>,
    Ghost(sxi): Ghost<int>,
    Ghost(syi): Ghost<int>,
)
    requires
        env.w == width as int,
        env.h == height as int,
        env.sc == start_color@,
        env.thr == threshold,
        env.mask == mask_view(mask),
        env.inside == inside,
        env.data.len() == env.w * env.h * 4,
        env.w * env.h <= usize::MAX,
        old(data)@.len() == env.data.len(),
        old(visited)@.len() == env.w * env.h,
        in_grid(env.w, env.h, x as int, y as int),
        can_fill(env, x as int, y as int),
        reaches(env, sxi, syi, x as int, y as int),
        !old(visited)@[pix(env.w, x as int, y as int)],
        forall|i: int|
            0 <= i < old(data)@.len() ==> old(data)@[i] == (if old(visited)@[i / 4] {
                fc@[i % 4]
            } else {
                env.data[i]
            }),
        forall|q: int|
            0 <= q < old(visited)@.len() && old(visited)@[q] ==> reaches(
                env,
                sxi,
                syi,
                q % env.w,
                q / env.w,
            ),
        forall|k: int|
            0 <= k < old(stack)@.len() ==> in_grid(
                env.w,
                env.h,
                (#[trigger] old(stack)@[k]).0 as int,
                old(stack)@[k].1 as int,
            ) && (can_fill(env, old(stack)@[k].0 as int, old(stack)@[k].1 as int) ==> reaches(
                env,
                sxi,
                syi,
                old(stack)@[k].0 as int,
                old(stack)@[k].1 as int,
            )),
        frontier_ok(env, old(visited)@, old(stack)@.push((x, y))),
    ensures
        final(data)@.len() == old(data)@.len(),
        final(visited)@.len() == old(visited)@.len(),
        count_false(final(visited)@) < count_false(old(visited)@),
        final(visited)@[pix(env.w, x as int, y as int)],
        forall|i: int|
            0 <= i < final(data)@.len() ==> final(data)@[i] == (if final(visited)@[i / 4] {
                fc@[i % 4]
            } else {
                env.data[i]
            }),
        forall|q: int|
            0 <= q < final(visited)@.len() && final(visited)@[q] ==> reaches(
                env,
                sxi,
                syi,
                q % env.w,
                q / env.w,
            ),
        forall|k: int|
            0 <= k < final(stack)@.len() ==> in_grid(
                env.w,
                env.h,
                (#[trigger] final(stack)@[k]).0 as int,
                final(stack)@[k].1 as int,
            ) && (can_fill(env, final(stack)@[k].0 as int, final(stack)@[k].1 as int) ==> reaches(
                env,
                sxi,
                syi,
                final(stack)@[k].0 as int,
                final(stack)@[k].1 as int,
            )),
        forall|q: int|
            0 <= q < old(visited)@.len() && old(visited)@[q] ==> final(visited)@[q],
        old(stack)@.len() <= final(stack)@.len(),
        forall|k: int| 0 <= k < old(stack)@.len() ==> final(stack)@[k] == old(stack)@[k],
        frontier_ok(env, final(visited)@, final(stack)@),
{
    let w = width;
    let h = height;
    let ghost fcv = fc@;
    let ghost pre_stack = stack@;
    proof {
        lemma_pix_bounds(env.w, env.h, x as int, y as int);
    }
    let p = y as usize * w as usize + x as usize;
    proof {
        assert(p as int == pix(env.w, x as int, y as int));
    }
    let ghost prev_data = data@;
    let ghost prev_visited = visited@;
    write_pixel_at(data, w, h, x, y, &fc);
    visited[p] = true;
    proof {
        lemma_count_false_update(prev_visited, p as int);
        lemma_pix_div_mod(env.w, x as int, y as int);
        lemma_mul4_mod(p as int, 0);
        lemma_mul4_mod(p as int, 1);
        lemma_mul4_mod(p as int, 2);
        lemma_mul4_mod(p as int, 3);
        assert forall|i: int|
            0 <= i < data@.len() implies data@[i] == (if visited@[i / 4] {
            fcv[i % 4]
        } else {
            env.data[i]
        }) by {
            lemma_grid_coords(i, env.w, env.h);
            if byte_at(env.w, x as int, y as int) <= i < byte_at(env.w, x as int, y as int)
                + 4 {
                assert(i / 4 == p as int);
            } else {
                assert(data@[i] == prev_data[i]);
                if i / 4 == p as int {
                    assert(i == (i / 4) * 4 + i % 4);
                    assert(byte_at(env.w, x as int, y as int) == p as int * 4);
                    assert(false);
                }
            }
        }
    }
    // push the 4-connected in-bounds neighbors; matching is judged
    // when they are popped
    if x > 0 {
        let ghost st0 = stack@;
        stack.push((x - 1, y));
        proof {
            lemma_push_keeps(st0, ((x - 1) as u32, y));
            if can_fill(env, x as int - 1, y as int) {
                lemma_reach_step(env, sxi, syi, x as int, y as int, x as int - 1, y as int);
            }
        }
    }
    if x + 1 < w {
        let ghost st0 = stack@;
        stack.push((x + 1, y));
        proof {
            lemma_push_keeps(st0, ((x + 1) as u32, y));
            if can_fill(env, x as int + 1, y as int) {
                lemma_reach_step(env, sxi, syi, x as int, y as int, x as int + 1, y as int);
            }
        }
    }
    if y > 0 {
        let ghost st0 = stack@;
        stack.push((x, y - 1));
        proof {
            lemma_push_keeps(st0, (x, (y - 1) as u32));
            if can_fill(env, x as int, y as int - 1) {
                lemma_reach_step(env, sxi, syi, x as int, y as int, x as int, y as int - 1);
            }
        }
    }
    if y + 1 < h {
        let ghost st0 = stack@;
        stack.push((x, y + 1));
        proof {
            lemma_push_keeps(st0, (x, (y + 1) as u32));
            if can_fill(env, x as int, y as int + 1) {
                lemma_reach_step(env, sxi, syi, x as int, y as int, x as int, y as int + 1);
            }
        }
    }
    proof {
        // the recolored pixel's in-grid neighbors are all on the stack now
        assert(neighbor_ok(env, visited@, stack@, x as int + 1, y as int)) by {
            if x as int + 1 < env.w {
                assert(stack_has(stack@, x as int + 1, y as int));
            }
        }
        assert(neighbor_ok(env, visited@, stack@, x as int - 1, y as int)) by {
            if x > 0 {
                assert(stack_has(stack@, x as int - 1, y as int));
            }
        }
        assert(neighbor_ok(env, visited@, stack@, x as int, y as int + 1)) by {
            if y as int + 1 < env.h {
                assert(stack_has(stack@, x as int, y as int + 1));
            }
        }
        assert(neighbor_ok(env, visited@, stack@, x as int, y as int - 1)) by {
            if y > 0 {
                assert(stack_has(stack@, x as int, y as int - 1));
            }
        }
        // every earlier recolored pixel keeps its covered frontier
        assert forall|qx: int, qy: int|
            in_grid(env.w, env.h, qx, qy) && visited@[#[trigger] pix(env.w, qx, qy)] implies
            neighbor_ok(env, visited@, stack@, qx + 1, qy) && neighbor_ok(
            env,
            visited@,
            stack@,
            qx - 1,
            qy,
        ) && neighbor_ok(env, visited@, stack@, qx, qy + 1) && neighbor_ok(
            env,
            visited@,
            stack@,
            qx,
            qy - 1,
        ) by {
            if !(qx == x as int && qy == y as int) {
                lemma_pix_bounds(env.w, env.h, qx, qy);
                lemma_pix_div_mod(env.w, qx, qy);
                assert(pix(env.w, qx, qy) != p as int);
                assert(prev_visited[pix(env.w, qx, qy)]);
                lemma_neighbor_lift(
                    env,
                    prev_visited,
                    visited@,
                    pre_stack,
                    stack@,
                    x,
                    y,
                    qx + 1,
                    qy,
                );
                lemma_neighbor_lift(
                    env,
                    prev_visited,
                    visited@,
                    pre_stack,
                    stack@,
                    x,
                    y,
                    qx - 1,
                    qy,
                );
                lemma_neighbor_lift(
                    env,
                    prev_visited,
                    visited@,
                    pre_stack,
                    stack@,
                    x,
                    y,
                    qx,
                    qy + 1,
                );
                lemma_neighbor_lift(
                    env,
                    prev_visited,
                    visited@,
                    pre_stack,
                    stack@,
                    x,
                    y,
                    qx,
                    qy - 1,
                );
            }
        }
    }
}

/// Flood-fills `data` (a `width x height` RGBA buffer) from the start
/// pixel with the fill color, spreading across 4-connected pixels whose
/// color matches the start pixel's within `threshold`, gated by the
/// optional mask. Returns whether anything was recolored.
#[verifier::loop_isolation(false)]
#[verifier::rlimit(100)]
#[verifier::spinoff_prover]
fn flood_core(
    data: &mut Vec<u8>,
    width: u32,
    height: u32,
    start_x: u32,
    start_y: u32,
    fill_r: u8,
    fill_g: u8,
    fill_b: u8,
    fill_a: u8,
    threshold: u8,
    mask: Option<&[u8]>,
    inside: bool,
) -> (changed: bool)
    requires
        old(data)@.len() == px_len(width as int, height as int),
    ensures
        final(data)@.len() == old(data)@.len(),
        flood_fill_spec(
            old(data)@,
            final(data)@,
            changed,
            width as int,
            height as int,
            start_x as int,
            start_y as int,
            seq![fill_r, fill_g, fill_b, fill_a],
            threshold,
            mask_view(mask),
            inside,
        ),
{
    let w = width;
    let h = height;
    if !(start_x < w && start_y < h) {
        return false;
    }
    let start_color = read_pixel_at(data, w, h, start_x, start_y);
    let fc = [fill_r, fill_g, fill_b, fill_a];
    let same = start_color[0] == fc[0] && start_color[1] == fc[1] && start_color[2] == fc[2]
        && start_color[3] == fc[3];
    proof {
        if same {
            assert(start_color@ =~= fc@);
        } else {
            assert(start_color@ != fc@);
        }
        assert(fc@ =~= seq![fill_r, fill_g, fill_b, fill_a]);
    }
    if same {
        return false;
    }
    if !can_fill_exec(data, w, h, &start_color, threshold, mask, inside, start_x, start_y) {
        return false;
    }
    // binds the byte length so its usize bound is in scope for the
    // pixel-count overflow proof below
    let n_bytes = data.len();
    let ghost env = FillEnv {
        data: data@,
        w: w as int,
        h: h as int,
        sc: start_color@,
        thr: threshold,
        mask: mask_view(mask),
        inside,
    };
    let ghost fcv = fc@;
    let ghost sxi = start_x as int;
    let ghost syi = start_y as int;
    proof {
        lemma_pix_bounds(w as int, h as int, sxi, syi);
        assert(w as int * h as int * 4 == data@.len());
        assert(w as int * h as int <= usize::MAX) by (nonlinear_arith)
            requires
                w as int * h as int * 4 <= usize::MAX,
                w as int >= 0,
                h as int >= 0,
        ;
        assert(can_fill(env, sxi, syi));
        lemma_reach_self(env, sxi, syi);
    }
    let px_count = w as usize * h as usize;
    let mut visited: Vec<bool> = vec![false; px_count];
    proof {
        assert forall|q: int| 0 <= q < visited@.len() implies visited@[q] == false by {
            assert(cloned(false, visited@[q]));
        }
        assert forall|x1: int, y1: int| in_grid(env.w, env.h, x1, y1) implies !visited@[pix(
            env.w,
            x1,
            y1,
        )] by {
            lemma_pix_bounds(env.w, env.h, x1, y1);
        }
    }
    let mut stack: Vec<(u32, u32)> = Vec::new();
    stack.push((start_x, start_y));
    proof {
        assert(stack@[0] == (start_x, start_y));
        assert(stack_has(stack@, sxi, syi));
        assert forall|x1: int, y1: int|
            in_grid(env.w, env.h, x1, y1) && visited@[#[trigger] pix(env.w, x1, y1)] implies
            neighbor_ok(env, visited@, stack@, x1 + 1, y1) && neighbor_ok(
            env,
            visited@,
            stack@,
            x1 - 1,
            y1,
        ) && neighbor_ok(env, visited@, stack@, x1, y1 + 1) && neighbor_ok(
            env,
            visited@,
            stack@,
            x1,
            y1 - 1,
        ) by {
            assert(!visited@[pix(env.w, x1, y1)]);
        }
        assert(frontier_ok(env, visited@, stack@));
    }
    #[verifier::loop_isolation(true)]
    while stack.len() > 0
        invariant
            env == (FillEnv {
                data: old(data)@,
                w: width as int,
                h: height as int,
                sc: start_color@,
                thr: threshold,
                mask: mask_view(mask),
                inside,
            }),
            fcv == fc@,
            fcv == seq![fill_r, fill_g, fill_b, fill_a],
            sxi == start_x as int,
            syi == start_y as int,
            w == width,
            h == height,
            in_grid(env.w, env.h, sxi, syi),
            can_fill(env, sxi, syi),
            env.data.len() == env.w * env.h * 4,
            env.w * env.h <= usize::MAX,
            data@.len() == env.data.len(),
            visited@.len() == env.w * env.h,
            forall|i: int|
                0 <= i < data@.len() ==> data@[i] == (if visited@[i / 4] {
                    fcv[i % 4]
                } else {
                    env.data[i]
                }),
            forall|q: int|
                0 <= q < visited@.len() && visited@[q] ==> reaches(
                    env,
                    sxi,
                    syi,
                    q % env.w,
                    q / env.w,
                ),
            forall|k: int|
                0 <= k < stack@.len() ==> in_grid(
                    env.w,
                    env.h,
                    (#[trigger] stack@[k]).0 as int,
                    stack@[k].1 as int,
                ) && (can_fill(env, stack@[k].0 as int, stack@[k].1 as int) ==> reaches(
                    env,
                    sxi,
                    syi,
                    stack@[k].0 as int,
                    stack@[k].1 as int,
                )),
            frontier_ok(env, visited@, stack@),
            visited@[pix(env.w, sxi, syi)] || stack_has(stack@, sxi, syi),
        decreases count_false(visited@), stack@.len(),
    {
        let ghost top_stack = stack@;
        let (x, y) = match stack.pop() {
            Some(t) => t,
            None => {
                proof {
                    assert(false);
                }
                (0u32, 0u32)
            },
        };
        let ghost popped_stack = stack@;
        let ghost pre_stack = popped_stack.push((x, y));
        proof {
            assert(pre_stack =~= top_stack);
            assert(in_grid(env.w, env.h, x as int, y as int));
            lemma_pix_bounds(w as int, h as int, x as int, y as int);
        }
        let p = y as usize * w as usize + x as usize;
        proof {
            assert(p as int == pix(env.w, x as int, y as int));
            assert forall|x2: int, y2: int|
                stack_has(pre_stack, x2, y2) && !(x2 == x as int && y2 == y as int) implies
                stack_has(popped_stack, x2, y2) by {
                let k = choose|k: int|
                    0 <= k < pre_stack.len() && (#[trigger] pre_stack[k]).0 == x2
                        && pre_stack[k].1 == y2;
                if k < popped_stack.len() {
                    assert(popped_stack[k] == pre_stack[k]);
                } else {
                    assert(pre_stack[k] == (x, y));
                }
            }
        }
        if visited[p] {
            proof {
                if !visited@[pix(env.w, sxi, syi)] && !(sxi == x as int && syi == y as int) {
                    assert(stack_has(pre_stack, sxi, syi));
                    assert(stack_has(popped_stack, sxi, syi));
                }
                assert(frontier_ok(env, visited@, pre_stack));
                lemma_frontier_after_pop(env, visited@, popped_stack, x, y);
            }
            continue ;
        }
        proof {
            lemma_pixel_unvisited_eq(env, data@, visited@, fcv, x as int, y as int);
        }
        if !can_fill_exec(data, w, h, &start_color, threshold, mask, inside, x, y) {
            proof {
                // the popped pixel cannot be the start, which is fillable
                assert(!can_fill(env, x as int, y as int));
                assert(!(sxi == x as int && syi == y as int));
                if !visited@[pix(env.w, sxi, syi)] {
                    assert(stack_has(pre_stack, sxi, syi));
                    assert(stack_has(popped_stack, sxi, syi));
                }
                assert(frontier_ok(env, visited@, pre_stack));
                lemma_frontier_after_pop(env, visited@, popped_stack, x, y);
            }
            continue ;
        }
        proof {
            assert(can_fill(env, x as int, y as int));
            assert(reaches(env, sxi, syi, x as int, y as int));
        }
        let ghost visited_before = visited@;
        let ghost stack_before = stack@;
        proof {
            assert(stack_before.push((x, y)) == pre_stack);
            assert(frontier_ok(env, visited@, stack_before.push((x, y))));
        }
        flood_step(
            data,
            &mut visited,
            &mut stack,
            width,
            height,
            &start_color,
            &fc,
            threshold,
            mask,
            inside,
            x,
            y,
            Ghost(env),
            Ghost(sxi),
            Ghost(syi),
        );
        proof {
            lemma_pix_bounds(env.w, env.h, sxi, syi);
            if !visited@[pix(env.w, sxi, syi)] {
                assert(!visited_before[pix(env.w, sxi, syi)]);
                assert(stack_has(pre_stack, sxi, syi));
                if sxi == x as int && syi == y as int {
                    assert(visited@[pix(env.w, sxi, syi)]);
                } else {
                    assert(stack_has(popped_stack, sxi, syi));
                    assert(popped_stack == stack_before);
                    lemma_stack_has_extends(stack_before, stack@, sxi, syi);
                }
            }
        }
    }
    proof {
        assert(visited@[pix(env.w, sxi, syi)]);
        lemma_pix_bounds(env.w, env.h, sxi, syi);
        lemma_pix_div_mod(env.w, sxi, syi);
        lemma_mul4_mod(pix(env.w, sxi, syi), 0);
        lemma_mul4_mod(pix(env.w, sxi, syi), 1);
        lemma_mul4_mod(pix(env.w, sxi, syi), 2);
        lemma_mul4_mod(pix(env.w, sxi, syi), 3);
        assert(pixel_of(data@, env.w, sxi, syi) =~= fcv);
        assert forall|i: int|
            0 <= i < data@.len() implies data@[i] == env.data[i] || (reaches(
            env,
            sxi,
            syi,
            (i / 4) % env.w,
            (i / 4) / env.w,
        ) && data@[i] == fcv[i % 4]) by {
            lemma_grid_coords(i, env.w, env.h);
            lemma_pix_div_mod(env.w, (i / 4) % env.w, (i / 4) / env.w);
            if visited@[i / 4] {
                assert(reaches(env, sxi, syi, (i / 4) % env.w, (i / 4) / env.w));
            }
        }
        // the frontier is covered and the stack is empty, so every
        // reached pixel was recolored
        assert forall|cx: int, cy: int|
            reaches(env, sxi, syi, cx, cy) implies pixel_of(data@, env.w, cx, cy) == fcv by {
            let path = choose|path: Seq<(int, int)>|
                path_ok(env, sxi, syi, path) && path.last() == (cx, cy);
            assert(can_fill(env, path[path.len() - 1].0, path[path.len() - 1].1));
            assert(in_grid(env.w, env.h, cx, cy));
            lemma_reach_closed(env, sxi, syi, visited@, stack@, path);
            lemma_pix_bounds(env.w, env.h, cx, cy);
            lemma_pix_div_mod(env.w, cx, cy);
            lemma_mul4_mod(pix(env.w, cx, cy), 0);
            lemma_mul4_mod(pix(env.w, cx, cy), 1);
            lemma_mul4_mod(pix(env.w, cx, cy), 2);
            lemma_mul4_mod(pix(env.w, cx, cy), 3);
            assert(pixel_of(data@, env.w, cx, cy) =~= fcv);
        }
    }
    true
}

/// A covered frontier survives popping one entry once that entry's pixel
/// is recolored or known unfillable.
proof fn lemma_frontier_after_pop(
    env: FillEnv,
    visited: Seq<bool>,
    popped: Seq<(u32, u32)>,
    x: u32,
    y: u32,
)
    requires
        visited.len() == env.w * env.h,
        in_grid(env.w, env.h, x as int, y as int),
        visited[pix(env.w, x as int, y as int)] || !can_fill(env, x as int, y as int),
        frontier_ok(env, visited, popped.push((x, y))),
    ensures
        frontier_ok(env, visited, popped),
{
    assert forall|qx: int, qy: int|
        in_grid(env.w, env.h, qx, qy) && visited[#[trigger] pix(env.w, qx, qy)] implies
        neighbor_ok(env, visited, popped, qx + 1, qy) && neighbor_ok(
        env,
        visited,
        popped,
        qx - 1,
        qy,
    ) && neighbor_ok(env, visited, popped, qx, qy + 1) && neighbor_ok(
        env,
        visited,
        popped,
        qx,
        qy - 1,
    ) by {
        lemma_neighbor_lift(env, visited, visited, popped, popped, x, y, qx + 1, qy);
        lemma_neighbor_lift(env, visited, visited, popped, popped, x, y, qx - 1, qy);
        lemma_neighbor_lift(env, visited, visited, popped, popped, x, y, qx, qy + 1);
        lemma_neighbor_lift(env, visited, visited, popped, popped, x, y, qx, qy - 1);
    }
}

/// An element of a stack prefix is still on a longer stack that extends
/// it element-for-element.
proof fn lemma_stack_has_extends(st: Seq<(u32, u32)>, st2: Seq<(u32, u32)>, qx: int, qy: int)
    requires
        st.len() <= st2.len(),
        forall|k: int| 0 <= k < st.len() ==> st2[k] == st[k],
        stack_has(st, qx, qy),
    ensures
        stack_has(st2, qx, qy),
{
    let k = choose|k: int| 0 <= k < st.len() && (#[trigger] st[k]).0 == qx && st[k].1 == qy;
    assert(st2[k] == st[k]);
}

/// Flood-fills a raw `width x height` RGBA byte buffer from the start
/// pixel with the fill color, spreading across 4-connected pixels whose
/// color matches the start pixel's within `threshold`.
pub fn scanline_flood_fill(
    data: &mut Vec<u8>,
    width: u32,
    height: u32,
    start_x: u32,
    start_y: u32,
    fill_color_r: u8,
    fill_color_g: u8,
    fill_color_b: u8,
    fill_color_a: u8,
    threshold: u8,
) -> (changed: bool)
    requires
        old(data)@.len() == px_len(width as int, height as int),
    ensures
        final(data)@.len() == old(data)@.len(),
        flood_fill_spec(
            old(data)@,
            final(data)@,
            changed,
            width as int,
            height as int,
            start_x as int,
            start_y as int,
            seq![fill_color_r, fill_color_g, fill_color_b, fill_color_a],
            threshold,
            None,
            true,
        ),
{
    flood_core(
        data,
        width,
        height,
        start_x,
        start_y,
        fill_color_r,
        fill_color_g,
        fill_color_b,
        fill_color_a,
        threshold,
        None,
        true,
    )
}

/// Flood fill gated by a selection mask, one byte per buffer pixel:
/// `limit_mode` "inside" lets the fill spread only across pixels whose
/// mask byte is nonzero, "outside" only across the others; any other
/// mode is a hard failure that touches nothing.
pub fn scanline_flood_fill_with_mask(
    data: &mut Vec<u8>,
    width: u32,
    height: u32,
    start_x: u32,
    start_y: u32,
    fill_color_r: u8,
    fill_color_g: u8,
    fill_color_b: u8,
    fill_color_a: u8,
    threshold: u8,
    selection_mask: &[u8],
    limit_mode: &str,
) -> (changed: bool)
    requires
        old(data)@.len() == px_len(width as int, height as int),
    ensures
        final(data)@.len() == old(data)@.len(),
        limit_mode@ == "inside"@ ==> flood_fill_spec(
            old(data)@,
            final(data)@,
            changed,
            width as int,
            height as int,
            start_x as int,
            start_y as int,
            seq![fill_color_r, fill_color_g, fill_color_b, fill_color_a],
            threshold,
            Some(selection_mask@),
            true,
        ),
        limit_mode@ == "outside"@ ==> flood_fill_spec(
            old(data)@,
            final(data)@,
            changed,
            width as int,
            height as int,
            start_x as int,
            start_y as int,
            seq![fill_color_r, fill_color_g, fill_color_b, fill_color_a],
            threshold,
            Some(selection_mask@),
            false,
        ),
        limit_mode@ != "inside"@ && limit_mode@ != "outside"@ ==> !changed && final(data)@ == old(
            data,
        )@,
{
    proof {
        reveal_strlit("inside");
        reveal_strlit("outside");
        assert("inside"@.len() == 6 && "outside"@.len() == 7);
        assert("inside"@ != "outside"@);
    }
    let mode = limit_mode.to_owned();
    let inside = mode == "inside".to_owned();
    let outside = mode == "outside".to_owned();
    if !inside && !outside {
        return false;
    }
    flood_core(
        data,
        width,
        height,
        start_x,
        start_y,
        fill_color_r,
        fill_color_g,
        fill_color_b,
        fill_color_a,
        threshold,
        Some(selection_mask),
        inside,
    )
}

impl RgbaBuffer {
    /// Flood-fills the buffer from the start pixel with the fill color,
    /// spreading across 4-connected pixels whose color matches the start
    /// pixel's within `threshold`. Returns whether anything changed; an
    /// out-of-bounds start or a start pixel already exactly equal to the
    /// fill color is a no-op.
    pub fn flood_fill(
        &mut self,
        start_x: u32,
        start_y: u32,
        fill_color_r: u8,
        fill_color_g: u8,
        fill_color_b: u8,
        fill_color_a: u8,
        threshold: u8,
    ) -> (changed: bool)
        requires
            old(self).wf(),
        ensures
            final(self).width == old(self).width,
            final(self).height == old(self).height,
            final(self).wf(),
            flood_fill_spec(
                old(self).data@,
                final(self).data@,
                changed,
                old(self).width as int,
                old(self).height as int,
                start_x as int,
                start_y as int,
                seq![fill_color_r, fill_color_g, fill_color_b, fill_color_a],
                threshold,
                None,
                true,
            ),
    {
        let width = self.width;
        let height = self.height;
        scanline_flood_fill(
            &mut self.data,
            width,
            height,
            start_x,
            start_y,
            fill_color_r,
            fill_color_g,
            fill_color_b,
            fill_color_a,
            threshold,
        )
    }

    /// Flood fill gated by a selection mask, one byte per buffer pixel:
    /// `limit_mode` "inside" spreads only across selected pixels,
    /// "outside" only across unselected ones; any other mode is a hard
    /// failure that touches nothing.
    pub fn flood_fill_with_mask(
        &mut self,
        start_x: u32,
        start_y: u32,
        fill_color_r: u8,
        fill_color_g: u8,
        fill_color_b: u8,
        fill_color_a: u8,
        threshold: u8,
        selection_mask: &[u8],
        limit_mode: &str,
    ) -> (changed: bool)
        requires
            old(self).wf(),
        ensures
            final(self).width == old(self).width,
            final(self).height == old(self).height,
            final(self).wf(),
            limit_mode@ == "inside"@ ==> flood_fill_spec(
                old(self).data@,
                final(self).data@,
                changed,
                old(self).width as int,
                old(self).height as int,
                start_x as int,
                start_y as int,
                seq![fill_color_r, fill_color_g, fill_color_b, fill_color_a],
                threshold,
                Some(selection_mask@),
                true,
            ),
            limit_mode@ == "outside"@ ==> flood_fill_spec(
                old(self).data@,
                final(self).data@,
                changed,
                old(self).width as int,
                old(self).height as int,
                start_x as int,
                start_y as int,
                seq![fill_color_r, fill_color_g, fill_color_b, fill_color_a],
                threshold,
                Some(selection_mask@),
                false,
            ),
            limit_mode@ != "inside"@ && limit_mode@ != "outside"@ ==> !changed && final(self).data@
                == old(self).data@,
    {
        let width = self.width;
        let height = self.height;
        scanline_flood_fill_with_mask(
            &mut self.data,
            width,
            height,
            start_x,
            start_y,
            fill_color_r,
            fill_color_g,
            fill_color_b,
            fill_color_a,
            threshold,
            selection_mask,
            limit_mode,
        )
    }
}

} // verus!
