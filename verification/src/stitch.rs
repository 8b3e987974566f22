use vstd::prelude::*;
use vstd::math::abs;
use crate::frac::{Frac, Rat, rat_le, rat_lt, lemma_rat_le_lt_trans};
use crate::geom::{GPoint, GVertex, MeshBuffer, Point2, tri_verts, vert_of};

verus! {

/// One of the four cardinal sweep directions of a seam.
#[derive(Clone, Copy, Debug, PartialEq, Eq, Structural)]
pub enum Dir {
    XPos,
    YPos,
    XNeg,
    YNeg,
}

/// The numerator of a point's coordinate along the swept axis.
pub open spec fn axis_num(dir: Dir, p: GPoint) -> int {
    match dir {
        Dir::XPos => p.x.num,
        Dir::XNeg => p.x.num,
        Dir::YPos => p.y.num,
        Dir::YNeg => p.y.num,
    }
}

/// The denominator of a point's coordinate along the swept axis.
pub open spec fn axis_den(dir: Dir, p: GPoint) -> int {
    match dir {
        Dir::XPos => p.x.den,
        Dir::XNeg => p.x.den,
        Dir::YPos => p.y.den,
        Dir::YNeg => p.y.den,
    }
}

/// The `k`-th point of a boundary: `start + dir * step * k`. The stepped
/// coordinate is kept over the start point's denominator, so `step` is
/// expected to share that denominator.
pub open spec fn pt_along(start: GPoint, dir: Dir, step: Rat, k: int) -> GPoint {
    match dir {
        Dir::XPos => GPoint {
            x: Rat { num: start.x.num + step.num * k, den: start.x.den },
            y: start.y,
        },
        Dir::XNeg => GPoint {
            x: Rat { num: start.x.num - step.num * k, den: start.x.den },
            y: start.y,
        },
        Dir::YPos => GPoint {
            x: start.x,
            y: Rat { num: start.y.num + step.num * k, den: start.y.den },
        },
        Dir::YNeg => GPoint {
            x: start.x,
            y: Rat { num: start.y.num - step.num * k, den: start.y.den },
        },
    }
}

/// The sweep key of a point: its coordinate along `dir` (the dot product
/// `dir . p`, which for a cardinal direction is one signed coordinate).
pub open spec fn proj(dir: Dir, p: GPoint) -> Rat {
    match dir {
        Dir::XPos => p.x,
        Dir::XNeg => Rat { num: -p.x.num, den: p.x.den },
        Dir::YPos => p.y,
        Dir::YNeg => Rat { num: -p.y.num, den: p.y.den },
    }
}

/// Whether the seam merge advances the outer boundary at state `(i, j)`:
/// either the inner boundary is exhausted, or the outer candidate's sweep key
/// has not passed the inner candidate's.
pub open spec fn advances_outer(
    a0: GPoint,
    da: Rat,
    na: int,
    b0: GPoint,
    db: Rat,
    nb: int,
    dir: Dir,
    i: int,
    j: int,
) -> bool {
    ||| j > nb
    ||| (i <= na && rat_le(
        proj(dir, pt_along(a0, dir, da, i)),
        proj(dir, pt_along(b0, dir, db, j)),
    ))
}

/// The vertices the seam merge emits from state `(i, j)` on: at each step one
/// triangle, using the previous and current outer points plus the previous
/// inner point when the outer side advances, and the previous outer point
/// plus the current and previous inner points when the inner side advances.
pub open spec fn stitch_verts(
    a0: GPoint,
    da: Rat,
    na: int,
    b0: GPoint,
    db: Rat,
    nb: int,
    dir: Dir,
    i: int,
    j: int,
) -> Seq<GVertex>
    decreases na + nb + 2 - i - j,
    when i <= na + 1 && j <= nb + 1
{
    if i > na && j > nb {
        Seq::empty()
    } else if advances_outer(a0, da, na, b0, db, nb, dir, i, j) {
        tri_verts(pt_along(a0, dir, da, i - 1), pt_along(a0, dir, da, i), pt_along(b0, dir, db, j - 1))
            + stitch_verts(a0, da, na, b0, db, nb, dir, i + 1, j)
    } else {
        tri_verts(pt_along(a0, dir, da, i - 1), pt_along(b0, dir, db, j), pt_along(b0, dir, db, j - 1))
            + stitch_verts(a0, da, na, b0, db, nb, dir, i, j + 1)
    }
}

/// The trace of the seam merge: the sequence of advances it makes from state
/// `(i, j)` on, `(true, k)` for the outer boundary's step `k` (the segment
/// from outer point `k-1` to `k`), `(false, k)` for the inner boundary's.
pub open spec fn stitch_trace(
    a0: GPoint,
    da: Rat,
    na: int,
    b0: GPoint,
    db: Rat,
    nb: int,
    dir: Dir,
    i: int,
    j: int,
) -> Seq<(bool, int)>
    decreases na + nb + 2 - i - j,
    when i <= na + 1 && j <= nb + 1
{
    if i > na && j > nb {
        Seq::empty()
    } else if advances_outer(a0, da, na, b0, db, nb, dir, i, j) {
        seq![(true, i)] + stitch_trace(a0, da, na, b0, db, nb, dir, i + 1, j)
    } else {
        seq![(false, j)] + stitch_trace(a0, da, na, b0, db, nb, dir, i, j + 1)
    }
}

/// The merge from state `(i, j)` emits exactly `(na + 1 - i) + (nb + 1 - j)`
/// triangles — in particular, a whole seam (`i = j = 1`) emits exactly
/// `na + nb` triangles, however the two step lengths differ.
pub proof fn lemma_stitch_verts_len(
    a0: GPoint,
    da: Rat,
    na: int,
    b0: GPoint,
    db: Rat,
    nb: int,
    dir: Dir,
    i: int,
    j: int,
)
    requires
        1 <= i <= na + 1,
        1 <= j <= nb + 1,
    ensures
        stitch_verts(a0, da, na, b0, db, nb, dir, i, j).len() == 3 * (na + 1 - i) + 3 * (nb + 1
            - j),
        stitch_trace(a0, da, na, b0, db, nb, dir, i, j).len() == (na + 1 - i) + (nb + 1 - j),
    decreases na + nb + 2 - i - j,
{
    if i > na && j > nb {
    } else if advances_outer(a0, da, na, b0, db, nb, dir, i, j) {
        lemma_stitch_verts_len(a0, da, na, b0, db, nb, dir, i + 1, j);
    } else {
        lemma_stitch_verts_len(a0, da, na, b0, db, nb, dir, i, j + 1);
    }
}

proof fn lemma_cons_contains<A>(x: A, s: Seq<A>, y: A)
    ensures
        (seq![x] + s).contains(y) <==> (y == x || s.contains(y)),
{
    let c = seq![x] + s;
    if c.contains(y) {
        let t = choose|t: int| 0 <= t < c.len() && c[t] == y;
        if t > 0 {
            assert(s[t - 1] == y);
        }
    }
    if y == x {
        assert(c[0] == y);
    }
    if s.contains(y) {
        let t = choose|t: int| 0 <= t < s.len() && s[t] == y;
        assert(c[t + 1] == y);
    }
}

/// Gap-freeness of a seam (combinatorial part): the merge's trace covers
/// every outer step in `[i, na]` and every inner step in `[j, nb]`, contains
/// no other step, and lists each side's steps in strictly increasing order —
/// so each boundary segment is advanced over exactly once.
pub proof fn lemma_stitch_trace_covers(
    a0: GPoint,
    da: Rat,
    na: int,
    b0: GPoint,
    db: Rat,
    nb: int,
    dir: Dir,
    i: int,
    j: int,
)
    requires
        1 <= i <= na + 1,
        1 <= j <= nb + 1,
    ensures
        forall|k: int| i <= k <= na ==> #[trigger] stitch_trace(a0, da, na, b0, db, nb, dir, i, j)
            .contains((true, k)),
        forall|k: int| j <= k <= nb ==> #[trigger] stitch_trace(a0, da, na, b0, db, nb, dir, i, j)
            .contains((false, k)),
        forall|t: int|
            0 <= t < stitch_trace(a0, da, na, b0, db, nb, dir, i, j).len() ==> {
                let step = #[trigger] stitch_trace(a0, da, na, b0, db, nb, dir, i, j)[t];
                if step.0 {
                    i <= step.1 <= na
                } else {
                    j <= step.1 <= nb
                }
            },
        forall|t1: int, t2: int|
            0 <= t1 < t2 < stitch_trace(a0, da, na, b0, db, nb, dir, i, j).len()
                && (#[trigger] stitch_trace(a0, da, na, b0, db, nb, dir, i, j)[t1]).0 == (
            #[trigger] stitch_trace(a0, da, na, b0, db, nb, dir, i, j)[t2]).0 ==> stitch_trace(
                a0,
                da,
                na,
                b0,
                db,
                nb,
                dir,
                i,
                j,
            )[t1].1 < stitch_trace(a0, da, na, b0, db, nb, dir, i, j)[t2].1,
    decreases na + nb + 2 - i - j,
{
    let tr = stitch_trace(a0, da, na, b0, db, nb, dir, i, j);
    if i > na && j > nb {
    } else {
        let adv = advances_outer(a0, da, na, b0, db, nb, dir, i, j);
        let head: (bool, int) = if adv { (true, i) } else { (false, j) };
        let i2 = if adv { i + 1 } else { i };
        let j2 = if adv { j } else { j + 1 };
        let rest = stitch_trace(a0, da, na, b0, db, nb, dir, i2, j2);
        lemma_stitch_trace_covers(a0, da, na, b0, db, nb, dir, i2, j2);
        assert(tr == seq![head] + rest);
        assert forall|k: int| i <= k <= na implies #[trigger] tr.contains((true, k)) by {
            lemma_cons_contains(head, rest, (true, k));
            if !(adv && k == i) {
                assert(rest.contains((true, k)));
            }
        }
        assert forall|k: int| j <= k <= nb implies #[trigger] tr.contains((false, k)) by {
            lemma_cons_contains(head, rest, (false, k));
            if !(!adv && k == j) {
                assert(rest.contains((false, k)));
            }
        }
        assert forall|t: int| 0 <= t < tr.len() implies {
            let step = #[trigger] tr[t];
            if step.0 {
                i <= step.1 <= na
            } else {
                j <= step.1 <= nb
            }
        } by {
            if t > 0 {
                assert(tr[t] == rest[t - 1]);
            }
        }
        assert forall|t1: int, t2: int|
            0 <= t1 < t2 < tr.len() && (#[trigger] tr[t1]).0 == (#[trigger] tr[t2]).0 implies
            tr[t1].1 < tr[t2].1 by {
            assert(tr[t2] == rest[t2 - 1]);
            if t1 > 0 {
                assert(tr[t1] == rest[t1 - 1]);
            }
        }
    }
}

/// Gap-freeness of a seam (geometric part): the `t`-th emitted triangle holds
/// the boundary segment that the `t`-th trace step advances over, as the edge
/// between two of its vertices — an outer segment as vertices `3t, 3t + 1`,
/// an inner segment as vertices `3t + 1, 3t + 2`.
pub proof fn lemma_stitch_strip(
    a0: GPoint,
    da: Rat,
    na: int,
    b0: GPoint,
    db: Rat,
    nb: int,
    dir: Dir,
    i: int,
    j: int,
)
    requires
        1 <= i <= na + 1,
        1 <= j <= nb + 1,
    ensures
        forall|t: int|
            0 <= t < stitch_trace(a0, da, na, b0, db, nb, dir, i, j).len() ==> {
                let step = #[trigger] stitch_trace(a0, da, na, b0, db, nb, dir, i, j)[t];
                let vs = stitch_verts(a0, da, na, b0, db, nb, dir, i, j);
                if step.0 {
                    vs[3 * t] == vert_of(pt_along(a0, dir, da, step.1 - 1)) && vs[3 * t + 1]
                        == vert_of(pt_along(a0, dir, da, step.1))
                } else {
                    vs[3 * t + 1] == vert_of(pt_along(b0, dir, db, step.1)) && vs[3 * t + 2]
                        == vert_of(pt_along(b0, dir, db, step.1 - 1))
                }
            },
    decreases na + nb + 2 - i - j,
{
    let tr = stitch_trace(a0, da, na, b0, db, nb, dir, i, j);
    let vs = stitch_verts(a0, da, na, b0, db, nb, dir, i, j);
    lemma_stitch_verts_len(a0, da, na, b0, db, nb, dir, i, j);
    if i > na && j > nb {
    } else {
        let adv = advances_outer(a0, da, na, b0, db, nb, dir, i, j);
        let i2 = if adv { i + 1 } else { i };
        let j2 = if adv { j } else { j + 1 };
        lemma_stitch_strip(a0, da, na, b0, db, nb, dir, i2, j2);
        lemma_stitch_verts_len(a0, da, na, b0, db, nb, dir, i2, j2);
        let rest = stitch_trace(a0, da, na, b0, db, nb, dir, i2, j2);
        let rvs = stitch_verts(a0, da, na, b0, db, nb, dir, i2, j2);
        assert forall|t: int| 0 <= t < tr.len() implies {
            let step = #[trigger] tr[t];
            if step.0 {
                vs[3 * t] == vert_of(pt_along(a0, dir, da, step.1 - 1)) && vs[3 * t + 1]
                    == vert_of(pt_along(a0, dir, da, step.1))
            } else {
                vs[3 * t + 1] == vert_of(pt_along(b0, dir, db, step.1)) && vs[3 * t + 2]
                    == vert_of(pt_along(b0, dir, db, step.1 - 1))
            }
        } by {
            if t > 0 {
                assert(tr[t] == rest[t - 1]);
                assert(vs[3 * t] == rvs[3 * (t - 1)]);
                assert(vs[3 * t + 1] == rvs[3 * (t - 1) + 1]);
                assert(vs[3 * t + 2] == rvs[3 * (t - 1) + 2]);
            }
        }
    }
}

/// Numerators stepped up to `kmax` times from `p0` stay within `i64`.
pub open spec fn steps_fit(p0: int, st: int, kmax: int) -> bool {
    abs(p0) + kmax * abs(st) <= 0x7FFF_FFFF_FFFF_FFFF
}

proof fn lemma_steps_fit_mono(p0: int, st: int, k: int, kmax: int)
    requires
        0 <= k <= kmax,
        steps_fit(p0, st, kmax),
    ensures
        steps_fit(p0, st, k),
{
    let a = abs(st);
    assert(k * a <= kmax * a) by (nonlinear_arith)
        requires
            0 <= k <= kmax,
            a >= 0,
    ;
}

/// `st * k` lies within `[-(k * abs(st)), k * abs(st)]` for `k >= 0`.
proof fn lemma_scaled_bound(st: int, k: int)
    requires
        k >= 0,
    ensures
        st * k <= k * abs(st),
        -(k * abs(st)) <= st * k,
{
    let a = abs(st);
    assert(st * k <= k * a && -(k * a) <= st * k) by (nonlinear_arith)
        requires
            k >= 0,
            -a <= st <= a,
    ;
}

/// `p0 + st * k` or `p0 - st * k` for one step count `k`, exactly.
fn scaled_add(p0: i64, add_step: bool, st: i64, k: u64) -> (r: i64)
    requires
        steps_fit(p0 as int, st as int, k as int),
    ensures
        add_step ==> r as int == p0 + (st as int) * (k as int),
        !add_step ==> r as int == p0 - (st as int) * (k as int),
{
    proof {
        lemma_scaled_bound(st as int, k as int);
    }
    let prod: i128 = (st as i128) * (k as i128);
    let t: i128 = if add_step {
        (p0 as i128) + prod
    } else {
        (p0 as i128) - prod
    };
    t as i64
}

/// The `k`-th point of a boundary, stepping only the swept axis.
fn pt_at(start: &Point2, dir: Dir, step: &Frac, k: u64) -> (r: Point2)
    requires
        steps_fit(axis_num(dir, start@), step@.num, k as int),
    ensures
        r@ == pt_along(start@, dir, step@, k as int),
{
    match dir {
        Dir::XPos => Point2 {
            x: Frac { num: scaled_add(start.x.num, true, step.num, k), den: start.x.den },
            y: start.y,
        },
        Dir::XNeg => Point2 {
            x: Frac { num: scaled_add(start.x.num, false, step.num, k), den: start.x.den },
            y: start.y,
        },
        Dir::YPos => Point2 {
            x: start.x,
            y: Frac { num: scaled_add(start.y.num, true, step.num, k), den: start.y.den },
        },
        Dir::YNeg => Point2 {
            x: start.x,
            y: Frac { num: scaled_add(start.y.num, false, step.num, k), den: start.y.den },
        },
    }
}

/// The sweep key of a point, as an exact rational.
fn proj_frac(dir: Dir, p: &Point2) -> (f: Frac)
    requires
        -0x7FFF_FFFF_FFFF_FFFF <= axis_num(dir, p@),
    ensures
        f@ == proj(dir, p@),
{
    match dir {
        Dir::XPos => p.x,
        Dir::XNeg => Frac { num: -p.x.num, den: p.x.den },
        Dir::YPos => p.y,
        Dir::YNeg => Frac { num: -p.y.num, den: p.y.den },
    }
}

/// With a non-negative inner step, the inner sweep keys are non-decreasing.
proof fn lemma_proj_mono(b0: GPoint, db: Rat, dir: Dir, j: int, nb: int)
    requires
        db.num >= 0,
        0 <= j <= nb,
        axis_den(dir, b0) >= 1,
    ensures
        rat_le(proj(dir, pt_along(b0, dir, db, j)), proj(dir, pt_along(b0, dir, db, nb))),
{
    assert(db.num * j <= db.num * nb) by (nonlinear_arith)
        requires
            db.num >= 0,
            j <= nb,
    ;
    let d = axis_den(dir, b0);
    let x = proj(dir, pt_along(b0, dir, db, j)).num;
    let y = proj(dir, pt_along(b0, dir, db, nb)).num;
    assert(x <= y);
    assert(x * d <= y * d) by (nonlinear_arith)
        requires
            x <= y,
            d >= 1,
    ;
}

/// The preconditions of a seam: step denominators matching the start points,
/// a non-negative inner step, numerators that stay within `i64`, and an
/// outer boundary whose one-past-the-end sweep key lies strictly beyond the
/// inner boundary's last point, so the merge never walks off the outer end.
pub open spec fn stitch_req(
    a_start: Point2,
    da: Frac,
    na: int,
    b_start: Point2,
    db: Frac,
    nb: int,
    dir: Dir,
) -> bool {
    &&& a_start.wf()
    &&& b_start.wf()
    &&& da@.den == axis_den(dir, a_start@)
    &&& db@.den == axis_den(dir, b_start@)
    &&& db@.num >= 0
    &&& steps_fit(axis_num(dir, a_start@), da@.num, na + 1)
    &&& steps_fit(axis_num(dir, b_start@), db@.num, nb)
    &&& rat_lt(
        proj(dir, pt_along(b_start@, dir, db@, nb)),
        proj(dir, pt_along(a_start@, dir, da@, na + 1)),
    )
}

/// Closes the seam between an outer boundary (start `a_start`, step `da`,
/// `na` steps) and an inner boundary (start `b_start`, step `db`, `nb`
/// steps), sweeping along `dir`: a merge of the two boundaries by sweep key
/// that emits one triangle per advance, `na + nb` triangles in all.
#[verifier::loop_isolation(false)]
pub fn stitch(
    buf: &mut MeshBuffer,
    a_start: Point2,
    da: Frac,
    na: u32,
    b_start: Point2,
    db: Frac,
    nb: u32,
    dir: Dir,
)
    requires
        stitch_req(a_start, da, na as int, b_start, db, nb as int, dir),
    ensures
        final(buf)@ == old(buf)@ + stitch_verts(
            a_start@,
            da@,
            na as int,
            b_start@,
            db@,
            nb as int,
            dir,
            1,
            1,
        ),
        final(buf)@.len() == old(buf)@.len() + 3 * (na + nb),
{
    let ghost a0 = a_start@;
    let ghost b0 = b_start@;
    let ghost dav = da@;
    let ghost dbv = db@;
    let nal: u64 = na as u64;
    let nbl: u64 = nb as u64;
    let mut i: u64 = 1;
    let mut j: u64 = 1;
    while i <= nal || j <= nbl
        invariant
            1 <= i <= nal + 1,
            1 <= j <= nbl + 1,
            old(buf)@ + stitch_verts(a0, dav, na as int, b0, dbv, nb as int, dir, 1, 1) == buf@
                + stitch_verts(a0, dav, na as int, b0, dbv, nb as int, dir, i as int, j as int),
        decreases nal + nbl + 2 - i - j,
    {
        let ghost vs_here = stitch_verts(
            a0,
            dav,
            na as int,
            b0,
            dbv,
            nb as int,
            dir,
            i as int,
            j as int,
        );
        proof {
            lemma_steps_fit_mono(axis_num(dir, a0), dav.num, i as int, na as int + 1);
            lemma_steps_fit_mono(axis_num(dir, a0), dav.num, i as int - 1, na as int + 1);
            lemma_steps_fit_mono(axis_num(dir, b0), dbv.num, j as int - 1, nb as int);
            if j <= nbl {
                lemma_steps_fit_mono(axis_num(dir, b0), dbv.num, j as int, nb as int);
            }
        }
        let advance_outer: bool = if j > nbl {
            true
        } else {
            let pa = pt_at(&a_start, dir, &da, i);
            let pb = pt_at(&b_start, dir, &db, j);
            proof {
                lemma_scaled_bound(dav.num, i as int);
                lemma_scaled_bound(dbv.num, j as int);
                assert(-0x7FFF_FFFF_FFFF_FFFF <= axis_num(dir, pa@));
                assert(-0x7FFF_FFFF_FFFF_FFFF <= axis_num(dir, pb@));
            }
            let ka = proj_frac(dir, &pa);
            let kb = proj_frac(dir, &pb);
            let le = ka.le(&kb);
            proof {
                if le && i > nal {
                    // The one-past-the-end outer key lies beyond every inner
                    // key, so the comparison cannot send the merge past `na`.
                    lemma_proj_mono(b0, dbv, dir, j as int, nb as int);
                    lemma_rat_le_lt_trans(
                        proj(dir, pt_along(b0, dir, dbv, j as int)),
                        proj(dir, pt_along(b0, dir, dbv, nb as int)),
                        proj(dir, pt_along(a0, dir, dav, na as int + 1)),
                    );
                    assert(false);
                }
            }
            le
        };
        proof {
            assert(advance_outer == advances_outer(
                a0,
                dav,
                na as int,
                b0,
                dbv,
                nb as int,
                dir,
                i as int,
                j as int,
            ));
        }
        if advance_outer {
            let p0 = pt_at(&a_start, dir, &da, i - 1);
            let p1 = pt_at(&a_start, dir, &da, i);
            let q0 = pt_at(&b_start, dir, &db, j - 1);
            buf.add_tri(p0, p1, q0);
            proof {
                let rest = stitch_verts(
                    a0,
                    dav,
                    na as int,
                    b0,
                    dbv,
                    nb as int,
                    dir,
                    i as int + 1,
                    j as int,
                );
                assert(vs_here == tri_verts(p0@, p1@, q0@) + rest);
                assert(old(buf)@ + stitch_verts(a0, dav, na as int, b0, dbv, nb as int, dir, 1, 1)
                    =~= buf@ + rest);
            }
            i = i + 1;
        } else {
            let p0 = pt_at(&a_start, dir, &da, i - 1);
            let q1 = pt_at(&b_start, dir, &db, j);
            let q0 = pt_at(&b_start, dir, &db, j - 1);
            buf.add_tri(p0, q1, q0);
            proof {
                let rest = stitch_verts(
                    a0,
                    dav,
                    na as int,
                    b0,
                    dbv,
                    nb as int,
                    dir,
                    i as int,
                    j as int + 1,
                );
                assert(vs_here == tri_verts(p0@, q1@, q0@) + rest);
                assert(old(buf)@ + stitch_verts(a0, dav, na as int, b0, dbv, nb as int, dir, 1, 1)
                    =~= buf@ + rest);
            }
            j = j + 1;
        }
    }
    proof {
        assert(stitch_verts(a0, dav, na as int, b0, dbv, nb as int, dir, i as int, j as int)
            =~= Seq::<GVertex>::empty());
        assert(old(buf)@ + stitch_verts(a0, dav, na as int, b0, dbv, nb as int, dir, 1, 1) =~= buf@);
        lemma_stitch_verts_len(a0, dav, na as int, b0, dbv, nb as int, dir, 1, 1);
    }
}

} // verus!
