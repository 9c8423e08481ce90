//! What mapping makes of sightings: where the landmark ends up.
use crate::config::LANDMARK_OBS_RANGE;
use crate::error::{eps, lemma_tiny};
use crate::foresight::{row_close, row_within};
use crate::forms::triple;
use crate::fusion::Fix;
use crate::inversion::is_alike;
use crate::matrix::M3;
use crate::number::{decode, less, Number};
use crate::placement::{extent, is_place_kept, is_position, law_vaguer_estimate_is_dismissed};
use crate::selection::{is_covariance, is_vaguer, lemma_square_size, square};
use crate::selfloc::{Pose, SelfLoc};
use crate::sim::Drone;
use crate::slam::{after_looks, looked_for, sighting, sighting_var, Landmark};
use crate::soundness::shape;
use crate::swarm::Seen;
use crate::tolerance::{both, lemma_itself, lemma_sum_close};
use crate::vector::{V3, Vec3};
use vstd::prelude::*;

verus! {

/// Whether a landmark truly at `truth` is in reach of a drone truly at `me`.
pub open spec fn in_reach(truth: V3, me: V3) -> bool {
    !less(decode(LANDMARK_OBS_RANGE), (truth - me).length())
}

/// Whether, of the first `n` drones, just `i` has the landmark in reach.
pub open spec fn only_in_reach(
    truth: V3,
    snap: Seq<Seen>,
    drones: Seq<Drone>,
    i: int,
    n: int,
) -> bool {
    &&& 0 <= i < n
    &&& forall|j: int|
        0 <= j < n ==> (in_reach(truth, snap[(#[trigger] drones[j]).id as int].pos) <==> j == i)
}

/// The covariance of what a drone sees: its own and that of the sighting.
pub open spec fn sighted_cov(s: Pose, truth: V3, me: V3) -> M3 {
    s.p + M3::identity().scaled(sighting_var((truth - me).length()))
}

proof fn lemma_no_look(
    l: Landmark,
    truth: V3,
    snap: Seq<Seen>,
    drones: Seq<Drone>,
    poses: Seq<SelfLoc>,
    offsets: Seq<Vec<Vec3>>,
    k: int,
    n: int,
)
    requires
        forall|j: int|
            0 <= j < n ==> !in_reach(truth, snap[(#[trigger] drones[j]).id as int].pos),
    ensures
        after_looks(l, truth, snap, drones, poses, offsets, k, n) == l,
    decreases n,
{
    if n > 0 {
        lemma_no_look(l, truth, snap, drones, poses, offsets, k, n - 1);
        assert(!in_reach(truth, snap[drones[n - 1].id as int].pos));
    }
}

pub proof fn lemma_one_look(
    l: Landmark,
    truth: V3,
    snap: Seq<Seen>,
    drones: Seq<Drone>,
    poses: Seq<SelfLoc>,
    offsets: Seq<Vec<Vec3>>,
    k: int,
    n: int,
    i: int,
)
    requires
        only_in_reach(truth, snap, drones, i, n),
    ensures
        after_looks(l, truth, snap, drones, poses, offsets, k, n) == looked_for(
            l,
            truth,
            snap[drones[i].id as int].pos,
            poses[i]@,
            offsets[i]@[k]@,
        ),
    decreases n,
{
    assert(in_reach(truth, snap[drones[n - 1].id as int].pos) <==> n - 1 == i);
    if n - 1 == i {
        lemma_no_look(l, truth, snap, drones, poses, offsets, k, n - 1);
    } else {
        lemma_one_look(l, truth, snap, drones, poses, offsets, k, n - 1, i);
    }
}

/// The place that a drone at `x` puts a landmark at `offset` from it.
pub proof fn lemma_place_seen(s: Pose, range: Number, offset: V3, b: real)
    requires
        row_within(s.x, b),
        row_within(offset, b),
        b >= 1 as real,
        b <= 0x100_0000_0000_0000 as real,
    ensures
        row_close(
            sighting(s, range, offset).pos,
            both(triple(s.x), triple(offset)),
            8 as real * (b * eps()),
        ),
        8 as real * (b * eps()) <= b / (1000 as real),
{
    lemma_tiny();
    let e = eps();
    let be = b * e;
    assert((2 as real * b) * e == 2 as real * be && 8 as real * be <= b / (1000 as real))
        by (nonlinear_arith)
        requires
            be == b * e,
            b >= 1 as real,
            e == (1 as real) / (0x100_0000 as real),
    ;
    lemma_itself(s.x);
    lemma_itself(offset);
    lemma_sum_close(
        s.x,
        offset,
        triple(s.x),
        triple(offset),
        0 as real,
        0 as real,
        2 as real * b,
    );
}

/// A landmark that nobody has seen is put where the drone that sees it believes it:
/// at the offset seen from where the drone believes to be. `b` bounds the
/// coordinates.
pub proof fn law_first_look_places_the_landmark(
    l: Landmark,
    truth: V3,
    snap: Seq<Seen>,
    drones: Seq<Drone>,
    poses: Seq<SelfLoc>,
    offsets: Seq<Vec<Vec3>>,
    k: int,
    n: int,
    i: int,
    b: real,
)
    requires
        !l.seen,
        only_in_reach(truth, snap, drones, i, n),
        row_within(poses[i]@.x, b),
        row_within(offsets[i]@[k]@, b),
        b >= 1 as real,
        b <= 0x100_0000_0000_0000 as real,
    ensures
        ({
            let after = after_looks(l, truth, snap, drones, poses, offsets, k, n);
            let me = snap[drones[i].id as int].pos;
            &&& after.seen
            &&& row_close(
                after.pos,
                both(triple(poses[i]@.x), triple(offsets[i]@[k]@)),
                8 as real * (b * eps()),
            )
            &&& after.cov == sighted_cov(poses[i]@, truth, me)
        }),
{
    lemma_one_look(l, truth, snap, drones, poses, offsets, k, n, i);
    let me = snap[drones[i].id as int].pos;
    lemma_place_seen(poses[i]@, (truth - me).length(), offsets[i]@[k]@, b);
    assert(in_reach(truth, snap[drones[i].id as int].pos));
}

/// A sighting that is surer in every direction than the map moves the landmark to
/// where it was seen, however sure the map was of another place: at the offset seen
/// from where the drone believes to be, and with the covariance of the sighting. So
/// a drone that knows its place and sees the true offset puts the landmark at its
/// true place. `p`, `q` and `c` are the stretches of the two covariances and `w` the
/// share by which the sighting is surer, as for any two estimates.
pub proof fn law_sure_look_moves_the_landmark(
    l: Landmark,
    truth: V3,
    snap: Seq<Seen>,
    drones: Seq<Drone>,
    poses: Seq<SelfLoc>,
    offsets: Seq<Vec<Vec3>>,
    k: int,
    n: int,
    i: int,
    p: real,
    q: real,
    c: real,
    w: real,
)
    requires
        l.seen,
        only_in_reach(truth, snap, drones, i, n),
        is_position(l.pos),
        row_within(poses[i]@.x, 0x1800 as real),
        row_within(offsets[i]@[k]@, 0x1800 as real),
        ({
            let cov = sighted_cov(poses[i]@, truth, snap[drones[i].id as int].pos);
            &&& is_covariance(cov, p, c)
            &&& is_covariance(l.cov, q, c)
            &&& is_vaguer(l.cov, cov, w)
        }),
        w > 0 as real,
        w <= 1 as real,
        square(c) <= w / (10000 as real),
    ensures
        ({
            let after = after_looks(l, truth, snap, drones, poses, offsets, k, n);
            let seen = both(triple(poses[i]@.x), triple(offsets[i]@[k]@));
            let cov = sighted_cov(poses[i]@, truth, snap[drones[i].id as int].pos);
            let most = 560 as real * ((square(c) * c) * (extent(seen) + 2 as real)) + 8 as real * (
            0x1800 as real * eps());
            &&& after.seen
            &&& row_close(after.pos, seen, most)
            &&& is_alike(shape(after.cov), shape(cov), 134 as real * square(c))
        }),
{
    lemma_tiny();
    lemma_one_look(l, truth, snap, drones, poses, offsets, k, n, i);
    let (me, s, o) = (snap[drones[i].id as int].pos, poses[i]@, offsets[i]@[k]@);
    assert(in_reach(truth, snap[drones[i].id as int].pos));
    let f = sighting(s, (truth - me).length(), o);
    let b = 0x1800 as real;
    lemma_place_seen(s, (truth - me).length(), o, b);
    let e = eps();
    assert(8 as real * (b * e) <= 1 as real / (3 as real));
    law_vaguer_estimate_is_dismissed(f, Fix { pos: l.pos, cov: l.cov }, p, q, c, w);
    let (nn, x) = (square(c), extent(triple(f.pos)) + 1 as real);
    let y = extent(both(triple(s.x), triple(o))) + 2 as real;
    assert(x <= y);
    lemma_square_size(c, nn);
    let nc = nn * c;
    assert(nc >= 0 as real) by (nonlinear_arith)
        requires
            nc == nn * c,
            nn > 0 as real,
            c >= 1 as real,
    ;
    assert(nc * x <= nc * y) by (nonlinear_arith)
        requires
            x <= y,
            nc >= 0 as real,
    ;
}

/// A sighting that is vaguer in every direction than the map leaves the landmark
/// where it is.
pub proof fn law_vague_look_keeps_the_landmark(
    l: Landmark,
    truth: V3,
    snap: Seq<Seen>,
    drones: Seq<Drone>,
    poses: Seq<SelfLoc>,
    offsets: Seq<Vec<Vec3>>,
    k: int,
    n: int,
    i: int,
    p: real,
    q: real,
    c: real,
    w: real,
)
    requires
        l.seen,
        only_in_reach(truth, snap, drones, i, n),
        is_position(l.pos),
        row_within(poses[i]@.x, 0x1800 as real),
        row_within(offsets[i]@[k]@, 0x1800 as real),
        ({
            let cov = sighted_cov(poses[i]@, truth, snap[drones[i].id as int].pos);
            &&& is_covariance(l.cov, p, c)
            &&& is_covariance(cov, q, c)
            &&& is_vaguer(cov, l.cov, w)
        }),
        w > 0 as real,
        w <= 1 as real,
        square(c) <= w / (10000 as real),
    ensures
        ({
            let after = after_looks(l, truth, snap, drones, poses, offsets, k, n);
            &&& after.seen
            &&& is_place_kept(after.pos, l.pos, square(c), c)
            &&& is_alike(shape(after.cov), shape(l.cov), 134 as real * square(c))
        }),
{
    lemma_tiny();
    lemma_one_look(l, truth, snap, drones, poses, offsets, k, n, i);
    let (me, s, o) = (snap[drones[i].id as int].pos, poses[i]@, offsets[i]@[k]@);
    assert(in_reach(truth, snap[drones[i].id as int].pos));
    let f = sighting(s, (truth - me).length(), o);
    lemma_place_seen(s, (truth - me).length(), o, 0x1800 as real);
    law_vaguer_estimate_is_dismissed(Fix { pos: l.pos, cov: l.cov }, f, p, q, c, w);
}

} // verus!
