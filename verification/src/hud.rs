//! The display: measures of the swarm as a whole, and their text.
use crate::config::{GOAL_ARRIVE_RADIUS, HUNDRED, N_DRONES, N_INFORMED, N_LANDMARKS, ONE_TENTH};
use crate::metrics::{ease, eased, how_many, tally, total, Metrics};
use crate::number::{at_most, decode, infinity, larger, less, one, square_root, Number};
use crate::scalar::Scalar;
use crate::sim::SimState;
use crate::swarm::{Seen, Snapshot};
use crate::vector::{Vec3, V3};
use vstd::prelude::*;
use vstd::string::StringExecFns;

verus! {

/// Whether `j` is another living drone.
pub open spec fn is_other(s: Seq<Seen>, i: int, j: int) -> bool {
    i != j && s[j].alive
}

/// Whether the drone `j` is a neighbour of the drone `i`.
pub open spec fn is_neighbor(s: Seq<Seen>, i: int, j: int, perception: Number) -> bool {
    is_other(s, i, j) && at_most(s[i].pos.distance_squared(s[j].pos), perception * perception)
}

/// How many neighbours the living ones of the first `n` drones have in all.
pub open spec fn neighbor_count(s: Seq<Seen>, perception: Number, n: int) -> nat
    decreases n,
{
    if n <= 0 {
        0
    } else {
        neighbor_count(s, perception, n - 1) + (if s[n - 1].alive {
            how_many(|j: int| is_neighbor(s, n - 1, j, perception), s.len() as int)
        } else {
            0
        })
    }
}

/// The least of `best` and the squared distances from `i` to those of the first
/// `n` drones that are others.
pub open spec fn closest_to(s: Seq<Seen>, i: int, best: Number, n: int) -> Number
    decreases n,
{
    if n <= 0 {
        best
    } else {
        let b = closest_to(s, i, best, n - 1);
        let d = s[i].pos.distance_squared(s[n - 1].pos);
        if is_other(s, i, n - 1) && less(d, b) {
            d
        } else {
            b
        }
    }
}

/// The least squared distance between one of the first `n` drones and another
/// drone, where both live; infinite if there is none.
pub open spec fn closest(s: Seq<Seen>, n: int) -> Number
    decreases n,
{
    if n <= 0 {
        infinity()
    } else if s[n - 1].alive {
        closest_to(s, n - 1, closest(s, n - 1), s.len() as int)
    } else {
        closest(s, n - 1)
    }
}

/// Whether a drone is at the goal.
pub open spec fn is_there(o: Seen, goal: V3) -> bool {
    o.alive && at_most(o.pos.distance(goal), decode(GOAL_ARRIVE_RADIUS))
}

fn look_from(
    snap: &Snapshot,
    i: usize,
    pr_sq: Scalar,
    perception: Ghost<Number>,
    neighbors: Scalar,
    nearest: Scalar,
    counted: Ghost<nat>,
) -> (r: (Scalar, Scalar))
    requires
        i < snap@.len(),
        pr_sq@ == perception@ * perception@,
        neighbors@ == tally(counted@),
    ensures
        r.0@ == tally(
            counted@ + how_many(
                |j: int| is_neighbor(snap@, i as int, j, perception@),
                snap@.len() as int,
            ),
        ),
        r.1@ == closest_to(snap@, i as int, nearest@, snap@.len() as int),
{
    let a = snap.0[i].pos;
    let ghost near = |j: int| is_neighbor(snap@, i as int, j, perception@);
    let mut sum = neighbors;
    let mut best = nearest;
    let mut j: usize = 0;
    while j < snap.0.len()
        invariant
            i < snap@.len(),
            j <= snap@.len(),
            a@ == snap@[i as int].pos,
            pr_sq@ == perception@ * perception@,
            near == (|j: int| is_neighbor(snap@, i as int, j, perception@)),
            sum@ == tally(counted@ + how_many(near, j as int)),
            best@ == closest_to(snap@, i as int, nearest@, j as int),
        decreases snap@.len() - j,
    {
        let b = snap.0[j];
        if i != j && b.alive {
            let dsq = a.distance_squared(b.pos);
            if dsq.le(pr_sq) {
                sum = sum + Scalar::one();
            }
            if dsq.lt(best) {
                best = dsq;
            }
        }
        j = j + 1;
    }
    (sum, best)
}

/// Measures the swarm and eases the display towards it.
pub fn measure_swarm(snap: &Snapshot, sim: &SimState, goal: Vec3, metrics: &mut Metrics)
    ensures
        ({
            let s = snap@;
            let n = s.len() as int;
            let k = decode(ONE_TENTH);
            let was = *old(metrics);
            let now = *final(metrics);
            let alive = larger(tally(how_many(|i: int| s[i].alive, n)), one());
            let nearest = closest(s, n);
            &&& now == (Metrics {
                avg_neighbors: now.avg_neighbors,
                avg_speed: now.avg_speed,
                frac_at_goal: now.frac_at_goal,
                nearest_pair: now.nearest_pair,
                ..was
            })
            &&& now.avg_neighbors@ == eased(
                was.avg_neighbors@,
                tally(neighbor_count(s, sim@.perception, n)) / alive,
                k,
            )
            &&& now.avg_speed@ == eased(
                was.avg_speed@,
                total(|i: int| s[i].vel.length(), |i: int| s[i].alive, n) / alive,
                k,
            )
            &&& now.frac_at_goal@ == eased(
                was.frac_at_goal@,
                tally(how_many(|i: int| is_there(s[i], goal@), n)) / alive,
                k,
            )
            &&& now.nearest_pair@ == (if nearest is Finite {
                eased(was.nearest_pair@, square_root(nearest), k)
            } else {
                was.nearest_pair@
            })
        }),
{
    let ghost s = snap@;
    let ghost lives = |i: int| s[i].alive;
    let ghost speed = |i: int| s[i].vel.length();
    let ghost there = |i: int| is_there(s[i], goal@);
    let pr_sq = sim.perception * sim.perception;
    let mut neighbors = Scalar::zero();
    let mut speeds = Scalar::zero();
    let mut at_goal = Scalar::zero();
    let mut alive = Scalar::zero();
    let mut nearest = Scalar::infinity();
    let mut i: usize = 0;
    while i < snap.0.len()
        invariant
            i <= s.len(),
            s == snap@,
            lives == (|i: int| s[i].alive),
            speed == (|i: int| s[i].vel.length()),
            there == (|i: int| is_there(s[i], goal@)),
            pr_sq@ == sim@.perception * sim@.perception,
            neighbors@ == tally(neighbor_count(s, sim@.perception, i as int)),
            speeds@ == total(speed, lives, i as int),
            at_goal@ == tally(how_many(there, i as int)),
            alive@ == tally(how_many(lives, i as int)),
            nearest@ == closest(s, i as int),
        decreases s.len() - i,
    {
        let a = snap.0[i];
        if a.alive {
            alive = alive + Scalar::one();
            speeds = speeds + a.vel.length();
            if a.pos.distance(goal).le(Scalar::from_bits(GOAL_ARRIVE_RADIUS)) {
                at_goal = at_goal + Scalar::one();
            }
            let (c, b) = look_from(
                snap,
                i,
                pr_sq,
                Ghost(sim@.perception),
                neighbors,
                nearest,
                Ghost(neighbor_count(s, sim@.perception, i as int)),
            );
            neighbors = c;
            nearest = b;
        }
        i = i + 1;
    }
    let alive = alive.max(Scalar::one());
    let k = Scalar::from_bits(ONE_TENTH);
    metrics.avg_neighbors = ease(metrics.avg_neighbors, neighbors / alive, k);
    metrics.avg_speed = ease(metrics.avg_speed, speeds / alive, k);
    metrics.frac_at_goal = ease(metrics.frac_at_goal, at_goal / alive, k);
    if nearest.is_finite() {
        metrics.nearest_pair = ease(metrics.nearest_pair, nearest.sqrt(), k);
    }
}

/// No two drones that live are closer than the closest pair.
pub proof fn law_no_pair_is_closer(s: Seq<Seen>, i: int, j: int)
    requires
        0 <= i < s.len(),
        0 <= j < s.len(),
        s[i].alive,
        is_other(s, i, j),
    ensures
        !less(s[i].pos.distance_squared(s[j].pos), closest(s, s.len() as int)),
{
    lemma_closest(s, i, j, s.len() as int);
}

proof fn lemma_closest_to(s: Seq<Seen>, i: int, best: Number, n: int, j: int)
    requires
        0 <= j < n,
        is_other(s, i, j),
    ensures
        !less(s[i].pos.distance_squared(s[j].pos), closest_to(s, i, best, n)),
    decreases n,
{
    let d = s[i].pos.distance_squared(s[j].pos);
    let e = s[i].pos.distance_squared(s[n - 1].pos);
    crate::order::lemma_less_irreflexive(d);
    if j < n - 1 {
        lemma_closest_to(s, i, best, n - 1, j);
        if less(d, e) && less(e, closest_to(s, i, best, n - 1)) {
            crate::order::lemma_less_transitive(d, e, closest_to(s, i, best, n - 1));
        }
    }
}

proof fn lemma_closest_keeps(s: Seq<Seen>, i: int, best: Number, n: int, d: Number)
    requires
        !less(d, best),
    ensures
        !less(d, closest_to(s, i, best, n)),
    decreases n,
{
    if n > 0 {
        lemma_closest_keeps(s, i, best, n - 1, d);
        let b = closest_to(s, i, best, n - 1);
        let e = s[i].pos.distance_squared(s[n - 1].pos);
        if less(d, e) && less(e, b) {
            crate::order::lemma_less_transitive(d, e, b);
        }
    }
}

proof fn lemma_closest(s: Seq<Seen>, i: int, j: int, n: int)
    requires
        0 <= i < n <= s.len(),
        0 <= j < s.len(),
        s[i].alive,
        is_other(s, i, j),
    ensures
        !less(s[i].pos.distance_squared(s[j].pos), closest(s, n)),
    decreases n,
{
    let d = s[i].pos.distance_squared(s[j].pos);
    if i == n - 1 {
        lemma_closest_to(s, i, closest(s, n - 1), s.len() as int, j);
    } else {
        lemma_closest(s, i, j, n - 1);
        if s[n - 1].alive {
            lemma_closest_keeps(s, n - 1, closest(s, n - 1), s.len() as int, d);
        }
    }
}

/// A decimal digit.
pub open spec fn digit(d: nat) -> Seq<char> {
    if d == 0 {
        "0"@
    } else if d == 1 {
        "1"@
    } else if d == 2 {
        "2"@
    } else if d == 3 {
        "3"@
    } else if d == 4 {
        "4"@
    } else if d == 5 {
        "5"@
    } else if d == 6 {
        "6"@
    } else if d == 7 {
        "7"@
    } else if d == 8 {
        "8"@
    } else {
        "9"@
    }
}

/// A number in decimal.
pub open spec fn decimal(n: nat) -> Seq<char>
    decreases n,
{
    if n < 10 {
        digit(n)
    } else {
        decimal(n / 10) + digit(n % 10)
    }
}

fn digit_text(d: u64) -> (r: &'static str)
    requires
        d < 10,
    ensures
        r@ == digit(d as nat),
{
    if d == 0 {
        "0"
    } else if d == 1 {
        "1"
    } else if d == 2 {
        "2"
    } else if d == 3 {
        "3"
    } else if d == 4 {
        "4"
    } else if d == 5 {
        "5"
    } else if d == 6 {
        "6"
    } else if d == 7 {
        "7"
    } else if d == 8 {
        "8"
    } else {
        "9"
    }
}

/// A number in decimal.
pub fn decimal_text(n: u64) -> (r: String)
    ensures
        r@ == decimal(n as nat),
    decreases n,
{
    if n < 10 {
        String::from_str(digit_text(n))
    } else {
        decimal_text(n / 10).concat(digit_text(n % 10))
    }
}

/// A share in percent.
pub fn percent(share: Scalar) -> (r: Scalar)
    ensures
        r@ == share@ * decode(HUNDRED),
{
    share * Scalar::from_bits(HUNDRED)
}

/// The measures that the display shows, each as text in the form it has there.
pub struct HudNumbers {
    pub perception: String,
    pub neighbors: String,
    pub speed: String,
    pub at_goal: String,
    pub nearest: String,
    pub self_error: String,
    pub est_error: String,
    pub coverage: String,
    pub battery: String,
    pub map_error: String,
}

pub open spec fn on_off(b: bool) -> Seq<char> {
    if b {
        "ON "@
    } else {
        "OFF"@
    }
}

fn on_off_text(b: bool) -> (r: &'static str)
    ensures
        r@ == on_off(b),
{
    if b {
        "ON "
    } else {
        "OFF"
    }
}

/// The display's text.
pub open spec fn hud(sim: SimState, built: nat, x: HudNumbers) -> Seq<char> {
    "DECENTRALIZED DRONE SWARM  ·  Avian3D + Bevy\n------------------------------------------------\ndrones: "@
        + decimal(N_DRONES as nat) + "   informed (know goal): "@ + decimal(N_INFORMED as nat)
        + "\nperception radius: "@ + x.perception@ + " m\n\navg neighbors / drone : "@ + x.neighbors@
        + "\navg speed             : "@ + x.speed@ + " m/s\nswarm at goal         : "@ + x.at_goal@
        + " %\nnearest pair gap      : "@ + x.nearest@ + " m\nself-loc error        : "@
        + x.self_error@ + " m (odometry + anchors + coop)\nneighbor est. error   : "@ + x.est_error@
        + " m (per-drone EKF, range+bearing)\ngoal info coverage    : "@ + x.coverage@
        + " % (gossip consensus)\nmean battery          : "@ + x.battery@
        + " %\nSLAM map built        : "@ + decimal(built) + "/"@ + decimal(N_LANDMARKS as nat)
        + " landmarks  (err "@ + x.map_error@ + " m)\n\n[Space] "@ + (if sim.paused {
        "RESUME"@
    } else {
        "PAUSE "@
    }) + "   [G] goal-seek "@ + on_off(sim.goal_seek) + "   [L] links "@ + on_off(sim.show_links)
        + "\n[N] noise "@ + on_off(sim.noise) + "   [E] estimator "@ + on_off(sim.show_estimator)
        + "   [O] avoidance "@ + on_off(sim.avoidance) + "\n[C] cooperative "@ + on_off(
        sim.cooperative,
    ) + "   [P] perception   [R] re-scatter   [Esc] quit"@
}

/// The display's text.
pub fn hud_text(sim: &SimState, built: u64, x: &HudNumbers) -> (r: String)
    ensures
        r@ == hud(*sim, built as nat, *x),
{
    let mut t = String::from_str(
        "DECENTRALIZED DRONE SWARM  ·  Avian3D + Bevy\n------------------------------------------------\ndrones: ",
    );
    t.append(decimal_text(N_DRONES as u64).as_str());
    t.append("   informed (know goal): ");
    t.append(decimal_text(N_INFORMED as u64).as_str());
    t.append("\nperception radius: ");
    t.append(x.perception.as_str());
    t.append(" m\n\navg neighbors / drone : ");
    t.append(x.neighbors.as_str());
    t.append("\navg speed             : ");
    t.append(x.speed.as_str());
    t.append(" m/s\nswarm at goal         : ");
    t.append(x.at_goal.as_str());
    t.append(" %\nnearest pair gap      : ");
    t.append(x.nearest.as_str());
    t.append(" m\nself-loc error        : ");
    t.append(x.self_error.as_str());
    t.append(" m (odometry + anchors + coop)\nneighbor est. error   : ");
    t.append(x.est_error.as_str());
    t.append(" m (per-drone EKF, range+bearing)\ngoal info coverage    : ");
    t.append(x.coverage.as_str());
    t.append(" % (gossip consensus)\nmean battery          : ");
    t.append(x.battery.as_str());
    t.append(" %\nSLAM map built        : ");
    t.append(decimal_text(built).as_str());
    t.append("/");
    t.append(decimal_text(N_LANDMARKS as u64).as_str());
    t.append(" landmarks  (err ");
    t.append(x.map_error.as_str());
    t.append(" m)\n\n[Space] ");
    t.append(
        if sim.paused {
            "RESUME"
        } else {
            "PAUSE "
        },
    );
    t.append("   [G] goal-seek ");
    t.append(on_off_text(sim.goal_seek));
    t.append("   [L] links ");
    t.append(on_off_text(sim.show_links));
    t.append("\n[N] noise ");
    t.append(on_off_text(sim.noise));
    t.append("   [E] estimator ");
    t.append(on_off_text(sim.show_estimator));
    t.append("   [O] avoidance ");
    t.append(on_off_text(sim.avoidance));
    t.append("\n[C] cooperative ");
    t.append(on_off_text(sim.cooperative));
    t.append("   [P] perception   [R] re-scatter   [Esc] quit");
    t
}

} // verus!
