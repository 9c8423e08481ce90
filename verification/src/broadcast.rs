//! What the drones tell each other, one step before it is used.
use crate::config::N_DRONES;
use crate::fusion::Fix;
use crate::goal::{Belief, GoalBelief};
use crate::matrix::{Mat3, M3};
use crate::selfloc::{fixes, PoseFix, SelfLoc};
use crate::sim::Drone;
use crate::vector::{Vec3, V3};
use vstd::prelude::*;

verus! {

/// Each drone's last word on itself and on the goal, by its number.
pub struct Broadcast {
    pub poses: Vec<PoseFix>,
    pub goals: Vec<GoalBelief>,
}

/// `words`, with those of the first `n` drones put in their places.
pub open spec fn published<T>(words: Seq<T>, drones: Seq<Drone>, said: spec_fn(int) -> T, n: int) -> Seq<
    T,
>
    decreases n,
{
    if n <= 0 {
        words
    } else {
        published(words, drones, said, n - 1).update(drones[n - 1].id as int, said(n - 1))
    }
}

/// A sequence of `n` equal elements.
pub open spec fn repeated<T>(x: T, n: nat) -> Seq<T> {
    Seq::new(n, |i: int| x)
}

impl Broadcast {
    /// The words before anyone has spoken.
    pub fn new() -> (r: Broadcast)
        ensures
            fixes(r.poses@) == repeated(
                Fix { pos: V3::origin(), cov: M3::identity() },
                N_DRONES as nat,
            ),
            crate::goal::beliefs(r.goals@) == repeated(
                Belief {
                    pos: crate::goal::goal_start(),
                    var: crate::number::decode(crate::config::GOAL_INIT_VAR),
                },
                N_DRONES as nat,
            ),
    {
        let mut poses: Vec<PoseFix> = Vec::new();
        let mut goals: Vec<GoalBelief> = Vec::new();
        let mut i: usize = 0;
        let f = PoseFix { pos: Vec3::origin(), cov: Mat3::identity() };
        let g = GoalBelief::default();
        while i < N_DRONES
            invariant
                i <= N_DRONES,
                poses@ == repeated(f, i as nat),
                goals@ == repeated(g, i as nat),
            decreases N_DRONES - i,
        {
            poses.push(f);
            goals.push(g);
            assert(poses@ =~= repeated(f, (i + 1) as nat));
            assert(goals@ =~= repeated(g, (i + 1) as nat));
            i = i + 1;
        }
        assert(fixes(poses@) =~= repeated(f@, N_DRONES as nat));
        assert(crate::goal::beliefs(goals@) =~= repeated(g@, N_DRONES as nat));
        Broadcast { poses, goals }
    }

    /// Publishes each drone's estimate of itself and its belief about the
    /// goal. `drones`, `poses` and `goals` go together.
    pub fn broadcast_estimates(
        &mut self,
        drones: &Vec<Drone>,
        poses: &Vec<SelfLoc>,
        goals: &Vec<GoalBelief>,
    )
        requires
            drones@.len() == poses@.len(),
            drones@.len() == goals@.len(),
            forall|i: int|
                0 <= i < drones@.len() ==> {
                    let d = #[trigger] drones@[i];
                    d.id < old(self).poses@.len() && d.id < old(self).goals@.len()
                },
        ensures
            final(self).poses@ == published(
                old(self).poses@,
                drones@,
                |i: int| PoseFix { pos: poses@[i].x, cov: poses@[i].p },
                drones@.len() as int,
            ),
            final(self).goals@ == published(
                old(self).goals@,
                drones@,
                |i: int| goals@[i],
                drones@.len() as int,
            ),
    {
        let ghost (bp, bg) = (self.poses@, self.goals@);
        let ghost said = |i: int| PoseFix { pos: poses@[i].x, cov: poses@[i].p };
        let ghost told = |i: int| goals@[i];
        let mut i: usize = 0;
        while i < drones.len()
            invariant
                i <= drones@.len(),
                drones@.len() == poses@.len(),
                drones@.len() == goals@.len(),
                self.poses@.len() == bp.len(),
                self.goals@.len() == bg.len(),
                forall|i: int|
                    0 <= i < drones@.len() ==> {
                        let d = #[trigger] drones@[i];
                        d.id < bp.len() && d.id < bg.len()
                    },
                said == (|i: int| PoseFix { pos: poses@[i].x, cov: poses@[i].p }),
                told == (|i: int| goals@[i]),
                self.poses@ == published(bp, drones@, said, i as int),
                self.goals@ == published(bg, drones@, told, i as int),
            decreases drones@.len() - i,
        {
            let id = drones[i].id;
            let sl = poses[i];
            self.poses.set(id, PoseFix { pos: sl.x, cov: sl.p });
            self.goals.set(id, goals[i]);
            i = i + 1;
        }
    }
}

/// What a drone published is found under its number.
pub proof fn law_word_is_found<T>(
    words: Seq<T>,
    drones: Seq<Drone>,
    said: spec_fn(int) -> T,
    n: int,
    k: int,
)
    requires
        0 <= k < n <= drones.len(),
        forall|i: int| 0 <= i < n ==> (#[trigger] drones[i]).id < words.len(),
        forall|i: int, j: int|
            0 <= i < j < n ==> (#[trigger] drones[i]).id != (#[trigger] drones[j]).id,
    ensures
        published(words, drones, said, n)[drones[k].id as int] == said(k),
    decreases n,
{
    lemma_published_length(words, drones, said, n - 1);
    if k < n - 1 {
        law_word_is_found(words, drones, said, n - 1, k);
        assert(drones[k].id != drones[n - 1].id);
    }
    assert(drones[k].id < words.len());
}

proof fn lemma_published_length<T>(
    words: Seq<T>,
    drones: Seq<Drone>,
    said: spec_fn(int) -> T,
    n: int,
)
    requires
        n <= drones.len(),
        forall|i: int| 0 <= i < n ==> (#[trigger] drones[i]).id < words.len(),
    ensures
        published(words, drones, said, n).len() == words.len(),
    decreases n,
{
    if n > 0 {
        lemma_published_length(words, drones, said, n - 1);
        assert(drones[n - 1].id < words.len());
    }
}

} // verus!
