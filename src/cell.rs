use crate::ecs::Entity;
use crate::pass::{
    Step, begin_all, complete_all, feed, feed_all, pass_head, pass_tail, pay_in_order,
    receptor_pass,
};
use crate::receptor::{Body, InteractionAccumulator, Receptor};
use vstd::prelude::*;

verus! {

/// Nanoseconds in one second: tick lengths are given in nanoseconds.
pub const NANOS_PER_SECOND: u64 = 1_000_000_000;

/// Energy and health are counted in billionths of a unit.
pub const UNIT: u64 = 1_000_000_000;

/// The energy a cell is born with (ten units).
pub const INITIAL_ENERGY: u64 = 10_000_000_000;

/// The health of a cell at its best (three units).
pub const MAX_HEALTH: u64 = 3_000_000_000;

/// Health gained per second while fed, and lost per second while starving
/// (a fifth of a unit).
pub const REGEN_PER_SECOND: u64 = 200_000_000;

/// The share `num / den` of a request that could be paid for.
#[derive(Debug, Clone, Copy, PartialEq, Eq, Structural)]
pub struct Fraction {
    pub num: u64,
    pub den: u64,
}

impl Fraction {
    /// A proper fraction in `[0, 1]`.
    pub open spec fn wf(self) -> bool {
        self.den > 0 && self.num <= self.den
    }

    /// Whether the whole request was paid.
    pub open spec fn is_whole(self) -> bool {
        self.num == self.den
    }

    /// The fraction `1`.
    pub fn whole() -> (r: Fraction)
        ensures
            r.wf(),
            r.is_whole(),
    {
        Fraction { num: 1, den: 1 }
    }
}

/// One living organism: its registry handle, its resources, and `body`, the
/// physical state (position, motion, size, colour) that the receptors read.
#[derive(Debug)]
pub struct Cell<B> {
    pub entity: Entity,
    pub health: u64,
    pub energy: u64,
    pub body: B,
}

/// The health regained, or lost, over `dt` nanoseconds.
pub open spec fn regen_amount(dt: nat) -> nat {
    dt * (REGEN_PER_SECOND as nat) / (NANOS_PER_SECOND as nat)
}

/// Health after `dt` nanoseconds: a starving cell (no energy) loses health,
/// down to zero; a fed one regains it, up to `MAX_HEALTH`.
pub open spec fn health_after(health: nat, energy: nat, dt: nat) -> nat {
    if energy == 0 {
        if health > regen_amount(dt) {
            (health - regen_amount(dt)) as nat
        } else {
            0
        }
    } else if health + regen_amount(dt) < MAX_HEALTH {
        health + regen_amount(dt)
    } else {
        MAX_HEALTH as nat
    }
}

impl<B> Cell<B> {
    /// Whether the cell is still alive: it dies once its health is gone.
    pub open spec fn alive(&self) -> bool {
        self.health > 0
    }

    /// A fresh cell of `entity` with full health and the initial energy.
    pub fn new(entity: Entity, body: B) -> (r: Self)
        ensures
            r.entity == entity,
            r.health == MAX_HEALTH,
            r.energy == INITIAL_ENERGY,
            r.body == body,
    {
        Cell { entity, health: MAX_HEALTH, energy: INITIAL_ENERGY, body }
    }

    /// Pays `cost` out of the cell's energy. If the energy covers it, it is
    /// paid in full and the fraction is one; otherwise all the energy there is
    /// goes, and the fraction is `energy / cost`. Energy never goes into debt.
    pub fn consume_energy(&mut self, cost: u64) -> (r: Fraction)
        ensures
            r.wf(),
            cost <= old(self).energy ==> final(self).energy == old(self).energy - cost
                && r.is_whole(),
            cost > old(self).energy ==> final(self).energy == 0 && r.num == old(self).energy
                && r.den == cost,
            final(self).entity == old(self).entity,
            final(self).health == old(self).health,
            final(self).body == old(self).body,
    {
        if cost <= self.energy {
            self.energy = self.energy - cost;
            Fraction::whole()
        } else {
            let available = self.energy;
            self.energy = 0;
            Fraction { num: available, den: cost }
        }
    }

    /// Whether the cell is still alive.
    pub fn is_alive(&self) -> (r: bool)
        ensures
            r == self.alive(),
    {
        self.health > 0
    }

    /// Regenerates or drains health over `dt` nanoseconds, by the energy the
    /// cell holds now.
    pub fn handle_health(&mut self, dt: u64)
        ensures
            final(self).health == health_after(
                old(self).health as nat,
                old(self).energy as nat,
                dt as nat,
            ),
            final(self).entity == old(self).entity,
            final(self).energy == old(self).energy,
            final(self).body == old(self).body,
    {
        let amount = regen(dt);
        if self.energy == 0 {
            self.health = self.health.saturating_sub(amount);
        } else {
            let raised = self.health.saturating_add(amount);
            self.health = if raised < MAX_HEALTH {
                raised
            } else {
                MAX_HEALTH
            };
        }
    }
}

impl<B: Body> Cell<B> {
    /// Runs one tick of this cell, which stands at position `own` of the
    /// world: it moves by last tick's acceleration, its health follows its
    /// energy, its force is cleared, and then the two-phase receptor pass
    /// runs. One accumulator is made per receptor, in order; every peer in
    /// `peers` (positions in `snapshot`, never `own`) is fed to every
    /// accumulator; then each accumulator, in order, asks for its cost, is
    /// paid out of the cell's energy and completes. The force total becomes
    /// the new acceleration. Returns the steps taken and the costs asked for.
    pub(crate) fn tick<R: Receptor<B>>(
        &mut self,
        receptors: &[R],
        peers: &Vec<usize>,
        snapshot: &Vec<B>,
        dt: u64,
        own: Ghost<int>,
    ) -> (record: Ghost<(Seq<Step<B>>, Seq<u64>)>)
        requires
            forall|p: int| 0 <= p < peers@.len() ==> #[trigger] peers@[p] < snapshot@.len(),
            forall|p: int| 0 <= p < peers@.len() ==> #[trigger] peers@[p] != own@,
        ensures
            record@.1.len() == receptors@.len(),
            record@.0 == receptor_pass(
                peers@.map_values(|x: usize| x as int),
                snapshot@,
                record@.1,
            ),
            final(self).entity == old(self).entity,
            final(self).health == health_after(
                old(self).health as nat,
                old(self).energy as nat,
                dt as nat,
            ),
            final(self).energy == pay_in_order(old(self).energy as nat, record@.1),
    {
        let ghost positions = peers@.map_values(|x: usize| x as int);
        let ghost mut steps: Seq<Step<B>> = seq![Step::Move];
        self.body.sim_movement(dt);
        self.handle_health(dt);
        self.body.clear_force();
        proof {
            steps = steps.push(Step::Clear);
        }
        let ghost start = *self;
        let n = receptors.len();
        let mut accs: Vec<R::Accumulator> = Vec::new();
        let mut k: usize = 0;
        while k < n
            invariant
                n == receptors@.len(),
                k <= n,
                accs@.len() == k,
                steps == seq![Step::Move, Step::Clear] + begin_all::<B>(k as nat),
            decreases n - k,
        {
            accs.push(receptors[k].interaction_accumulator());
            proof {
                assert(begin_all::<B>((k + 1) as nat) =~= begin_all::<B>(k as nat).push(
                    Step::Begin(k as int),
                ));
                steps = steps.push(Step::Begin(k as int));
            }
            k += 1;
        }
        let ghost opened = steps;
        let mut p: usize = 0;
        while p < peers.len()
            invariant
                forall|q: int| 0 <= q < peers@.len() ==> #[trigger] peers@[q] < snapshot@.len(),
                positions == peers@.map_values(|x: usize| x as int),
                accs@.len() == n,
                p <= peers@.len(),
                steps == opened + feed_all(n as nat, positions.subrange(0, p as int), snapshot@),
                self.entity == start.entity,
                self.health == start.health,
                self.energy == start.energy,
            decreases peers@.len() - p,
        {
            let other = &snapshot[peers[p]];
            let ghost fed = steps;
            let mut j: usize = 0;
            while j < n
                invariant
                    accs@.len() == n,
                    j <= n,
                    p < peers@.len(),
                    peers@[p as int] < snapshot@.len(),
                    *other == snapshot@[peers@[p as int] as int],
                    steps == fed + feed(j as nat, peers@[p as int] as int, *other),
                    self.entity == start.entity,
                    self.health == start.health,
                    self.energy == start.energy,
                decreases n - j,
            {
                let acc = &mut accs[j];
                acc.add_interaction(&self.body, other);
                proof {
                    assert(feed((j + 1) as nat, peers@[p as int] as int, *other) =~= feed(
                        j as nat,
                        peers@[p as int] as int,
                        *other,
                    ).push(Step::Add(j as int, peers@[p as int] as int, *other)));
                    steps = steps.push(Step::Add(j as int, peers@[p as int] as int, *other));
                }
                j += 1;
            }
            proof {
                let upto = positions.subrange(0, p + 1);
                assert(upto.drop_last() =~= positions.subrange(0, p as int));
                assert(upto.last() == peers@[p as int] as int);
                assert(steps == opened + feed_all(n as nat, upto, snapshot@));
            }
            p += 1;
        }
        proof {
            assert(positions.subrange(0, peers@.len() as int) =~= positions);
        }
        let ghost gathered = steps;
        let ghost mut costs: Seq<u64> = Seq::empty();
        let mut k: usize = 0;
        while k < n
            invariant
                accs@.len() == n,
                k <= n,
                costs.len() == k,
                steps == gathered + complete_all::<B>(costs),
                self.entity == start.entity,
                self.health == start.health,
                self.energy == pay_in_order(start.energy as nat, costs),
            decreases n - k,
        {
            let acc = &mut accs[k];
            let cost = acc.energy_cost(&self.body);
            let granted = self.consume_energy(cost);
            acc.complete(&mut self.body, granted);
            proof {
                let more = costs.push(cost);
                assert(more.drop_last() =~= costs);
                assert(complete_all::<B>(more) =~= complete_all::<B>(costs).push(
                    Step::Complete(k as int, cost),
                ));
                steps = steps.push(Step::Complete(k as int, cost));
                costs = more;
            }
            k += 1;
        }
        self.body.apply_force();
        proof {
            steps = steps.push(Step::Apply);
            assert(steps =~= pass_head::<B>(n as nat) + feed_all(n as nat, positions, snapshot@)
                + pass_tail::<B>(costs));
        }
        Ghost((steps, costs))
    }
}

/// The health regained, or lost, over `dt` nanoseconds.
fn regen(dt: u64) -> (r: u64)
    ensures
        r == regen_amount(dt as nat),
{
    let wide: u128 = dt as u128;
    assert(wide * 200_000_000 <= u128::MAX) by (nonlinear_arith)
        requires
            wide <= u64::MAX,
    ;
    let wide = wide * (REGEN_PER_SECOND as u128) / (NANOS_PER_SECOND as u128);
    proof {
        let d = dt as int;
        assert(d * 200_000_000 / 1_000_000_000 <= d) by (nonlinear_arith)
            requires
                d >= 0,
        ;
    }
    wide as u64
}

} // verus!
