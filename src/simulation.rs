use crate::cell::{Cell, INITIAL_ENERGY, MAX_HEALTH, health_after};
use crate::ecs::{Ecs, Entity};
use crate::pass::{Step, interactions, lemma_receptor_pass_shape, pay_in_order, receptor_pass};
use crate::receptor::{BaseReceptor, Body, Receptor};
use vstd::prelude::*;
use vstd::pervasive::cloned;
use vstd::std_specs::convert::FromSpec;

verus! {

/// A fresh random cell identifier.
///
/// Relies on `uuid::Uuid::new_v4` and `uuid::Uuid::as_u128`: a random
/// version-4 UUID, read as a big-endian integer, so its version nibble is 4.
/// Which value comes is left open; two calls may give anything.
#[verifier::external_body]
fn fresh_id() -> (r: u128)
    ensures
        (r >> 76u128) & 0xfu128 == 4u128,
{
    uuid::Uuid::new_v4().as_u128()
}

/// No two entries carry the same identifier.
pub open spec fn unique_ids<B>(cells: Seq<(u128, Cell<B>)>) -> bool {
    forall|i: int, j: int|
        0 <= i < cells.len() && 0 <= j < cells.len() && i != j ==> #[trigger] cells[i].0
            != #[trigger] cells[j].0
}

/// The positions, in order, of the entries whose identifier is not `id`.
pub open spec fn indices_without<B>(cells: Seq<(u128, Cell<B>)>, id: u128) -> Seq<int>
    decreases cells.len(),
{
    if cells.len() == 0 {
        Seq::empty()
    } else {
        let rest = indices_without(cells.drop_last(), id);
        if cells.last().0 != id {
            rest.push(cells.len() - 1)
        } else {
            rest
        }
    }
}

/// The cells that survive a sweep.
pub open spec fn living<B>(cells: Seq<(u128, Cell<B>)>) -> Seq<(u128, Cell<B>)> {
    cells.filter(|c: (u128, Cell<B>)| c.1.health > 0)
}

/// The cells that a sweep removes.
pub open spec fn dying<B>(cells: Seq<(u128, Cell<B>)>) -> Seq<(u128, Cell<B>)> {
    cells.filter(|c: (u128, Cell<B>)| c.1.health == 0)
}

/// What one cell's pass of a tick did: the steps it took and the cost each
/// of its receptors asked for.
pub type PassRecord<B> = (Seq<Step<B>>, Seq<u64>);

/// `next` is `prev` after the per-cell part of a tick of `dt` nanoseconds,
/// in which `snapshot` held the bodies as they stood at the start of the
/// tick and cell `i` took the pass `passes[i]`. The cells stay the same and in
/// the same order. Each cell's health is regenerated or drained by the rule
/// of its energy at the start of the tick. Each cell made one accumulator per
/// receptor that `registry` holds for its entity, fed every other cell (as it
/// stood at the start of the tick, never itself) to every accumulator, then
/// completed them in order; its energy is what paying their costs in that
/// order left.
pub open spec fn advanced<R, B: Clone>(
    prev: Seq<(u128, Cell<B>)>,
    next: Seq<(u128, Cell<B>)>,
    registry: Seq<Seq<R>>,
    snapshot: Seq<B>,
    passes: Seq<PassRecord<B>>,
    dt: nat,
) -> bool {
    &&& next.len() == prev.len()
    &&& snapshot.len() == prev.len()
    &&& passes.len() == prev.len()
    &&& forall|p: int| 0 <= p < prev.len() ==> cloned(prev[p].1.body, #[trigger] snapshot[p])
    &&& forall|i: int|
        0 <= i < prev.len() ==> {
            &&& (#[trigger] next[i]).0 == prev[i].0
            &&& next[i].1.entity == prev[i].1.entity
            &&& next[i].1.health == health_after(
                prev[i].1.health as nat,
                prev[i].1.energy as nat,
                dt,
            )
            &&& passes[i].1.len() == registry[prev[i].1.entity.index() as int].len()
            &&& passes[i].0 == receptor_pass(indices_without(prev, prev[i].0), snapshot, passes[i].1)
            &&& next[i].1.energy == pay_in_order(prev[i].1.energy as nat, passes[i].1)
        }
}

/// The world: every live cell under a unique identifier, and the registry of
/// the receptors attached to each cell's entity.
pub struct Simulation<R, B> {
    ecs: Ecs<R>,
    cells: Vec<(u128, Cell<B>)>,
    last_tick: Ghost<(Seq<B>, Seq<PassRecord<B>>)>,
}

impl<R, B> Simulation<R, B> {
    /// The live cells with their identifiers.
    pub closed spec fn cells(&self) -> Seq<(u128, Cell<B>)> {
        self.cells@
    }

    /// The receptors of each entity, in the order of attachment.
    pub closed spec fn registry(&self) -> Seq<Seq<R>> {
        self.ecs@
    }

    /// The bodies as they stood at the start of the last tick.
    pub closed spec fn last_snapshot(&self) -> Seq<B> {
        self.last_tick@.0
    }

    /// The pass each cell took in the last tick.
    pub closed spec fn last_passes(&self) -> Seq<PassRecord<B>> {
        self.last_tick@.1
    }

    /// Identifiers are unique and every cell's entity is registered.
    pub open spec fn wf(&self) -> bool {
        &&& unique_ids(self.cells())
        &&& forall|i: int|
            0 <= i < self.cells().len() ==> (#[trigger] self.cells()[i]).1.entity.index()
                < self.registry().len()
    }

    /// An empty world.
    pub fn new() -> (r: Self)
        ensures
            r.wf(),
            r.cells() == Seq::<(u128, Cell<B>)>::empty(),
            r.registry() == Seq::<Seq<R>>::empty(),
    {
        Simulation {
            ecs: Ecs::new(),
            cells: Vec::new(),
            last_tick: Ghost((Seq::empty(), Seq::empty())),
        }
    }

    /// The live cells with their identifiers.
    pub fn live_cells(&self) -> (r: &[(u128, Cell<B>)])
        ensures
            r@ == self.cells(),
    {
        self.cells.as_slice()
    }

    /// The receptors attached to `entity`.
    pub fn receptors_of(&self, entity: Entity) -> (r: &[R])
        requires
            entity.index() < self.registry().len(),
        ensures
            r@ == self.registry()[entity.index() as int],
    {
        self.ecs.components(entity)
    }

    /// The positions, in order, of every cell but the one identified by `id`.
    pub fn get_cells_without(&self, id: u128) -> (r: Vec<usize>)
        ensures
            r@.map_values(|k: usize| k as int) == indices_without(self.cells(), id),
    {
        let mut r: Vec<usize> = Vec::new();
        let mut k: usize = 0;
        while k < self.cells.len()
            invariant
                k <= self.cells@.len(),
                r@.map_values(|x: usize| x as int) == indices_without(
                    self.cells@.subrange(0, k as int),
                    id,
                ),
            decreases self.cells@.len() - k,
        {
            let ghost prefix = self.cells@.subrange(0, k as int);
            let ghost next = self.cells@.subrange(0, k + 1);
            assert(next.drop_last() =~= prefix);
            if self.cells[k].0 != id {
                r.push(k);
            }
            assert(r@.map_values(|x: usize| x as int) =~= indices_without(next, id));
            k += 1;
        }
        assert(self.cells@.subrange(0, self.cells@.len() as int) =~= self.cells@);
        r
    }

    /// Removes every cell whose health is gone and hands the removed cells
    /// back, in order, so that each death is reported exactly once.
    pub fn kill_dead_cells(&mut self) -> (dead: Vec<(u128, Cell<B>)>)
        requires
            old(self).wf(),
        ensures
            final(self).wf(),
            final(self).cells() == living(old(self).cells()),
            dead@ == dying(old(self).cells()),
            final(self).registry() == old(self).registry(),
            final(self).last_snapshot() == old(self).last_snapshot(),
            final(self).last_passes() == old(self).last_passes(),
    {
        let mut all: Vec<(u128, Cell<B>)> = Vec::new();
        std::mem::swap(&mut all, &mut self.cells);
        let ghost cells = all@;
        let mut alive: Vec<(u128, Cell<B>)> = Vec::new();
        let mut dead: Vec<(u128, Cell<B>)> = Vec::new();
        let ghost mut from: Seq<int> = Seq::empty();
        proof {
            reveal(Seq::filter);
            assert(cells.subrange(0, 0) =~= Seq::<(u128, Cell<B>)>::empty());
        }
        for entry in it: all.into_iter()
            invariant
                it.seq() == cells,
                unique_ids(cells),
                forall|i: int|
                    0 <= i < cells.len() ==> (#[trigger] cells[i]).1.entity.index()
                        < self.ecs@.len(),
                self.ecs@ == old(self).registry(),
                alive@ == living(cells.subrange(0, it.index() as int)),
                dead@ == dying(cells.subrange(0, it.index() as int)),
                from.len() == alive@.len(),
                forall|m: int|
                    0 <= m < from.len() ==> 0 <= #[trigger] from[m] < it.index() && alive@[m]
                        == cells[from[m]],
                forall|m: int, l: int| 0 <= m < l < from.len() ==> #[trigger] from[m] < #[trigger] from[l],
        {
            let ghost k = it.index() as int;
            let ghost before = cells.subrange(0, k);
            let ghost next = cells.subrange(0, k + 1);
            assert(next.drop_last() =~= before);
            assert(entry == cells[k]);
            assert(next.last() == entry);
            reveal(Seq::filter);
            assert(living(next) == if entry.1.health > 0 {
                living(before).push(entry)
            } else {
                living(before)
            });
            assert(dying(next) == if entry.1.health == 0 {
                dying(before).push(entry)
            } else {
                dying(before)
            });
            if entry.1.health > 0 {
                alive.push(entry);
                proof {
                    from = from.push(k);
                }
            } else {
                dead.push(entry);
            }
        }
        assert(cells.subrange(0, cells.len() as int) =~= cells);
        self.cells = alive;
        assert forall|m: int| 0 <= m < alive@.len() implies (#[trigger] alive@[m]).1.entity.index()
            < self.ecs@.len() by {
            assert(alive@[m] == cells[from[m]]);
        }
        assert forall|i: int, j: int|
            0 <= i < alive@.len() && 0 <= j < alive@.len() && i != j implies #[trigger] alive@[i].0
            != #[trigger] alive@[j].0 by {
            assert(from[i] != from[j]);
        }
        dead
    }
}

impl<R: Receptor<B>, B: Body> Simulation<R, B> {
    /// The bodies of all cells as they stand now.
    fn snapshot_bodies(&self) -> (r: Vec<B>)
        ensures
            r@.len() == self.cells().len(),
            forall|k: int| 0 <= k < r@.len() ==> cloned(self.cells()[k].1.body, #[trigger] r@[k]),
    {
        let mut r: Vec<B> = Vec::new();
        let mut k: usize = 0;
        while k < self.cells.len()
            invariant
                k <= self.cells@.len(),
                r@.len() == k,
                forall|j: int| 0 <= j < k ==> cloned(self.cells@[j].1.body, #[trigger] r@[j]),
            decreases self.cells@.len() - k,
        {
            let body = self.cells[k].1.body.clone();
            assert(cloned(self.cells@[k as int].1.body, body));
            r.push(body);
            k += 1;
        }
        r
    }

    /// Advances every cell by `dt` nanoseconds, then sweeps the dead away
    /// and returns them, in order. Bodies are taken as they stand at the
    /// start of the tick; then each cell, in order, moves, has its health
    /// updated, and runs its receptor pass against every other cell as it
    /// stood at that start, never against itself or a peer already moved in
    /// this tick. The record of the tick is kept in `last_snapshot` and
    /// `last_passes`.
    pub fn tick(&mut self, dt: u64) -> (dead: Vec<(u128, Cell<B>)>)
        requires
            old(self).wf(),
        ensures
            final(self).wf(),
            final(self).registry() == old(self).registry(),
            exists|next: Seq<(u128, Cell<B>)>|
                {
                    &&& #[trigger] advanced(
                        old(self).cells(),
                        next,
                        old(self).registry(),
                        final(self).last_snapshot(),
                        final(self).last_passes(),
                        dt as nat,
                    )
                    &&& final(self).cells() == living(next)
                    &&& dead@ == dying(next)
                },
    {
        let snapshot = self.snapshot_bodies();
        let n = self.cells.len();
        let ghost mut passes: Seq<PassRecord<B>> = Seq::empty();
        let mut i: usize = 0;
        while i < n
            invariant
                n == old(self).cells().len(),
                i <= n,
                snapshot@.len() == n,
                forall|p: int|
                    0 <= p < n ==> cloned(old(self).cells()[p].1.body, #[trigger] snapshot@[p]),
                self.wf(),
                self.registry() == old(self).registry(),
                self.cells().len() == n,
                passes.len() == i,
                forall|j: int|
                    i <= j < n ==> #[trigger] self.cells()[j] == old(self).cells()[j],
                forall|j: int|
                    0 <= j < i ==> {
                        let prev = old(self).cells()[j];
                        &&& (#[trigger] self.cells()[j]).0 == prev.0
                        &&& self.cells()[j].1.entity == prev.1.entity
                        &&& self.cells()[j].1.health == health_after(
                            prev.1.health as nat,
                            prev.1.energy as nat,
                            dt as nat,
                        )
                        &&& passes[j].1.len() == old(self).registry()[prev.1.entity.index() as int].len()
                        &&& passes[j].0 == receptor_pass(
                            indices_without(old(self).cells(), prev.0),
                            snapshot@,
                            passes[j].1,
                        )
                        &&& self.cells()[j].1.energy == pay_in_order(prev.1.energy as nat, passes[j].1)
                    },
            decreases n - i,
        {
            let id = self.cells[i].0;
            let entity = self.cells[i].1.entity;
            let peers = self.get_cells_without(id);
            proof {
                lemma_indices_without_members(self.cells(), id);
                lemma_indices_without_ids(self.cells(), old(self).cells(), id);
                assert forall|p: int| 0 <= p < peers@.len() implies #[trigger] peers@[p]
                    < snapshot@.len() && peers@[p] != i by {
                    assert(peers@.map_values(|x: usize| x as int)[p] == peers@[p] as int);
                    assert(indices_without(self.cells(), id).contains(peers@[p] as int));
                }
            }
            let receptors = self.ecs.components(entity);
            let slot = &mut self.cells[i];
            let record = slot.1.tick(receptors, &peers, &snapshot, dt, Ghost(i as int));
            proof {
                passes = passes.push(record@);
            }
            i += 1;
        }
        let ghost next = self.cells();
        self.last_tick = Ghost((snapshot@, passes));
        assert(advanced(
            old(self).cells(),
            next,
            old(self).registry(),
            self.last_snapshot(),
            self.last_passes(),
            dt as nat,
        ));
        self.kill_dead_cells()
    }
}

/// The positions `indices_without` picks depend on the identifiers alone.
proof fn lemma_indices_without_ids<B>(a: Seq<(u128, Cell<B>)>, b: Seq<(u128, Cell<B>)>, id: u128)
    requires
        a.len() == b.len(),
        forall|k: int| 0 <= k < a.len() ==> #[trigger] a[k].0 == b[k].0,
    ensures
        indices_without(a, id) == indices_without(b, id),
    decreases a.len(),
{
    if a.len() > 0 {
        let (pa, pb) = (a.drop_last(), b.drop_last());
        assert forall|k: int| 0 <= k < pa.len() implies #[trigger] pa[k].0 == pb[k].0 by {
            assert(pa[k] == a[k] && pb[k] == b[k]);
        }
        lemma_indices_without_ids(pa, pb, id);
        assert(a.last().0 == b.last().0);
    }
}

/// `entry` is a cell just created under `id` for the entity at `entity`,
/// with `body`, full health and the initial energy.
pub open spec fn newborn<B>(entry: (u128, Cell<B>), id: u128, entity: nat, body: B) -> bool {
    &&& entry.0 == id
    &&& entry.1.entity.index() == entity
    &&& entry.1.health == MAX_HEALTH
    &&& entry.1.energy == INITIAL_ENERGY
    &&& entry.1.body == body
}

/// `components` are what an entity created for `receptors` holds: the base
/// receptor first, then `receptors` in their order.
pub open spec fn attached<R: From<BaseReceptor>>(components: Seq<R>, receptors: Seq<R>) -> bool {
    &&& components.len() == receptors.len() + 1
    &&& components.subrange(1, components.len() as int) == receptors
    &&& <R as FromSpec<BaseReceptor>>::obeys_from_spec() ==> components[0]
        == <R as FromSpec<BaseReceptor>>::from_spec(BaseReceptor)
}

impl<R: From<BaseReceptor>, B> Simulation<R, B> {
    /// The position of the cell identified by `id`, if there is one.
    fn position_of(&self, id: u128) -> (r: Option<usize>)
        ensures
            match r {
                Some(k) => k < self.cells().len() && self.cells()[k as int].0 == id,
                None => forall|k: int| 0 <= k < self.cells().len() ==> #[trigger] self.cells()[k].0 != id,
            },
    {
        let mut k: usize = 0;
        while k < self.cells.len()
            invariant
                k <= self.cells@.len(),
                forall|j: int| 0 <= j < k ==> #[trigger] self.cells@[j].0 != id,
            decreases self.cells@.len() - k,
        {
            if self.cells[k].0 == id {
                return Some(k);
            }
            k += 1;
        }
        None
    }

    /// Registers a new entity carrying the base receptor and then `receptors`.
    fn create_cell_entity(&mut self, receptors: Vec<R>) -> (r: Entity)
        requires
            old(self).registry().len() < usize::MAX,
        ensures
            r.index() == old(self).registry().len(),
            final(self).registry().len() == old(self).registry().len() + 1,
            final(self).registry().subrange(0, r.index() as int) == old(self).registry(),
            attached(final(self).registry()[r.index() as int], receptors@),
            final(self).cells() == old(self).cells(),
    {
        let entity = self.ecs.entity();
        self.ecs.add_component(entity, R::from(BaseReceptor::new()));
        let ghost first = self.ecs@[entity.index() as int][0];
        let ghost all = receptors@;
        proof {
            assert(self.ecs@[entity.index() as int] =~= seq![first].add(all.subrange(0, 0)));
        }
        for receptor in it: receptors.into_iter()
            invariant
                it.seq() == all,
                entity.index() == old(self).registry().len(),
                self.ecs@.len() == old(self).registry().len() + 1,
                self.ecs@.subrange(0, entity.index() as int) == old(self).registry(),
                self.ecs@[entity.index() as int] == seq![first].add(
                    all.subrange(0, it.index() as int),
                ),
                <R as FromSpec<BaseReceptor>>::obeys_from_spec() ==> first
                    == <R as FromSpec<BaseReceptor>>::from_spec(BaseReceptor),
                self.cells@ == old(self).cells(),
        {
            let ghost k = it.index() as int;
            assert(receptor == all[k]);
            self.ecs.add_component(entity, receptor);
            assert(self.ecs@[entity.index() as int] =~= seq![first].add(all.subrange(0, k + 1)));
            assert(self.ecs@.subrange(0, entity.index() as int) =~= old(self).registry());
        }
        assert(self.ecs@[entity.index() as int].subrange(1, all.len() + 1 as int) =~= all);
        entity
    }

    /// Creates a cell with `body`, full health and the initial energy, under
    /// a fresh entity that carries the base receptor and then `receptors`,
    /// and files it under `id`. If a cell already carries `id`, the new cell
    /// takes its place; otherwise it is appended.
    pub fn insert_cell(&mut self, id: u128, body: B, receptors: Vec<R>)
        requires
            old(self).wf(),
            old(self).registry().len() < usize::MAX,
        ensures
            final(self).wf(),
            final(self).registry().len() == old(self).registry().len() + 1,
            final(self).registry().subrange(0, old(self).registry().len() as int) == old(
                self,
            ).registry(),
            attached(final(self).registry().last(), receptors@),
            forall|k: int|
                0 <= k < old(self).cells().len() && #[trigger] old(self).cells()[k].0 == id ==> {
                    &&& final(self).cells() == old(self).cells().update(k, final(self).cells()[k])
                    &&& newborn(final(self).cells()[k], id, old(self).registry().len(), body)
                },
            (forall|k: int| 0 <= k < old(self).cells().len() ==> #[trigger] old(self).cells()[k].0 != id)
                ==> {
                &&& final(self).cells() == old(self).cells().push(final(self).cells().last())
                &&& newborn(final(self).cells().last(), id, old(self).registry().len(), body)
            },
    {
        let entity = self.create_cell_entity(receptors);
        let cell = Cell::new(entity, body);
        match self.position_of(id) {
            Some(k) => {
                self.cells.set(k, (id, cell));
                assert(self.cells()[k as int] == (id, cell));
                assert forall|j: int|
                    0 <= j < old(self).cells().len() && #[trigger] old(self).cells()[j].0 == id implies j
                    == k by {}
            },
            None => {
                self.cells.push((id, cell));
                assert(self.cells()[old(self).cells().len() as int] == (id, cell));
            },
        }
        assert(self.registry().last() == self.registry()[entity.index() as int]);
    }

    /// Creates a cell with `body`, full health and the initial energy, under
    /// a fresh entity that carries the base receptor and then `receptors`.
    /// The cell is filed under a random identifier; should that identifier
    /// already be taken, the new cell takes the old one's place.
    pub fn add_cell(&mut self, body: B, receptors: Vec<R>)
        requires
            old(self).wf(),
            old(self).registry().len() < usize::MAX,
        ensures
            final(self).wf(),
            final(self).registry().len() == old(self).registry().len() + 1,
            final(self).registry().subrange(0, old(self).registry().len() as int) == old(
                self,
            ).registry(),
            attached(final(self).registry().last(), receptors@),
            exists|k: int|
                #![trigger final(self).cells()[k]]
                {
                    let c = final(self).cells()[k];
                    &&& 0 <= k <= old(self).cells().len()
                    &&& newborn(c, c.0, old(self).registry().len(), body)
                    &&& k < old(self).cells().len() ==> old(self).cells()[k].0 == c.0
                        && final(self).cells() == old(self).cells().update(k, c)
                    &&& k == old(self).cells().len() ==> (forall|j: int|
                        0 <= j < old(self).cells().len() ==> #[trigger] old(self).cells()[j].0
                            != c.0) && final(self).cells() == old(self).cells().push(c)
                },
    {
        let id = fresh_id();
        self.insert_cell(id, body, receptors);
        proof {
            if exists|k: int| 0 <= k < old(self).cells().len() && #[trigger] old(self).cells()[k].0 == id {
                let k = choose|k: int| 0 <= k < old(self).cells().len() && #[trigger] old(self).cells()[k].0 == id;
                assert(newborn(self.cells()[k], id, old(self).registry().len(), body));
            } else {
                let k = old(self).cells().len() as int;
                assert(newborn(self.cells()[k], id, old(self).registry().len(), body));
            }
        }
    }
}

/// A cell is never its own peer, and every other cell is one: the peers of
/// the cell at position `i` are exactly the positions other than `i`.
pub proof fn lemma_no_self_interaction<B>(cells: Seq<(u128, Cell<B>)>, i: int)
    requires
        unique_ids(cells),
        0 <= i < cells.len(),
    ensures
        !indices_without(cells, cells[i].0).contains(i),
        forall|j: int|
            0 <= j < cells.len() && j != i ==> #[trigger] indices_without(
                cells,
                cells[i].0,
            ).contains(j),
{
    lemma_indices_without_members(cells, cells[i].0);
}

/// `k` is among `indices_without(cells, id)` exactly when it is a position of
/// `cells` whose identifier is not `id`.
proof fn lemma_indices_without_members<B>(cells: Seq<(u128, Cell<B>)>, id: u128)
    ensures
        forall|k: int|
            #[trigger] indices_without(cells, id).contains(k) <==> (0 <= k < cells.len()
                && cells[k].0 != id),
    decreases cells.len(),
{
    if cells.len() > 0 {
        let prefix = cells.drop_last();
        lemma_indices_without_members(prefix, id);
        let rest = indices_without(prefix, id);
        assert forall|k: int|
            #[trigger] indices_without(cells, id).contains(k) <==> (0 <= k < cells.len()
                && cells[k].0 != id) by {
            let last = cells.len() - 1;
            if 0 <= k < last {
                assert(prefix[k] == cells[k]);
            }
            assert(rest.contains(k) <==> (0 <= k < last && cells[k].0 != id));
            if cells.last().0 != id {
                let full = rest.push(last);
                assert(full[rest.len() as int] == last);
                if rest.contains(k) {
                    let w = choose|w: int| 0 <= w < rest.len() && #[trigger] rest[w] == k;
                    assert(full[w] == k);
                }
                if full.contains(k) && k != last {
                    let w = choose|w: int| 0 <= w < full.len() && #[trigger] full[w] == k;
                    assert(rest[w] == k);
                }
            }
        }
    }
}

/// Filtering keeps identifiers unique.
proof fn lemma_filter_unique_ids<B>(cells: Seq<(u128, Cell<B>)>, pred: spec_fn((u128, Cell<B>)) -> bool)
    requires
        unique_ids(cells),
    ensures
        unique_ids(cells.filter(pred)),
    decreases cells.len(),
{
    reveal(Seq::filter);
    if cells.len() > 0 {
        let prefix = cells.drop_last();
        assert(unique_ids(prefix)) by {
            assert forall|i: int, j: int|
                0 <= i < prefix.len() && 0 <= j < prefix.len() && i != j implies #[trigger] prefix[i].0
                != #[trigger] prefix[j].0 by {
                assert(prefix[i] == cells[i] && prefix[j] == cells[j]);
            }
        }
        lemma_filter_unique_ids(prefix, pred);
        let kept = prefix.filter(pred);
        if pred(cells.last()) {
            assert forall|m: int| 0 <= m < kept.len() implies #[trigger] kept[m].0 != cells.last().0 by {
                prefix.lemma_filter_contains_rev(pred, kept[m]);
                let w = choose|w: int| 0 <= w < prefix.len() && #[trigger] prefix[w] == kept[m];
                assert(cells[w] == prefix[w]);
            }
            let all = kept.push(cells.last());
            assert forall|i: int, j: int|
                0 <= i < all.len() && 0 <= j < all.len() && i != j implies #[trigger] all[i].0
                != #[trigger] all[j].0 by {
                if i < kept.len() && j < kept.len() {
                    assert(kept[i].0 != kept[j].0);
                } else if i < kept.len() {
                    assert(kept[i].0 != cells.last().0);
                } else {
                    assert(kept[j].0 != cells.last().0);
                }
            }
        }
    }
}

/// A cell whose health is gone leaves the world at the sweep and is handed
/// back exactly once, as it stood: no survivor carries its identifier, and
/// exactly one removed entry does, which is the cell itself.
pub proof fn lemma_dead_cell_reported_once<B>(cells: Seq<(u128, Cell<B>)>, i: int)
    requires
        unique_ids(cells),
        0 <= i < cells.len(),
        cells[i].1.health == 0,
    ensures
        forall|m: int| 0 <= m < living(cells).len() ==> #[trigger] living(cells)[m].0 != cells[i].0,
        exists|m: int|
            0 <= m < dying(cells).len() && #[trigger] dying(cells)[m] == cells[i] && forall|l: int|
                0 <= l < dying(cells).len() && l != m ==> #[trigger] dying(cells)[l].0 != cells[i].0,
{
    let alive = |c: (u128, Cell<B>)| c.1.health > 0;
    let gone = |c: (u128, Cell<B>)| c.1.health == 0;
    broadcast use vstd::seq_lib::group_filter_ensures;

    assert forall|m: int| 0 <= m < living(cells).len() implies #[trigger] living(cells)[m].0
        != cells[i].0 by {
        cells.lemma_filter_contains_rev(alive, living(cells)[m]);
        let w = choose|w: int| 0 <= w < cells.len() && #[trigger] cells[w] == living(cells)[m];
        assert(w != i);
    }
    lemma_filter_unique_ids(cells, gone);
    assert(dying(cells).contains(cells[i]));
    let m = choose|m: int| 0 <= m < dying(cells).len() && #[trigger] dying(cells)[m] == cells[i];
    assert forall|l: int| 0 <= l < dying(cells).len() && l != m implies #[trigger] dying(
        cells,
    )[l].0 != cells[i].0 by {
        assert(dying(cells)[l].0 != dying(cells)[m].0);
    }
}

/// With unique identifiers, the peers of the cell at position `i` are all
/// the other positions: one fewer than there are cells.
proof fn lemma_peer_count<B>(cells: Seq<(u128, Cell<B>)>, i: int)
    requires
        unique_ids(cells),
        0 <= i < cells.len(),
    ensures
        indices_without(cells, cells[i].0).len() == cells.len() - 1,
    decreases cells.len(),
{
    let id = cells[i].0;
    let prefix = cells.drop_last();
    assert(unique_ids(prefix)) by {
        assert forall|a: int, b: int|
            0 <= a < prefix.len() && 0 <= b < prefix.len() && a != b implies #[trigger] prefix[a].0
            != #[trigger] prefix[b].0 by {
            assert(prefix[a] == cells[a] && prefix[b] == cells[b]);
        }
    }
    if i == cells.len() - 1 {
        lemma_no_match_keeps_all(prefix, id);
    } else {
        assert(prefix[i] == cells[i]);
        lemma_peer_count(prefix, i);
    }
}

/// Where no entry carries `id`, every position is kept.
proof fn lemma_no_match_keeps_all<B>(cells: Seq<(u128, Cell<B>)>, id: u128)
    requires
        forall|k: int| 0 <= k < cells.len() ==> #[trigger] cells[k].0 != id,
    ensures
        indices_without(cells, id).len() == cells.len(),
    decreases cells.len(),
{
    if cells.len() > 0 {
        let prefix = cells.drop_last();
        assert forall|k: int| 0 <= k < prefix.len() implies #[trigger] prefix[k].0 != id by {
            assert(prefix[k] == cells[k]);
        }
        lemma_no_match_keeps_all(prefix, id);
    }
}

/// In a tick, each accumulator of a cell is fed every other cell, as it
/// stood at the start of the tick, and never the cell itself: every
/// interaction step of cell `i` takes in a peer at a position other than
/// `i`, with that peer's start-of-tick body; every accumulator of cell `i`
/// takes in every other position; and there are exactly as many interaction
/// steps as accumulators times other cells.
pub proof fn lemma_tick_peers<R, B: Clone>(
    prev: Seq<(u128, Cell<B>)>,
    next: Seq<(u128, Cell<B>)>,
    registry: Seq<Seq<R>>,
    snapshot: Seq<B>,
    passes: Seq<PassRecord<B>>,
    dt: nat,
    i: int,
)
    requires
        unique_ids(prev),
        advanced(prev, next, registry, snapshot, passes, dt),
        0 <= i < prev.len(),
    ensures
        forall|t: int|
            0 <= t < passes[i].0.len() && (#[trigger] passes[i].0[t]) is Add ==> {
                let s = passes[i].0[t];
                &&& 0 <= s->Add_0 < passes[i].1.len()
                &&& 0 <= s->Add_1 < prev.len()
                &&& s->Add_1 != i
                &&& s->Add_2 == snapshot[s->Add_1]
            },
        forall|k: int, j: int|
            0 <= k < passes[i].1.len() && 0 <= j < prev.len() && j != i ==> #[trigger] passes[i].0.contains(
                Step::Add(k, j, #[trigger] snapshot[j]),
            ),
        interactions(passes[i].0).len() == passes[i].1.len() * (prev.len() - 1),
{
    let costs = passes[i].1;
    let peers = indices_without(prev, prev[i].0);
    assert(next[i].0 == prev[i].0);
    assert(passes[i].0 == receptor_pass(peers, snapshot, costs));
    lemma_receptor_pass_shape(peers, snapshot, costs);
    lemma_indices_without_members(prev, prev[i].0);
    lemma_peer_count(prev, i);
    assert forall|k: int, j: int|
        0 <= k < costs.len() && 0 <= j < prev.len() && j != i implies #[trigger] passes[i].0.contains(
        Step::Add(k, j, #[trigger] snapshot[j]),
    ) by {
        assert(peers.contains(j));
        let w = choose|w: int| 0 <= w < peers.len() && peers[w] == j;
        assert(receptor_pass(peers, snapshot, costs).contains(
            Step::Add(k, peers[w], snapshot[peers[w]]),
        ));
    }
}

} // verus!
