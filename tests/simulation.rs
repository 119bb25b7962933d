use cell_life::cell::{Fraction, INITIAL_ENERGY, MAX_HEALTH};
use cell_life::receptor::{BaseReceptor, Body, InteractionAccumulator, Receptor};
use cell_life::simulation::Simulation;
use cell_life::timing::FRAME_NANOS;

/// A stand-in body that records what the engine did to it.
#[derive(Clone, Debug, PartialEq)]
struct Probe {
    tag: u32,
    size: u64,
    moves: u32,
    force: u64,
    applied: Option<u64>,
    peers_seen: Vec<u32>,
    peer_moves_seen: Vec<u32>,
    completes: u32,
    late_interactions: u32,
    order: Vec<&'static str>,
}

impl Probe {
    fn new(tag: u32, size: u64) -> Self {
        Probe {
            tag,
            size,
            moves: 0,
            force: 0,
            applied: None,
            peers_seen: Vec::new(),
            peer_moves_seen: Vec::new(),
            completes: 0,
            late_interactions: 0,
            order: Vec::new(),
        }
    }
}

impl Body for Probe {
    fn sim_movement(&mut self, _dt: u64) {
        self.moves += 1;
        self.order.push("move");
    }

    fn clear_force(&mut self) {
        self.force = 0;
        self.order.push("clear");
    }

    fn apply_force(&mut self) {
        self.applied = Some(self.force);
        self.order.push("apply");
    }
}

#[derive(Debug, Clone, PartialEq)]
enum TestReceptor {
    Base,
    /// Pulls with the given cost per peer.
    Pull(u64),
}

impl From<BaseReceptor> for TestReceptor {
    fn from(_: BaseReceptor) -> Self {
        TestReceptor::Base
    }
}

struct TestAccumulator {
    kind: TestReceptor,
    peers: Vec<u32>,
    peer_moves: Vec<u32>,
    late: u32,
    mass: u64,
}

impl InteractionAccumulator<Probe> for TestAccumulator {
    fn add_interaction(&mut self, cell: &Probe, other_cell: &Probe) {
        if cell.completes > 0 {
            self.late += 1;
        }
        self.peers.push(other_cell.tag);
        self.peer_moves.push(other_cell.moves);
        self.mass += other_cell.size * other_cell.size;
    }

    fn energy_cost(&self, _cell: &Probe) -> u64 {
        match self.kind {
            TestReceptor::Base => 0,
            TestReceptor::Pull(per_peer) => per_peer * self.peers.len() as u64,
        }
    }

    fn complete(&mut self, cell: &mut Probe, granted: Fraction) {
        if self.kind == TestReceptor::Base {
            cell.peers_seen.extend(self.peers.iter().copied());
            cell.peer_moves_seen.extend(self.peer_moves.iter().copied());
        }
        cell.completes += 1;
        cell.late_interactions += self.late;
        cell.force += self.mass * granted.num / granted.den;
        cell.order.push("complete");
    }
}

impl Receptor<Probe> for TestReceptor {
    type Accumulator = TestAccumulator;

    fn interaction_accumulator(&self) -> TestAccumulator {
        TestAccumulator {
            kind: self.clone(),
            peers: Vec::new(),
            peer_moves: Vec::new(),
            late: 0,
            mass: 0,
        }
    }
}

fn three_cells() -> Simulation<TestReceptor, Probe> {
    let mut sim = Simulation::new();
    sim.add_cell(Probe::new(1, 10), vec![TestReceptor::Pull(1_000)]);
    sim.add_cell(Probe::new(2, 3), vec![]);
    sim.add_cell(Probe::new(3, 5), vec![TestReceptor::Pull(0)]);
    sim
}

fn find(sim: &Simulation<TestReceptor, Probe>, tag: u32) -> &(u128, cell_life::cell::Cell<Probe>) {
    sim.live_cells().iter().find(|(_, c)| c.body.tag == tag).unwrap()
}

#[test]
fn add_cell_attaches_base_receptor_first() {
    let sim = three_cells();
    let (_, first) = find(&sim, 1);
    assert_eq!(sim.receptors_of(first.entity), &[TestReceptor::Base, TestReceptor::Pull(1_000)]);
    let (_, second) = find(&sim, 2);
    assert_eq!(sim.receptors_of(second.entity), &[TestReceptor::Base]);
    assert_eq!(first.health, MAX_HEALTH);
    assert_eq!(first.energy, INITIAL_ENERGY);
}

#[test]
fn cells_get_distinct_version_four_identifiers() {
    let sim = three_cells();
    let ids: Vec<u128> = sim.live_cells().iter().map(|(id, _)| *id).collect();
    assert_eq!(ids.len(), 3);
    assert!(ids[0] != ids[1] && ids[1] != ids[2] && ids[0] != ids[2]);
    for id in ids {
        assert_eq!((id >> 76) & 0xf, 4);
    }
}

#[test]
fn get_cells_without_skips_only_the_given_cell() {
    let sim = three_cells();
    let ids: Vec<u128> = sim.live_cells().iter().map(|(id, _)| *id).collect();
    assert_eq!(sim.get_cells_without(ids[1]), vec![0, 2]);
    assert_eq!(sim.get_cells_without(ids[0]), vec![1, 2]);
    assert_eq!(sim.get_cells_without(0), vec![0, 1, 2]);
}

#[test]
fn no_cell_interacts_with_itself() {
    let mut sim = three_cells();
    let dead = sim.tick(FRAME_NANOS);
    assert!(dead.is_empty());
    for (_, cell) in sim.live_cells() {
        let mut seen = cell.body.peers_seen.clone();
        seen.sort();
        let expected: Vec<u32> = (1..=3).filter(|&t| t != cell.body.tag).collect();
        assert_eq!(seen, expected);
    }
}

#[test]
fn one_frame_keeps_everyone_alive_and_charges_only_pulling_cells() {
    let mut sim = three_cells();
    let dead = sim.tick(FRAME_NANOS);
    assert!(dead.is_empty());
    assert_eq!(sim.live_cells().len(), 3);
    for (_, cell) in sim.live_cells() {
        assert_eq!(cell.health, MAX_HEALTH);
        assert_eq!(cell.body.moves, 1);
    }
    assert_eq!(find(&sim, 1).1.energy, INITIAL_ENERGY - 2_000);
    assert_eq!(find(&sim, 2).1.energy, INITIAL_ENERGY);
    assert_eq!(find(&sim, 3).1.energy, INITIAL_ENERGY);
}

#[test]
fn each_cell_follows_the_tick_order() {
    let mut sim = three_cells();
    sim.tick(FRAME_NANOS);
    let first = &find(&sim, 1).1.body;
    assert_eq!(first.order, vec!["move", "clear", "complete", "complete", "apply"]);
    let second = &find(&sim, 2).1.body;
    assert_eq!(second.order, vec!["move", "clear", "complete", "apply"]);
    assert_eq!(second.applied, Some(10 * 10 + 5 * 5));
}

#[test]
fn starved_pull_is_scaled_by_the_affordable_share() {
    let mut sim: Simulation<TestReceptor, Probe> = Simulation::new();
    sim.add_cell(Probe::new(1, 2), vec![TestReceptor::Pull(INITIAL_ENERGY * 4)]);
    sim.add_cell(Probe::new(2, 4), vec![]);
    sim.tick(FRAME_NANOS);
    let puller = &find(&sim, 1).1;
    assert_eq!(puller.energy, 0);
    // base pull 16 in full, the paid pull 16 at a quarter
    assert_eq!(puller.body.applied, Some(16 + 4));
}

#[test]
fn dead_cells_are_removed_and_reported_once() {
    let mut sim: Simulation<TestReceptor, Probe> = Simulation::new();
    sim.add_cell(Probe::new(1, 2), vec![TestReceptor::Pull(INITIAL_ENERGY)]);
    sim.add_cell(Probe::new(2, 4), vec![]);
    // the first tick spends all of the first cell's energy
    let dead = sim.tick(FRAME_NANOS);
    assert!(dead.is_empty());
    assert_eq!(find(&sim, 1).1.energy, 0);
    // fifteen seconds of starvation take three units of health
    let dead = sim.tick(15_000_000_000);
    assert_eq!(dead.len(), 1);
    assert_eq!(dead[0].1.body.tag, 1);
    assert_eq!(dead[0].1.health, 0);
    assert_eq!(dead[0].1.body.moves, 2);
    assert_eq!(sim.live_cells().len(), 1);
    assert_eq!(sim.live_cells()[0].1.body.tag, 2);
    assert!(sim.live_cells().iter().all(|(id, _)| *id != dead[0].0));
    let dead = sim.tick(FRAME_NANOS);
    assert!(dead.is_empty());
}

#[test]
fn kill_dead_cells_keeps_living_order() {
    let mut sim: Simulation<TestReceptor, Probe> = Simulation::new();
    for tag in 1..=4 {
        sim.add_cell(Probe::new(tag, 1), vec![]);
    }
    let before: Vec<u32> = sim.live_cells().iter().map(|(_, c)| c.body.tag).collect();
    let dead = sim.kill_dead_cells();
    assert!(dead.is_empty());
    let after: Vec<u32> = sim.live_cells().iter().map(|(_, c)| c.body.tag).collect();
    assert_eq!(before, after);
}

#[test]
fn empty_world_ticks_to_nothing() {
    let mut sim: Simulation<TestReceptor, Probe> = Simulation::new();
    assert!(sim.tick(FRAME_NANOS).is_empty());
    assert!(sim.live_cells().is_empty());
}

#[test]
fn peers_are_seen_as_they_stood_at_the_start_of_the_tick() {
    let mut sim = three_cells();
    sim.tick(FRAME_NANOS);
    for (_, cell) in sim.live_cells() {
        assert_eq!(cell.body.peer_moves_seen, vec![0, 0]);
    }
    sim.tick(FRAME_NANOS);
    for (_, cell) in sim.live_cells() {
        assert_eq!(cell.body.peer_moves_seen, vec![0, 0, 1, 1]);
    }
}

#[test]
fn every_interaction_comes_before_any_completion() {
    let mut sim = three_cells();
    sim.tick(FRAME_NANOS);
    for (_, cell) in sim.live_cells() {
        assert_eq!(cell.body.late_interactions, 0);
        let receptors = sim.receptors_of(cell.entity).len() as u32;
        assert_eq!(cell.body.completes, receptors);
    }
}

#[test]
fn insert_cell_appends_a_new_identifier() {
    let mut sim: Simulation<TestReceptor, Probe> = Simulation::new();
    sim.insert_cell(7, Probe::new(1, 2), vec![]);
    sim.insert_cell(9, Probe::new(2, 3), vec![TestReceptor::Pull(5)]);
    let ids: Vec<u128> = sim.live_cells().iter().map(|(id, _)| *id).collect();
    assert_eq!(ids, vec![7, 9]);
    let (_, second) = &sim.live_cells()[1];
    assert_eq!(sim.receptors_of(second.entity), &[TestReceptor::Base, TestReceptor::Pull(5)]);
    assert_eq!(second.health, MAX_HEALTH);
    assert_eq!(second.energy, INITIAL_ENERGY);
}

#[test]
fn insert_cell_replaces_a_taken_identifier() {
    let mut sim: Simulation<TestReceptor, Probe> = Simulation::new();
    sim.insert_cell(7, Probe::new(1, 2), vec![]);
    sim.insert_cell(9, Probe::new(2, 3), vec![]);
    sim.insert_cell(7, Probe::new(3, 4), vec![TestReceptor::Pull(1)]);
    let cells = sim.live_cells();
    assert_eq!(cells.len(), 2);
    assert_eq!(cells[0].0, 7);
    assert_eq!(cells[0].1.body.tag, 3);
    assert_eq!(sim.receptors_of(cells[0].1.entity), &[TestReceptor::Base, TestReceptor::Pull(1)]);
    assert_eq!(cells[1].1.body.tag, 2);
}
