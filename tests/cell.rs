use cell_life::cell::{Cell, Fraction, INITIAL_ENERGY, MAX_HEALTH, UNIT};
use cell_life::ecs::Ecs;

fn fresh_cell() -> Cell<()> {
    let mut ecs: Ecs<()> = Ecs::new();
    let entity = ecs.entity();
    Cell::new(entity, ())
}

#[test]
fn new_cell_has_full_health_and_initial_energy() {
    let cell = fresh_cell();
    assert_eq!(cell.health, MAX_HEALTH);
    assert_eq!(cell.energy, INITIAL_ENERGY);
    assert_eq!(cell.energy, 10 * UNIT);
    assert!(cell.is_alive());
}

#[test]
fn affordable_cost_is_paid_in_full() {
    let mut cell = fresh_cell();
    let granted = cell.consume_energy(4 * UNIT);
    assert_eq!(cell.energy, 6 * UNIT);
    assert_eq!(granted.num, granted.den);
    assert_eq!(granted, Fraction::whole());
}

#[test]
fn exact_cost_empties_energy_and_is_whole() {
    let mut cell = fresh_cell();
    let granted = cell.consume_energy(INITIAL_ENERGY);
    assert_eq!(cell.energy, 0);
    assert_eq!(granted.num, granted.den);
}

#[test]
fn unaffordable_cost_yields_partial_fraction() {
    let mut cell = fresh_cell();
    let granted = cell.consume_energy(40 * UNIT);
    assert_eq!(cell.energy, 0);
    assert_eq!(granted, Fraction { num: 10 * UNIT, den: 40 * UNIT });
    let share = granted.num as f64 / granted.den as f64;
    assert!((share - 0.25).abs() < 1e-12);
}

#[test]
fn empty_cell_pays_nothing() {
    let mut cell = fresh_cell();
    cell.energy = 0;
    let granted = cell.consume_energy(5);
    assert_eq!(cell.energy, 0);
    assert_eq!(granted.num, 0);
    assert_eq!(granted.den, 5);
}

#[test]
fn free_request_on_empty_cell_is_whole() {
    let mut cell = fresh_cell();
    cell.energy = 0;
    let granted = cell.consume_energy(0);
    assert_eq!(cell.energy, 0);
    assert_eq!(granted.num, granted.den);
}

#[test]
fn fraction_never_exceeds_one() {
    for energy in [0u64, 1, 7, UNIT, u64::MAX] {
        for cost in [0u64, 1, 3, UNIT, u64::MAX] {
            let mut cell = fresh_cell();
            cell.energy = energy;
            let granted = cell.consume_energy(cost);
            assert!(granted.den > 0);
            assert!(granted.num <= granted.den);
            assert!(cell.energy <= energy);
        }
    }
}

#[test]
fn fed_cell_regenerates_up_to_max() {
    let mut cell = fresh_cell();
    cell.health = UNIT;
    cell.handle_health(2_000_000_000);
    assert_eq!(cell.health, UNIT + 400_000_000);
    cell.handle_health(60_000_000_000);
    assert_eq!(cell.health, MAX_HEALTH);
}

#[test]
fn full_health_stays_full_over_one_frame() {
    let mut cell = fresh_cell();
    cell.handle_health(16_666_667);
    assert_eq!(cell.health, MAX_HEALTH);
}

#[test]
fn starving_cell_loses_health_until_dead() {
    let mut cell = fresh_cell();
    cell.energy = 0;
    cell.handle_health(5_000_000_000);
    assert_eq!(cell.health, MAX_HEALTH - UNIT);
    assert!(cell.is_alive());
    cell.handle_health(100_000_000_000);
    assert_eq!(cell.health, 0);
    assert!(!cell.is_alive());
}
