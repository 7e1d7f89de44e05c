//! End-to-end simulations started from hand-built section layouts.

use ewok::event::Event;
use ewok::event::Event::{AddNode, RemoveNodeFrom};
use ewok::event_schedule::EventSchedule;
use ewok::name::Prefix;
use ewok::params::{NodeParams, SimulationParams};
use ewok::random::random_name;
use ewok::simulation::Simulation;

fn default_params() -> SimulationParams {
    SimulationParams {
        max_delay: 5,
        starting_complete: 0,
        grow_complete: 0,
        stable_steps: 1000,
        grow_join_enabled: false,
        shrink_drop_enabled: false,
        prob_deliver_num: 1,
        prob_deliver_den: 2,
    }
}

fn schedule(entries: Vec<(u64, Vec<Event>)>) -> EventSchedule {
    EventSchedule::new(entries)
}

fn p0() -> Prefix {
    Prefix::short(1, 0)
}
fn p1() -> Prefix {
    Prefix::short(1, 0b10000000)
}
fn p00() -> Prefix {
    Prefix::short(2, 0b00000000)
}
fn p01() -> Prefix {
    Prefix::short(2, 0b01000000)
}
fn p10() -> Prefix {
    Prefix::short(2, 0b10000000)
}
fn p11() -> Prefix {
    Prefix::short(2, 0b11000000)
}
fn p010() -> Prefix {
    Prefix::short(3, 0b01000000)
}
fn p100() -> Prefix {
    Prefix::short(3, 0b10000000)
}
fn p110() -> Prefix {
    Prefix::short(3, 0b11000000)
}
fn p111() -> Prefix {
    Prefix::short(3, 0b11100000)
}
fn p0110() -> Prefix {
    Prefix::short(4, 0b01100000)
}
fn p0111() -> Prefix {
    Prefix::short(4, 0b01110000)
}
fn p1010() -> Prefix {
    Prefix::short(4, 0b10100000)
}
fn p1011() -> Prefix {
    Prefix::short(4, 0b10110000)
}

#[test]
fn four_sections() {
    let params = default_params();
    let node_params = NodeParams::default();
    let n = node_params.min_section_size;

    let sections = vec![(p00(), n), (p01(), n), (p10(), n), (p11(), n)];

    let event_schedule = schedule(vec![
        (0, vec![RemoveNodeFrom(p00()), RemoveNodeFrom(p01())]),
        (3, vec![RemoveNodeFrom(p01())]),
    ]);

    let mut simulation = Simulation::new_from(sections, event_schedule, params, node_params);

    simulation.run().unwrap();
}

// 00 and 01 merge into 0 at the same time that 10 and 11 merge into 1.
#[test]
fn parallel_merge() {
    let params = SimulationParams { max_delay: 20, ..default_params() };
    let node_params = NodeParams::default();
    let n = node_params.min_section_size;

    let sections = vec![(p00(), n), (p01(), n), (p10(), n), (p11(), n)];

    let event_schedule = schedule(vec![
        (0, vec![RemoveNodeFrom(p00()), RemoveNodeFrom(p11())]),
    ]);

    let mut simulation = Simulation::new_from(sections, event_schedule, params, node_params);

    simulation.run().unwrap();
}

#[test]
fn parallel_cascading_merges() {
    let params = SimulationParams { max_delay: 20, ..default_params() };
    let node_params = NodeParams::default();
    let n = node_params.min_section_size;

    let sections = vec![
        (p00(), n),
        (p010(), n),
        (p0110(), n),
        (p0111(), n),
        (p100(), n),
        (p1010(), n),
        (p1011(), n),
        (p11(), n),
    ];

    let event_schedule = schedule(vec![
        (0, vec![
            RemoveNodeFrom(p00()),
            RemoveNodeFrom(p010()),
            RemoveNodeFrom(p100()),
            RemoveNodeFrom(p11()),
        ]),
    ]);

    let mut simulation = Simulation::new_from(sections, event_schedule, params, node_params);

    let final_blocks = simulation.run().unwrap();

    // Check that only 4 nodes were lost.
    let total_nodes: usize = final_blocks.iter().map(|(_, b)| b.members.len()).sum();
    assert_eq!(total_nodes, 8 * n - 4);
}

#[test]
fn two_drop_one_join() {
    let num_initial = 6;
    let params = SimulationParams { max_delay: 100, ..default_params() };
    let node_params = NodeParams {
        min_section_size: 0,
        split_buffer: 1000,
        ..NodeParams::default()
    };

    let sections = vec![(Prefix::empty(), num_initial)];

    let event_schedule = schedule(vec![
        (0, vec![
            RemoveNodeFrom(Prefix::empty()),
            RemoveNodeFrom(Prefix::empty()),
            AddNode(random_name()),
        ]),
    ]);

    let mut simulation = Simulation::new_from(sections, event_schedule, params, node_params);

    let final_blocks = simulation.run().unwrap();
    // Six initial nodes, two drops and one join: five remain.
    let total_nodes: usize = final_blocks.iter().map(|(_, b)| b.members.len()).sum();
    assert_eq!(total_nodes, 5);
}

#[test]
fn two_drop_merge() {
    let params = default_params();
    let node_params = NodeParams::default();
    let n = node_params.min_section_size;

    let sections = vec![(p0(), n), (p1(), n)];

    let event_schedule = schedule(vec![
        (0, vec![RemoveNodeFrom(p0()), RemoveNodeFrom(p0())]),
    ]);

    let mut simulation = Simulation::new_from(sections, event_schedule, params, node_params);
    simulation.run().unwrap();
}

#[test]
fn cascading_merge() {
    let params = default_params();
    let node_params = NodeParams::default();
    let n = node_params.min_section_size;

    let sections = vec![(p0(), n), (p10(), n), (p11(), n)];

    let event_schedule = schedule(vec![(0, vec![RemoveNodeFrom(p0())])]);

    let mut simulation = Simulation::new_from(sections, event_schedule, params, node_params);
    let final_blocks = simulation.run().unwrap();

    let final_block = final_blocks
        .iter()
        .find(|(p, _)| *p == Prefix::empty())
        .map(|(_, b)| b)
        .unwrap();

    assert_eq!(final_block.members.len(), 3 * n - 1);
}

#[test]
fn one_join_one_drop() {
    let node_params = NodeParams::default();
    let params = default_params();
    let n = node_params.min_section_size;

    let sections = vec![(p0(), n), (p1(), n)];

    let event_schedule = schedule(vec![
        (0, vec![RemoveNodeFrom(p0())]),
        (1, vec![AddNode(p0().substituted_in(random_name()))]),
    ]);

    let mut simulation = Simulation::new_from(sections, event_schedule, params, node_params);
    simulation.run().unwrap();
}

#[test]
fn triple_drop_merge() {
    let node_params = NodeParams::default();
    let params = default_params();
    let n = node_params.min_section_size;

    let sections = vec![(p0(), n), (p1(), n)];

    let event_schedule = schedule(vec![
        (0, vec![
            RemoveNodeFrom(p0()),
            RemoveNodeFrom(p0()),
            RemoveNodeFrom(p0()),
        ]),
    ]);

    let mut simulation = Simulation::new_from(sections, event_schedule, params, node_params);
    simulation.run().unwrap();
}

fn step_num(entries: &Vec<(u64, Vec<Event>)>, offset: u64) -> u64 {
    entries.iter().map(|(s, _)| *s).max().unwrap_or(0) + offset
}

fn add_events(entries: &mut Vec<(u64, Vec<Event>)>, offset: u64, spacing: u64, events: Vec<Event>) {
    let start_step = step_num(entries, offset);

    for (i, ev) in events.into_iter().enumerate() {
        entries.push((start_step + (i as u64 + 1) * spacing, vec![ev]));
    }
}

#[test]
fn growth_then_cascade() {
    let node_params = NodeParams::default();
    let params = default_params();
    let n = node_params.min_section_size;

    let sections = vec![(p0(), n), (p1(), n)];

    let step_size = 20;
    let mut entries: Vec<(u64, Vec<Event>)> = Vec::new();

    let add_to = |prefix: Prefix| AddNode(prefix.substituted_in(random_name()));

    // 8 nodes in 10.
    add_events(&mut entries, 0, step_size, (0..9).map(|_| add_to(p10())).collect());

    // 8 nodes in 111 (should cause a split into 10 and 11).
    add_events(&mut entries, 50, step_size, (0..9).map(|_| add_to(p111())).collect());

    // 8 nodes in 110 (should cause a split into 110 and 111).
    add_events(&mut entries, 50, step_size, (0..9).map(|_| add_to(p110())).collect());

    // Remove 8 nodes from 10, should cause a cascading merge!
    add_events(
        &mut entries,
        50,
        2 * step_size,
        (0..8).map(|_| RemoveNodeFrom(p10())).collect(),
    );

    let mut simulation = Simulation::new_from(sections, schedule(entries), params, node_params);
    simulation.run().unwrap();
}
