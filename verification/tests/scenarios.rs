use redstonesim::{
    default_true, simulate, BlockChange, BlockKind, Direction, PlacedBlock, Pos, SimRequest,
    SimResponse, Termination, World,
};

fn at(x: i32, y: i32, z: i32, kind: BlockKind) -> PlacedBlock {
    PlacedBlock { pos: Pos { x, y, z }, kind }
}

fn change(x: i32, y: i32, z: i32, kind: BlockKind) -> BlockChange {
    BlockChange { pos: Pos { x, y, z }, kind }
}

fn run(blocks: Vec<PlacedBlock>, ticks: u32, early_exit: bool) -> SimResponse {
    simulate(SimRequest { ticks, world: World { blocks }, early_exit })
}

/// The diffs as pairs of tick number and change list.
fn listed(res: &SimResponse) -> Vec<(u32, Vec<BlockChange>)> {
    res.diffs.iter().map(|d| (d.tick, d.changes.clone())).collect()
}

fn repeater(delay: u8, ticks_remaining: u8, powered: bool) -> BlockKind {
    BlockKind::Repeater { delay, ticks_remaining, powered, facing: Direction::East }
}

fn mixed_world() -> Vec<PlacedBlock> {
    vec![
        at(0, 0, 0, BlockKind::Button { ticks_remaining: 2, facing: Direction::East }),
        at(1, 0, 0, BlockKind::Dust { power: 0 }),
        at(2, 0, 0, repeater(2, 0, false)),
        at(3, 0, 0, BlockKind::Comparator { output: 0, facing: Direction::East }),
        at(4, 0, 0, BlockKind::Dust { power: 0 }),
        at(4, 1, 0, BlockKind::Torch { lit: true, facing: Direction::Down }),
        at(5, 0, 0, BlockKind::Lamp { on: false }),
        at(4, 0, 1, BlockKind::Piston { extended: false, facing: Direction::Up }),
        at(4, 0, -1, BlockKind::Hopper { enabled: true, facing: Direction::Down }),
        at(1, 0, 1, BlockKind::Dust { power: 3 }),
        at(1, 0, 2, BlockKind::Dust { power: 15 }),
    ]
}

#[test]
fn lever_to_lamp_one_tick() {
    let world = World {
        blocks: vec![
            PlacedBlock {
                pos: Pos { x: 0, y: 0, z: 0 },
                kind: BlockKind::Lever { on: true, facing: Direction::East },
            },
            PlacedBlock { pos: Pos { x: 1, y: 0, z: 0 }, kind: BlockKind::Dust { power: 0 } },
            PlacedBlock { pos: Pos { x: 2, y: 0, z: 0 }, kind: BlockKind::Lamp { on: false } },
        ],
    };
    let req = SimRequest { ticks: 5, world, early_exit: true };
    let res = simulate(req);
    assert!(matches!(res.terminated, Termination::Stable));
    // every block reads the world as it stood before the tick: the wire
    // lights up on tick 1 and the lamp behind it on tick 2
    assert!(res.diffs.iter().any(|d| d.tick == 2
        && d.changes.iter().any(|c| matches!(c.kind, BlockKind::Lamp { on: true }))));
}

#[test]
fn dust_attenuation() {
    let world = World {
        blocks: vec![
            PlacedBlock {
                pos: Pos { x: 0, y: 0, z: 0 },
                kind: BlockKind::Lever { on: true, facing: Direction::East },
            },
            PlacedBlock { pos: Pos { x: 1, y: 0, z: 0 }, kind: BlockKind::Dust { power: 0 } },
            PlacedBlock { pos: Pos { x: 2, y: 0, z: 0 }, kind: BlockKind::Dust { power: 0 } },
        ],
    };
    let req = SimRequest { ticks: 3, world, early_exit: true };
    let res = simulate(req);
    assert!(res
        .diffs
        .iter()
        .any(|d| d.changes.iter().any(|c| matches!(c.kind, BlockKind::Dust { power: 14 }))));
}

#[test]
fn torch_turns_off_when_powered() {
    let world = World {
        blocks: vec![
            PlacedBlock {
                pos: Pos { x: 0, y: 0, z: 0 },
                kind: BlockKind::Lever { on: true, facing: Direction::East },
            },
            PlacedBlock {
                pos: Pos { x: 1, y: 0, z: 0 },
                kind: BlockKind::Torch { lit: true, facing: Direction::West },
            },
        ],
    };
    let req = SimRequest { ticks: 2, world, early_exit: true };
    let res = simulate(req);
    assert!(res
        .diffs
        .iter()
        .any(|d| d.changes.iter().any(|c| matches!(c.kind, BlockKind::Torch { lit: false, .. }))));
}

#[test]
fn repeater_requires_back_input() {
    let world = World {
        blocks: vec![
            PlacedBlock {
                pos: Pos { x: 1, y: 0, z: 1 },
                kind: BlockKind::Lever { on: true, facing: Direction::North },
            },
            PlacedBlock {
                pos: Pos { x: 1, y: 0, z: 0 },
                kind: BlockKind::Repeater {
                    delay: 1,
                    ticks_remaining: 0,
                    powered: false,
                    facing: Direction::East,
                },
            },
            PlacedBlock { pos: Pos { x: 2, y: 0, z: 0 }, kind: BlockKind::Dust { power: 0 } },
            PlacedBlock { pos: Pos { x: 3, y: 0, z: 0 }, kind: BlockKind::Lamp { on: false } },
        ],
    };
    let req = SimRequest { ticks: 3, world, early_exit: true };
    let res = simulate(req);
    assert!(!res
        .diffs
        .iter()
        .any(|d| d.changes.iter().any(|c| matches!(c.kind, BlockKind::Lamp { on: true }))));
}

#[test]
fn lever_to_lamp_exact_diffs() {
    let world = World {
        blocks: vec![
            at(0, 0, 0, BlockKind::Lever { on: true, facing: Direction::East }),
            at(1, 0, 0, BlockKind::Dust { power: 0 }),
            at(2, 0, 0, BlockKind::Lamp { on: false }),
        ],
    };
    let res = simulate(SimRequest { ticks: 5, world, early_exit: true });
    assert_eq!(res.terminated, Termination::Stable);
    // Tick 1 reads the world of tick 0, where the wire is still dark: only
    // the wire changes. The lamp follows on tick 2, and tick 3 is quiet.
    assert_eq!(res.diffs.len(), 2);
    assert_eq!(res.diffs[0].tick, 1);
    assert_eq!(res.diffs[0].changes.len(), 1);
    assert_eq!(res.diffs[0].changes[0].pos, Pos { x: 1, y: 0, z: 0 });
    assert_eq!(res.diffs[0].changes[0].kind, BlockKind::Dust { power: 15 });
    assert_eq!(res.diffs[1].tick, 2);
    assert_eq!(res.diffs[1].changes.len(), 1);
    assert_eq!(res.diffs[1].changes[0].pos, Pos { x: 2, y: 0, z: 0 });
    assert_eq!(res.diffs[1].changes[0].kind, BlockKind::Lamp { on: true });
}

#[test]
fn default_early_exit_is_true() {
    assert!(default_true());
}

#[test]
fn zero_ticks_runs_nothing() {
    let res = run(mixed_world(), 0, true);
    assert_eq!(res.terminated, Termination::MaxTicksReached);
    assert!(res.diffs.is_empty());
}

#[test]
fn empty_world_is_stable_after_one_tick() {
    let res = run(Vec::new(), 7, true);
    assert_eq!(res.terminated, Termination::Stable);
    assert!(res.diffs.is_empty());
    let res = run(Vec::new(), 7, false);
    assert_eq!(res.terminated, Termination::MaxTicksReached);
    assert!(res.diffs.is_empty());
}

#[test]
fn torch_inverter_exact() {
    let res = run(
        vec![
            at(0, 0, 0, BlockKind::Lever { on: true, facing: Direction::East }),
            at(1, 0, 0, BlockKind::Torch { lit: true, facing: Direction::West }),
        ],
        2,
        true,
    );
    assert_eq!(res.terminated, Termination::Stable);
    assert_eq!(
        listed(&res),
        vec![(1, vec![change(1, 0, 0, BlockKind::Torch { lit: false, facing: Direction::West })])]
    );
}

#[test]
fn repeater_fed_from_behind_lights_the_lamp_one_tick_after_firing() {
    let res = run(
        vec![
            at(0, 0, 0, BlockKind::Lever { on: true, facing: Direction::East }),
            at(1, 0, 0, repeater(1, 0, false)),
            at(2, 0, 0, BlockKind::Lamp { on: false }),
        ],
        6,
        true,
    );
    assert_eq!(res.terminated, Termination::Stable);
    assert_eq!(
        listed(&res),
        vec![
            (1, vec![change(1, 0, 0, repeater(1, 0, true))]),
            (2, vec![change(2, 0, 0, BlockKind::Lamp { on: true })]),
        ]
    );
}

#[test]
fn repeater_delay_is_counted_in_ticks() {
    let res = run(
        vec![
            at(0, 0, 0, BlockKind::Lever { on: true, facing: Direction::East }),
            at(1, 0, 0, repeater(4, 0, false)),
            at(2, 0, 0, BlockKind::Lamp { on: false }),
        ],
        10,
        true,
    );
    assert_eq!(res.terminated, Termination::Stable);
    assert_eq!(
        listed(&res),
        vec![
            (1, vec![change(1, 0, 0, repeater(4, 3, false))]),
            (2, vec![change(1, 0, 0, repeater(4, 2, false))]),
            (3, vec![change(1, 0, 0, repeater(4, 1, false))]),
            (4, vec![change(1, 0, 0, repeater(4, 0, true))]),
            (5, vec![change(2, 0, 0, BlockKind::Lamp { on: true })]),
        ]
    );
}

#[test]
fn button_pulse_lights_and_releases_the_lamp() {
    let button = |ticks_remaining| BlockKind::Button { ticks_remaining, facing: Direction::East };
    let res = run(
        vec![at(0, 0, 0, button(3)), at(1, 0, 0, BlockKind::Lamp { on: false })],
        10,
        true,
    );
    assert_eq!(res.terminated, Termination::Stable);
    assert_eq!(
        listed(&res),
        vec![
            (1, vec![change(0, 0, 0, button(2)), change(1, 0, 0, BlockKind::Lamp { on: true })]),
            (2, vec![change(0, 0, 0, button(1))]),
            (3, vec![change(0, 0, 0, button(0))]),
            (4, vec![change(1, 0, 0, BlockKind::Lamp { on: false })]),
        ]
    );
}

#[test]
fn a_cancelled_countdown_is_reported() {
    // the button releases while the repeater is still counting: the
    // repeater drops its countdown, which changes its state
    let res = run(
        vec![
            at(0, 0, 0, BlockKind::Button { ticks_remaining: 1, facing: Direction::East }),
            at(1, 0, 0, repeater(3, 0, false)),
        ],
        10,
        true,
    );
    assert_eq!(res.terminated, Termination::Stable);
    assert_eq!(
        listed(&res),
        vec![
            (
                1,
                vec![
                    change(
                        0,
                        0,
                        0,
                        BlockKind::Button { ticks_remaining: 0, facing: Direction::East }
                    ),
                    change(1, 0, 0, repeater(3, 2, false)),
                ]
            ),
            (2, vec![change(1, 0, 0, repeater(3, 0, false))]),
        ]
    );
}

#[test]
fn stable_is_reported_only_after_a_quiet_tick() {
    let blocks = vec![
        at(0, 0, 0, BlockKind::Button { ticks_remaining: 3, facing: Direction::East }),
        at(1, 0, 0, BlockKind::Lamp { on: false }),
    ];
    // ticks 1 to 4 change something; tick 5 is the first quiet one
    for budget in 0..5 {
        let res = run(blocks.clone(), budget, true);
        assert_eq!(res.terminated, Termination::MaxTicksReached);
        assert_eq!(res.diffs.len(), budget as usize);
    }
    let res = run(blocks, 5, true);
    assert_eq!(res.terminated, Termination::Stable);
    assert_eq!(res.diffs.len(), 4);
    assert_eq!(res.diffs.last().unwrap().tick, 4);
}

#[test]
fn without_early_exit_the_budget_is_spent() {
    let res = run(
        vec![
            at(0, 0, 0, BlockKind::Lever { on: true, facing: Direction::East }),
            at(1, 0, 0, BlockKind::Dust { power: 0 }),
        ],
        9,
        false,
    );
    assert_eq!(res.terminated, Termination::MaxTicksReached);
    assert_eq!(listed(&res), vec![(1, vec![change(1, 0, 0, BlockKind::Dust { power: 15 })])]);
}

#[test]
fn repeated_runs_are_identical() {
    let first = run(mixed_world(), 40, true);
    let second = run(mixed_world(), 40, true);
    assert_eq!(format!("{:?}", first), format!("{:?}", second));
    assert!(!first.diffs.is_empty());
}

#[test]
fn the_order_of_the_blocks_does_not_matter() {
    let mut reversed = mixed_world();
    reversed.reverse();
    let forward = run(mixed_world(), 40, true);
    let backward = run(reversed, 40, true);
    assert_eq!(format!("{:?}", forward), format!("{:?}", backward));
}

#[test]
fn changes_within_a_tick_ascend_by_position() {
    let res = run(mixed_world(), 40, true);
    for d in &res.diffs {
        assert!(!d.changes.is_empty());
        for pair in d.changes.windows(2) {
            assert!(pair[0].pos.precedes(pair[1].pos));
        }
    }
    for pair in res.diffs.windows(2) {
        assert!(pair[0].tick < pair[1].tick);
    }
}

#[test]
fn every_listed_change_is_a_real_change() {
    // replay the diffs on the world of tick 0: each entry must differ from
    // the state the block had before
    let blocks = mixed_world();
    let mut state: Vec<PlacedBlock> = blocks.clone();
    let res = run(blocks, 40, true);
    assert_eq!(res.terminated, Termination::Stable);
    for d in &res.diffs {
        for c in &d.changes {
            let cell = state.iter_mut().find(|b| b.pos == c.pos).unwrap();
            assert_ne!(cell.kind, c.kind);
            cell.kind = c.kind;
        }
    }
    // the replayed world is at rest: one more run changes nothing
    let rest = run(state, 5, true);
    assert_eq!(rest.terminated, Termination::Stable);
    assert!(rest.diffs.is_empty());
}

#[test]
fn powers_stay_within_bounds() {
    let res = run(mixed_world(), 40, true);
    let mut seen = 0;
    for d in &res.diffs {
        for c in &d.changes {
            match c.kind {
                BlockKind::Dust { power } => {
                    assert!(power <= 15);
                    seen += 1;
                }
                BlockKind::Comparator { output, .. } => {
                    assert!(output <= 15);
                    seen += 1;
                }
                _ => {}
            }
        }
    }
    assert!(seen > 0);
}

#[test]
fn a_power_out_of_range_is_carried_along() {
    let res = run(
        vec![at(0, 0, 0, BlockKind::Dust { power: 200 }), at(1, 0, 0, BlockKind::Dust { power: 0 })],
        1,
        true,
    );
    assert_eq!(
        listed(&res),
        vec![(
            1,
            vec![
                change(0, 0, 0, BlockKind::Dust { power: 0 }),
                change(1, 0, 0, BlockKind::Dust { power: 199 }),
            ]
        )]
    );
}

#[test]
fn wire_line_attenuates_by_one_per_wire() {
    let mut blocks = vec![at(0, 0, 0, BlockKind::Lever { on: true, facing: Direction::East })];
    for k in 1..=20 {
        blocks.push(at(k, 0, 0, BlockKind::Dust { power: 0 }));
    }
    let res = run(blocks, 40, true);
    assert_eq!(res.terminated, Termination::Stable);
    // one wire lights up per tick: 15, 14, ... 1; wires 16 to 20 stay dark
    let mut expected = Vec::new();
    for k in 1..=15 {
        expected.push((k as u32, vec![change(k, 0, 0, BlockKind::Dust { power: (16 - k) as u8 })]));
    }
    assert_eq!(listed(&res), expected);
}

#[test]
fn wire_line_runs_in_every_direction() {
    for d in Direction::all() {
        let (dx, dy, dz) = d.offset();
        let mut blocks = vec![at(0, 0, 0, BlockKind::Lever { on: true, facing: d })];
        for k in 1..=3 {
            blocks.push(at(k * dx, k * dy, k * dz, BlockKind::Dust { power: 0 }));
        }
        let res = run(blocks, 10, true);
        assert_eq!(res.terminated, Termination::Stable);
        assert_eq!(
            listed(&res),
            vec![
                (1, vec![change(dx, dy, dz, BlockKind::Dust { power: 15 })]),
                (2, vec![change(2 * dx, 2 * dy, 2 * dz, BlockKind::Dust { power: 14 })]),
                (3, vec![change(3 * dx, 3 * dy, 3 * dz, BlockKind::Dust { power: 13 })]),
            ]
        );
    }
}

#[test]
fn a_lever_without_wires_is_stable_at_once() {
    let res = run(vec![at(0, 0, 0, BlockKind::Lever { on: true, facing: Direction::East })], 1, true);
    assert_eq!(res.terminated, Termination::Stable);
    assert!(res.diffs.is_empty());
}

#[test]
fn rerunning_past_quiescence_changes_nothing() {
    let short = run(mixed_world(), 40, true);
    assert_eq!(short.terminated, Termination::Stable);
    let last = short.diffs.last().unwrap().tick;
    for extra in [1, 2, 10, 1000] {
        let longer = run(mixed_world(), last + extra, true);
        assert_eq!(format!("{:?}", longer), format!("{:?}", short));
        let unbroken = run(mixed_world(), last + extra, false);
        assert_eq!(unbroken.terminated, Termination::MaxTicksReached);
        assert_eq!(listed(&unbroken), listed(&short));
    }
}

#[test]
fn blocks_at_the_rim_of_the_grid_are_simulated() {
    let res = run(
        vec![
            at(i32::MAX - 1, i32::MIN, i32::MAX, BlockKind::Lever { on: true, facing: Direction::East }),
            at(i32::MAX, i32::MIN, i32::MAX, BlockKind::Dust { power: 0 }),
        ],
        5,
        true,
    );
    assert_eq!(res.terminated, Termination::Stable);
    assert_eq!(
        listed(&res),
        vec![(1, vec![change(i32::MAX, i32::MIN, i32::MAX, BlockKind::Dust { power: 15 })])]
    );
}

#[test]
fn a_later_block_replaces_an_earlier_one_in_the_same_cell() {
    let res = run(
        vec![
            at(0, 0, 0, BlockKind::Lever { on: false, facing: Direction::East }),
            at(1, 0, 0, BlockKind::Lamp { on: false }),
            at(0, 0, 0, BlockKind::Lever { on: true, facing: Direction::East }),
        ],
        5,
        true,
    );
    assert_eq!(listed(&res), vec![(1, vec![change(1, 0, 0, BlockKind::Lamp { on: true })])]);
}
