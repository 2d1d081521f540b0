use redstonesim::block::output_changed;
use redstonesim::{output_towards, BlockKind, Connectable, Direction, Pos};

fn pos(x: i32, y: i32, z: i32) -> Pos {
    Pos { x, y, z }
}

fn six_around_origin() -> Vec<Pos> {
    vec![pos(1, 0, 0), pos(-1, 0, 0), pos(0, 1, 0), pos(0, -1, 0), pos(0, 0, 1), pos(0, 0, -1)]
}

#[test]
fn lever_offers_full_power_in_front_only() {
    let on = BlockKind::Lever { on: true, facing: Direction::East };
    let off = BlockKind::Lever { on: false, facing: Direction::East };
    assert_eq!(output_towards(&on, Direction::East), 15);
    assert_eq!(output_towards(&on, Direction::West), 0);
    assert_eq!(output_towards(&on, Direction::Up), 0);
    assert_eq!(output_towards(&off, Direction::East), 0);
}

#[test]
fn button_offers_power_while_counting() {
    let held = BlockKind::Button { ticks_remaining: 2, facing: Direction::Up };
    let done = BlockKind::Button { ticks_remaining: 0, facing: Direction::Up };
    assert_eq!(output_towards(&held, Direction::Up), 15);
    assert_eq!(output_towards(&held, Direction::Down), 0);
    assert_eq!(output_towards(&done, Direction::Up), 0);
}

#[test]
fn repeater_offers_power_when_powered() {
    let on = BlockKind::Repeater {
        delay: 2,
        ticks_remaining: 0,
        powered: true,
        facing: Direction::South,
    };
    let waiting = BlockKind::Repeater {
        delay: 2,
        ticks_remaining: 1,
        powered: false,
        facing: Direction::South,
    };
    assert_eq!(output_towards(&on, Direction::South), 15);
    assert_eq!(output_towards(&on, Direction::North), 0);
    assert_eq!(output_towards(&waiting, Direction::South), 0);
}

#[test]
fn comparator_passes_its_output_forward() {
    let c = BlockKind::Comparator { output: 9, facing: Direction::North };
    let idle = BlockKind::Comparator { output: 0, facing: Direction::North };
    assert_eq!(output_towards(&c, Direction::North), 9);
    assert_eq!(output_towards(&c, Direction::South), 0);
    assert_eq!(output_towards(&idle, Direction::North), 0);
}

#[test]
fn torch_powers_every_side_but_its_mount() {
    let lit = BlockKind::Torch { lit: true, facing: Direction::West };
    let dark = BlockKind::Torch { lit: false, facing: Direction::West };
    assert_eq!(output_towards(&lit, Direction::West), 0);
    assert_eq!(output_towards(&lit, Direction::East), 15);
    assert_eq!(output_towards(&lit, Direction::Up), 15);
    assert_eq!(output_towards(&lit, Direction::Down), 15);
    assert_eq!(output_towards(&lit, Direction::South), 15);
    assert_eq!(output_towards(&lit, Direction::North), 15);
    assert_eq!(output_towards(&dark, Direction::East), 0);
}

#[test]
fn dust_offers_its_power_everywhere() {
    let d = BlockKind::Dust { power: 7 };
    for dir in Direction::all() {
        assert_eq!(output_towards(&d, dir), 7);
    }
}

#[test]
fn consumers_offer_nothing() {
    let consumers = [
        BlockKind::Lamp { on: true },
        BlockKind::Piston { extended: true, facing: Direction::East },
        BlockKind::Hopper { enabled: true, facing: Direction::East },
    ];
    for c in consumers {
        for dir in Direction::all() {
            assert_eq!(output_towards(&c, dir), 0);
        }
    }
}

#[test]
fn sources_read_nothing_and_feed_the_front() {
    let lever = BlockKind::Lever { on: false, facing: Direction::East };
    let button = BlockKind::Button { ticks_remaining: 0, facing: Direction::Down };
    assert_eq!(lever.input_positions(pos(0, 0, 0)), Vec::<Pos>::new());
    assert_eq!(lever.output_positions(pos(0, 0, 0)), vec![pos(1, 0, 0)]);
    assert_eq!(button.input_positions(pos(0, 0, 0)), Vec::<Pos>::new());
    assert_eq!(button.output_positions(pos(0, 0, 0)), vec![pos(0, -1, 0)]);
}

#[test]
fn dust_reads_and_feeds_all_six() {
    let dust = BlockKind::Dust { power: 0 };
    assert_eq!(dust.input_positions(pos(0, 0, 0)), six_around_origin());
    assert_eq!(dust.output_positions(pos(0, 0, 0)), six_around_origin());
}

#[test]
fn consumers_read_all_six_and_feed_nothing() {
    let consumers = [
        BlockKind::Lamp { on: false },
        BlockKind::Piston { extended: false, facing: Direction::Up },
        BlockKind::Hopper { enabled: true, facing: Direction::Down },
    ];
    for c in consumers {
        assert_eq!(c.input_positions(pos(0, 0, 0)), six_around_origin());
        assert_eq!(c.output_positions(pos(0, 0, 0)), Vec::<Pos>::new());
    }
}

#[test]
fn comparator_reads_all_six_and_feeds_the_front() {
    let c = BlockKind::Comparator { output: 0, facing: Direction::North };
    assert_eq!(c.input_positions(pos(0, 0, 0)), six_around_origin());
    assert_eq!(c.output_positions(pos(0, 0, 0)), vec![pos(0, 0, -1)]);
}

#[test]
fn repeater_reads_behind_and_feeds_the_front() {
    let r = BlockKind::Repeater {
        delay: 1,
        ticks_remaining: 0,
        powered: false,
        facing: Direction::East,
    };
    assert_eq!(r.input_positions(pos(5, 5, 5)), vec![pos(4, 5, 5)]);
    assert_eq!(r.output_positions(pos(5, 5, 5)), vec![pos(6, 5, 5)]);
}

#[test]
fn torch_reads_its_mount_and_feeds_the_other_five() {
    let t = BlockKind::Torch { lit: true, facing: Direction::West };
    assert_eq!(t.input_positions(pos(0, 0, 0)), vec![pos(-1, 0, 0)]);
    assert_eq!(
        t.output_positions(pos(0, 0, 0)),
        vec![pos(1, 0, 0), pos(0, 1, 0), pos(0, -1, 0), pos(0, 0, 1), pos(0, 0, -1)]
    );
}

#[test]
fn positions_beyond_the_rim_are_left_out() {
    let dust = BlockKind::Dust { power: 0 };
    let corner = pos(i32::MAX, i32::MIN, 0);
    assert_eq!(
        dust.input_positions(corner),
        vec![
            pos(i32::MAX - 1, i32::MIN, 0),
            pos(i32::MAX, i32::MIN + 1, 0),
            pos(i32::MAX, i32::MIN, 1),
            pos(i32::MAX, i32::MIN, -1),
        ]
    );
    let lever = BlockKind::Lever { on: true, facing: Direction::East };
    assert_eq!(lever.output_positions(corner), Vec::<Pos>::new());
}

#[test]
fn reads_and_feeds_follow_the_variant() {
    let r = BlockKind::Repeater {
        delay: 1,
        ticks_remaining: 0,
        powered: false,
        facing: Direction::East,
    };
    assert!(r.reads(Direction::West));
    assert!(!r.reads(Direction::East));
    assert!(r.feeds(Direction::East));
    assert!(!r.feeds(Direction::West));
    let t = BlockKind::Torch { lit: true, facing: Direction::Up };
    assert!(t.reads(Direction::Up));
    assert!(!t.reads(Direction::Down));
    assert!(!t.feeds(Direction::Up));
    assert!(t.feeds(Direction::Down));
    let lamp = BlockKind::Lamp { on: false };
    assert!(lamp.reads(Direction::North));
    assert!(!lamp.feeds(Direction::North));
}

#[test]
fn timers_run_while_ticks_remain() {
    assert!(BlockKind::Button { ticks_remaining: 1, facing: Direction::East }.timer_running());
    assert!(!BlockKind::Button { ticks_remaining: 0, facing: Direction::East }.timer_running());
    assert!(BlockKind::Repeater {
        delay: 4,
        ticks_remaining: 3,
        powered: false,
        facing: Direction::East
    }
    .timer_running());
    assert!(!BlockKind::Repeater {
        delay: 4,
        ticks_remaining: 0,
        powered: true,
        facing: Direction::East
    }
    .timer_running());
    assert!(!BlockKind::Dust { power: 15 }.timer_running());
}

#[test]
fn ranges_hold_per_field() {
    assert!(BlockKind::Dust { power: 15 }.in_range());
    assert!(!BlockKind::Dust { power: 16 }.in_range());
    assert!(BlockKind::Comparator { output: 15, facing: Direction::East }.in_range());
    assert!(!BlockKind::Comparator { output: 16, facing: Direction::East }.in_range());
    for delay in 1..=4 {
        assert!(BlockKind::Repeater {
            delay,
            ticks_remaining: 0,
            powered: false,
            facing: Direction::East
        }
        .in_range());
    }
    for delay in [0, 5] {
        assert!(!BlockKind::Repeater {
            delay,
            ticks_remaining: 0,
            powered: false,
            facing: Direction::East
        }
        .in_range());
    }
    assert!(BlockKind::Button { ticks_remaining: 255, facing: Direction::East }.in_range());
}

#[test]
fn output_changed_looks_at_the_signal_only() {
    let b3 = BlockKind::Button { ticks_remaining: 3, facing: Direction::East };
    let b2 = BlockKind::Button { ticks_remaining: 2, facing: Direction::East };
    let b0 = BlockKind::Button { ticks_remaining: 0, facing: Direction::East };
    assert!(!output_changed(&b3, &b2));
    assert!(output_changed(&b2, &b0));
    let waiting = BlockKind::Repeater {
        delay: 2,
        ticks_remaining: 1,
        powered: false,
        facing: Direction::East,
    };
    let fired = BlockKind::Repeater {
        delay: 2,
        ticks_remaining: 0,
        powered: true,
        facing: Direction::East,
    };
    let idle = BlockKind::Repeater {
        delay: 2,
        ticks_remaining: 0,
        powered: false,
        facing: Direction::East,
    };
    assert!(output_changed(&waiting, &fired));
    assert!(!output_changed(&waiting, &idle));
    assert!(output_changed(&BlockKind::Dust { power: 3 }, &BlockKind::Dust { power: 4 }));
    assert!(!output_changed(&BlockKind::Lamp { on: false }, &BlockKind::Lamp { on: true }));
}
