use evremap::{EvKeyEvent, KeyCode, KeyEventType, Machine, Mapping, TimeVal};

// Linux input event codes of the keys used below.
const KEY_1: KeyCode = KeyCode { code: 2 };
const KEY_0: KeyCode = KeyCode { code: 11 };
const KEY_LEFTCTRL: KeyCode = KeyCode { code: 29 };
const KEY_A: KeyCode = KeyCode { code: 30 };
const KEY_D: KeyCode = KeyCode { code: 32 };
const KEY_C: KeyCode = KeyCode { code: 46 };
const KEY_B: KeyCode = KeyCode { code: 48 };

fn create_timeval(sec: i64) -> TimeVal {
    TimeVal { tv_sec: sec, tv_usec: 0 }
}

fn event(sec: i64, key: KeyCode, kind: KeyEventType) -> EvKeyEvent {
    EvKeyEvent { time: create_timeval(sec), ev_key: key, key_event_type: kind }
}

fn assert_machine_insertion_yields_same_event(machine: &mut Machine, event: EvKeyEvent) {
    let result = machine.insert(event.clone());
    assert_eq!(result, vec![event]);
}

#[test]
fn machine_without_config_is_passthrough_for_press() {
    let dummy_time = TimeVal { tv_sec: 0, tv_usec: 0 };
    let mut machine = Machine::new(&vec![]);
    let dummy_event =
        EvKeyEvent { time: dummy_time, ev_key: KEY_1, key_event_type: KeyEventType::Press };
    assert_eq!(machine.insert(dummy_event.clone()), vec![dummy_event,]);
}

#[test]
fn machine_without_config_also_emits_releases() {
    let mut machine = Machine::new(&vec![]);
    assert_machine_insertion_yields_same_event(
        &mut machine,
        EvKeyEvent {
            time: create_timeval(100),
            ev_key: KEY_0,
            key_event_type: KeyEventType::Press,
        },
    );
    assert_machine_insertion_yields_same_event(
        &mut machine,
        EvKeyEvent {
            time: create_timeval(200),
            ev_key: KEY_0,
            key_event_type: KeyEventType::Release,
        },
    );
}

#[test]
fn machine_without_config_passthrough_for_two_presses() {
    let mut machine = Machine::new(&vec![]);
    assert_machine_insertion_yields_same_event(
        &mut machine,
        EvKeyEvent {
            time: create_timeval(100),
            ev_key: KEY_0,
            key_event_type: KeyEventType::Press,
        },
    );
    assert_machine_insertion_yields_same_event(
        &mut machine,
        EvKeyEvent {
            time: create_timeval(200),
            ev_key: KEY_0,
            key_event_type: KeyEventType::Release,
        },
    );
    assert_machine_insertion_yields_same_event(
        &mut machine,
        EvKeyEvent {
            time: create_timeval(300),
            ev_key: KEY_1,
            key_event_type: KeyEventType::Press,
        },
    );
    assert_machine_insertion_yields_same_event(
        &mut machine,
        EvKeyEvent {
            time: create_timeval(400),
            ev_key: KEY_1,
            key_event_type: KeyEventType::Release,
        },
    );
}

#[test]
fn machine_without_config_passthrough_two_quick_presses() {
    let mut machine = Machine::new(&vec![]);
    assert_machine_insertion_yields_same_event(
        &mut machine,
        EvKeyEvent {
            time: create_timeval(100),
            ev_key: KEY_A,
            key_event_type: KeyEventType::Press,
        },
    );
    assert_machine_insertion_yields_same_event(
        &mut machine,
        EvKeyEvent {
            time: create_timeval(110),
            ev_key: KEY_B,
            key_event_type: KeyEventType::Press,
        },
    );
    assert_machine_insertion_yields_same_event(
        &mut machine,
        EvKeyEvent {
            time: create_timeval(200),
            ev_key: KEY_A,
            key_event_type: KeyEventType::Release,
        },
    );
    assert_machine_insertion_yields_same_event(
        &mut machine,
        EvKeyEvent {
            time: create_timeval(210),
            ev_key: KEY_B,
            key_event_type: KeyEventType::Release,
        },
    );
}

#[test]
fn handles_press_and_release_of_mapping_without_modifier() {
    let mut machine = Machine::new(&vec![Mapping::Remap { input: vec![KEY_0], output: vec![KEY_1] }]);

    assert_eq!(
        machine.insert(EvKeyEvent {
            time: create_timeval(100),
            ev_key: KEY_0,
            key_event_type: KeyEventType::Press,
        }),
        vec![EvKeyEvent {
            time: create_timeval(100),
            ev_key: KEY_1,
            key_event_type: KeyEventType::Press,
        }]
    );
    assert_eq!(
        machine.insert(EvKeyEvent {
            time: create_timeval(200),
            ev_key: KEY_0,
            key_event_type: KeyEventType::Release,
        }),
        vec![EvKeyEvent {
            time: create_timeval(200),
            ev_key: KEY_1,
            key_event_type: KeyEventType::Release,
        }]
    );
}

#[test]
fn handles_press_and_release_of_mapping_with_ctrl() {
    let mut machine = Machine::new(&vec![Mapping::Remap {
        input: vec![KEY_0, KEY_LEFTCTRL],
        output: vec![KEY_1],
    }]);

    assert_eq!(
        machine.insert(EvKeyEvent {
            time: create_timeval(50),
            ev_key: KEY_LEFTCTRL,
            key_event_type: KeyEventType::Press,
        }),
        vec![EvKeyEvent {
            time: create_timeval(50),
            ev_key: KEY_LEFTCTRL,
            key_event_type: KeyEventType::Press,
        }]
    );
    assert_eq!(
        machine.insert(EvKeyEvent {
            time: create_timeval(100),
            ev_key: KEY_0,
            key_event_type: KeyEventType::Press,
        }),
        vec![EvKeyEvent {
            time: create_timeval(100),
            ev_key: KEY_1,
            key_event_type: KeyEventType::Press,
        }]
    );
    assert_eq!(
        machine.insert(EvKeyEvent {
            time: create_timeval(200),
            ev_key: KEY_0,
            key_event_type: KeyEventType::Release,
        }),
        vec![EvKeyEvent {
            time: create_timeval(200),
            ev_key: KEY_1,
            key_event_type: KeyEventType::Release,
        }]
    );
    assert_eq!(
        machine.insert(EvKeyEvent {
            time: create_timeval(300),
            ev_key: KEY_LEFTCTRL,
            key_event_type: KeyEventType::Release,
        }),
        vec![EvKeyEvent {
            time: create_timeval(300),
            ev_key: KEY_LEFTCTRL,
            key_event_type: KeyEventType::Release,
        }]
    );
}

#[test]
fn ctrl_released_first_lets_go_of_output_before_modifier() {
    let mut machine = Machine::new(&vec![Mapping::Remap {
        input: vec![KEY_0, KEY_LEFTCTRL],
        output: vec![KEY_1],
    }]);
    machine.insert(event(50, KEY_LEFTCTRL, KeyEventType::Press));
    machine.insert(event(100, KEY_0, KeyEventType::Press));
    assert_eq!(
        machine.insert(event(200, KEY_LEFTCTRL, KeyEventType::Release)),
        vec![
            event(200, KEY_1, KeyEventType::Release),
            event(200, KEY_LEFTCTRL, KeyEventType::Release),
            event(200, KEY_0, KeyEventType::Press)
        ]
    );
}

#[test]
fn single_rule_maps_press_and_release() {
    let mut machine = Machine::new(&vec![Mapping::Remap { input: vec![KEY_A], output: vec![KEY_B] }]);
    assert_eq!(
        machine.insert(event(1, KEY_A, KeyEventType::Press)),
        vec![event(1, KEY_B, KeyEventType::Press)]
    );
    assert_eq!(
        machine.insert(event(2, KEY_A, KeyEventType::Release)),
        vec![event(2, KEY_B, KeyEventType::Release)]
    );
}

#[test]
fn unknown_kind_passes_through_with_rules() {
    let mut machine = Machine::new(&vec![Mapping::Remap { input: vec![KEY_A], output: vec![KEY_B] }]);
    machine.insert(event(1, KEY_A, KeyEventType::Press));
    let odd = event(2, KEY_A, KeyEventType::Unknown(5));
    assert_eq!(machine.insert(odd), vec![odd]);
    assert_eq!(
        machine.insert(event(3, KEY_A, KeyEventType::Release)),
        vec![event(3, KEY_B, KeyEventType::Release)]
    );
}

#[test]
fn repeat_follows_first_matching_rule() {
    let mut machine = Machine::new(&vec![
        Mapping::Remap { input: vec![KEY_A], output: vec![KEY_C] },
        Mapping::Remap { input: vec![KEY_A, KEY_B], output: vec![KEY_D] },
    ]);
    machine.insert(event(1, KEY_B, KeyEventType::Press));
    machine.insert(event(2, KEY_A, KeyEventType::Press));
    assert_eq!(
        machine.insert(event(3, KEY_A, KeyEventType::Repeat)),
        vec![event(3, KEY_C, KeyEventType::Repeat)]
    );
}

#[test]
fn repeat_emits_each_produced_key_once() {
    let mut machine = Machine::new(&vec![Mapping::Remap {
        input: vec![KEY_A],
        output: vec![KEY_C, KEY_D, KEY_C],
    }]);
    machine.insert(event(1, KEY_A, KeyEventType::Press));
    let out = machine.insert(event(2, KEY_A, KeyEventType::Repeat));
    assert_eq!(out.len(), 2);
    assert!(out.contains(&event(2, KEY_C, KeyEventType::Repeat)));
    assert!(out.contains(&event(2, KEY_D, KeyEventType::Repeat)));
}

#[test]
fn repeat_without_matching_rule_passes_through() {
    let mut machine = Machine::new(&vec![Mapping::Remap { input: vec![KEY_A], output: vec![KEY_B] }]);
    machine.insert(event(1, KEY_C, KeyEventType::Press));
    let repeat = event(2, KEY_C, KeyEventType::Repeat);
    assert_eq!(machine.insert(repeat), vec![repeat]);
}

#[test]
fn second_press_of_held_key_emits_nothing() {
    let mut machine = Machine::new(&vec![]);
    machine.insert(event(1, KEY_A, KeyEventType::Press));
    assert_eq!(machine.insert(event(2, KEY_A, KeyEventType::Press)), vec![]);
}

#[test]
fn release_of_key_never_pressed_emits_nothing() {
    let mut machine = Machine::new(&vec![]);
    assert_eq!(machine.insert(event(1, KEY_A, KeyEventType::Release)), vec![]);
}

#[test]
fn output_follows_rules_through_overlapping_presses() {
    let mut machine = Machine::new(&vec![Mapping::Remap { input: vec![KEY_A], output: vec![KEY_B] }]);
    assert_eq!(
        machine.insert(event(1, KEY_A, KeyEventType::Press)),
        vec![event(1, KEY_B, KeyEventType::Press)]
    );
    assert_eq!(
        machine.insert(event(2, KEY_C, KeyEventType::Press)),
        vec![event(2, KEY_C, KeyEventType::Press)]
    );
    assert_eq!(
        machine.insert(event(3, KEY_A, KeyEventType::Release)),
        vec![event(3, KEY_B, KeyEventType::Release)]
    );
    assert_eq!(
        machine.insert(event(4, KEY_C, KeyEventType::Release)),
        vec![event(4, KEY_C, KeyEventType::Release)]
    );
}
