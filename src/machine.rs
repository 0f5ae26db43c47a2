use crate::event_logic::{
    apply_event, apply_events, compute_keys_based_on_state, distinct_keys, insert_key,
    is_first_match, is_transition, lemma_transition_reaches, lookup_mapping, pressed_keys,
    released_keys, remove_key,
};
use crate::mapping::{desired_keys, rule_matches, rule_views, Mapping, MappingView};
use crate::types::{EvKeyEvent, KeyCode, KeyEventType, TimeVal};
use vstd::prelude::*;

verus! {

/// The keys that the input device holds after event `e`.
pub open spec fn next_physical(held: Set<KeyCode>, e: EvKeyEvent) -> Set<KeyCode> {
    match e.key_event_type {
        KeyEventType::Press => held.insert(e.ev_key),
        KeyEventType::Release => held.remove(e.ev_key),
        _ => held,
    }
}

/// Whether `evs` repeats each key of `keys` once, stamped `time`.
pub open spec fn is_repeat_of(evs: Seq<EvKeyEvent>, keys: Set<KeyCode>, time: TimeVal) -> bool {
    &&& forall|i: int|
        0 <= i < evs.len() ==> (#[trigger] evs[i]).time == time && evs[i].key_event_type
            == KeyEventType::Repeat
    &&& forall|i: int, j: int|
        0 <= i < evs.len() && 0 <= j < evs.len() && i != j ==> #[trigger] evs[i].ev_key
            != #[trigger] evs[j].ev_key
    &&& keys == Set::new(|k: KeyCode| exists|i: int| 0 <= i < evs.len() && evs[i].ev_key == k)
}

/// The events that `e` gives rise to, with `rules` in force, `physical` the
/// keys held on the input device once `e` is counted and `virtual_held` the keys
/// that the output device holds.
pub open spec fn is_outgoing(
    evs: Seq<EvKeyEvent>,
    rules: Seq<MappingView>,
    physical: Set<KeyCode>,
    virtual_held: Set<KeyCode>,
    e: EvKeyEvent,
) -> bool {
    match e.key_event_type {
        KeyEventType::Press | KeyEventType::Release => is_transition(
            evs,
            virtual_held,
            desired_keys(rules, physical),
            e.time,
        ),
        KeyEventType::Repeat => {
            &&& (forall|i: int|
                0 <= i < rules.len() ==> !rule_matches(#[trigger] rules[i], physical, e.ev_key))
                ==> evs == seq![e]
            &&& forall|i: int|
                #[trigger] is_first_match(rules, physical, e.ev_key, i) ==> is_repeat_of(
                    evs,
                    rules[i].produced,
                    e.time,
                )
        },
        KeyEventType::Unknown(_) => evs == seq![e],
    }
}

/// One repeat event for each key of `keys`, stamped `time`.
fn repeat_events(keys: &Vec<KeyCode>, time: TimeVal) -> (r: Vec<EvKeyEvent>)
    ensures
        is_repeat_of(r@, keys@.to_set(), time),
{
    let distinct = distinct_keys(keys);
    let mut events: Vec<EvKeyEvent> = Vec::new();
    let mut i: usize = 0;
    while i < distinct.len()
        invariant
            0 <= i <= distinct@.len(),
            events@.len() == i,
            forall|m: int|
                0 <= m < i ==> #[trigger] events@[m] == (EvKeyEvent {
                    time,
                    ev_key: distinct@[m],
                    key_event_type: KeyEventType::Repeat,
                }),
        decreases distinct.len() - i,
    {
        events.push(
            EvKeyEvent { time, ev_key: distinct[i], key_event_type: KeyEventType::Repeat },
        );
        i += 1;
    }
    proof {
        let evs = events@;
        assert forall|a: int, b: int|
            0 <= a < evs.len() && 0 <= b < evs.len() && a != b implies #[trigger] evs[a].ev_key
            != #[trigger] evs[b].ev_key by {
            assert(evs[a].ev_key == distinct@[a]);
            assert(evs[b].ev_key == distinct@[b]);
        }
        let named = Set::new(|k: KeyCode| exists|m: int| 0 <= m < evs.len() && evs[m].ev_key == k);
        assert forall|k: KeyCode| named.contains(k) <==> keys@.to_set().contains(k) by {
            if named.contains(k) {
                let m = choose|m: int| 0 <= m < evs.len() && evs[m].ev_key == k;
                assert(distinct@.to_set().contains(distinct@[m]));
            }
            if keys@.to_set().contains(k) {
                assert(distinct@.to_set().contains(k));
                let m = choose|m: int| 0 <= m < distinct@.len() && distinct@[m] == k;
                assert(evs[m].ev_key == k);
            }
        }
        assert(named =~= keys@.to_set());
    }
    events
}

/// Turns the key events of an input device into the events that an output
/// device should emit, by the remapping rules it was built with.
pub struct Machine {
    /// Keys currently pressed down according to the input events.
    input_state: Vec<KeyCode>,
    /// Keys currently pressed down according to the output events.
    output_keys: Vec<KeyCode>,
    /// The rules, fixed when the machine is built.
    mappings: Vec<Mapping>,
}

impl Machine {
    /// The keys that the input device holds.
    pub closed spec fn physical_held(&self) -> Set<KeyCode> {
        self.input_state@.to_set()
    }

    /// The keys that the output device holds.
    pub closed spec fn virtual_held(&self) -> Set<KeyCode> {
        self.output_keys@.to_set()
    }

    /// The rules, in order of priority.
    pub closed spec fn rules(&self) -> Seq<MappingView> {
        rule_views(self.mappings@)
    }

    pub closed spec fn wf(&self) -> bool {
        &&& self.input_state@.no_duplicates()
        &&& self.output_keys@.no_duplicates()
    }

    /// A machine with the given rules, no key held on either device.
    pub fn new(mappings: &Vec<Mapping>) -> (r: Self)
        ensures
            r.wf(),
            r.rules() == rule_views(mappings@),
            r.physical_held() == Set::<KeyCode>::empty(),
            r.virtual_held() == Set::<KeyCode>::empty(),
    {
        let mut rules: Vec<Mapping> = Vec::new();
        let mut i: usize = 0;
        while i < mappings.len()
            invariant
                0 <= i <= mappings@.len(),
                rules@.len() == i,
                rule_views(rules@) == rule_views(mappings@.subrange(0, i as int)),
            decreases mappings.len() - i,
        {
            let ghost before = rules@;
            let copy = match &mappings[i] {
                Mapping::Remap { input, output } => {
                    let input_copy = input.clone();
                    let output_copy = output.clone();
                    assert(input_copy@ =~= input@);
                    assert(output_copy@ =~= output@);
                    Mapping::Remap { input: input_copy, output: output_copy }
                },
            };
            assert(copy@ == mappings@[i as int]@);
            rules.push(copy);
            proof {
                let a = rule_views(rules@);
                let b = rule_views(mappings@.subrange(0, i + 1));
                assert(a.len() == b.len());
                assert forall|m: int| 0 <= m < a.len() implies a[m] == b[m] by {
                    if m < i {
                        assert(rule_views(before)[m] == rule_views(mappings@.subrange(0, i as int))[m]);
                    }
                }
                assert(a =~= b);
            }
            i += 1;
        }
        assert(mappings@.subrange(0, mappings@.len() as int) =~= mappings@);
        let r = Machine { input_state: Vec::new(), output_keys: Vec::new(), mappings: rules };
        assert(r.physical_held() =~= Set::<KeyCode>::empty());
        assert(r.virtual_held() =~= Set::<KeyCode>::empty());
        r
    }

    /// Takes `incoming_event` into account and returns the events that the
    /// output device should emit for it, in order.
    ///
    /// A press or release moves the output device to the key set that the
    /// rules make of the keys now held; a repeat repeats what the first
    /// matching rule produces, or passes through where no rule matches; any
    /// other event passes through.
    pub fn insert(&mut self, incoming_event: EvKeyEvent) -> (r: Vec<EvKeyEvent>)
        requires
            old(self).wf(),
        ensures
            final(self).wf(),
            final(self).rules() == old(self).rules(),
            final(self).physical_held() == next_physical(old(self).physical_held(), incoming_event),
            is_outgoing(
                r@,
                old(self).rules(),
                final(self).physical_held(),
                old(self).virtual_held(),
                incoming_event,
            ),
            final(self).virtual_held() == apply_events(old(self).virtual_held(), r@),
            incoming_event.key_event_type == KeyEventType::Press
                || incoming_event.key_event_type == KeyEventType::Release
                ==> final(self).virtual_held() == desired_keys(
                final(self).rules(),
                final(self).physical_held(),
            ),
    {
        match incoming_event.key_event_type {
            KeyEventType::Press => {
                insert_key(&mut self.input_state, incoming_event.ev_key);
            },
            KeyEventType::Release => {
                remove_key(&mut self.input_state, incoming_event.ev_key);
            },
            _ => {},
        }
        let outgoing_events: Vec<EvKeyEvent> = self.get_keys_to_emit(&incoming_event);
        let ghost start = self.output_keys@.to_set();
        let ghost held = self.input_state;
        let mut i: usize = 0;
        while i < outgoing_events.len()
            invariant
                0 <= i <= outgoing_events@.len(),
                self.output_keys@.no_duplicates(),
                self.output_keys@.to_set() == apply_events(
                    start,
                    outgoing_events@.subrange(0, i as int),
                ),
                self.input_state@ == held@,
                held@.no_duplicates(),
                self.mappings@ == old(self).mappings@,
            decreases outgoing_events.len() - i,
        {
            let ev_key_event = outgoing_events[i];
            match ev_key_event.key_event_type {
                KeyEventType::Press | KeyEventType::Repeat => {
                    insert_key(&mut self.output_keys, ev_key_event.ev_key);
                },
                KeyEventType::Release => {
                    remove_key(&mut self.output_keys, ev_key_event.ev_key);
                },
                _ => {},
            }
            proof {
                let pre = outgoing_events@.subrange(0, i + 1);
                assert(pre.drop_last() =~= outgoing_events@.subrange(0, i as int));
                assert(pre.last() == ev_key_event);
                assert(self.output_keys@.to_set() =~= apply_event(
                    apply_events(start, outgoing_events@.subrange(0, i as int)),
                    ev_key_event,
                ));
            }
            i += 1;
        }
        proof {
            assert(outgoing_events@.subrange(0, outgoing_events@.len() as int)
                =~= outgoing_events@);
            if incoming_event.key_event_type == KeyEventType::Press
                || incoming_event.key_event_type == KeyEventType::Release {
                lemma_transition_reaches(
                    outgoing_events@,
                    start,
                    desired_keys(self.rules(), self.physical_held()),
                    incoming_event.time,
                );
            }
        }
        outgoing_events
    }

    /// The events that `event` gives rise to, once the input state counts it.
    fn get_keys_to_emit(&self, event: &EvKeyEvent) -> (r: Vec<EvKeyEvent>)
        requires
            self.wf(),
        ensures
            is_outgoing(r@, self.rules(), self.physical_held(), self.virtual_held(), *event),
    {
        match event.key_event_type {
            KeyEventType::Press | KeyEventType::Release => compute_keys_based_on_state(
                &self.mappings,
                &self.input_state,
                &self.output_keys,
                &event.time,
            ),
            KeyEventType::Repeat => {
                match lookup_mapping(&self.mappings, &self.input_state, event.ev_key) {
                    Some(m) => {
                        let ghost i = choose|i: int|
                            is_first_match(self.rules(), self.physical_held(), event.ev_key, i)
                                && *m == self.mappings@[i];
                        match m {
                            Mapping::Remap { output, .. } => {
                                let r = repeat_events(output, event.time);
                                proof {
                                    let rules = self.rules();
                                    let held = self.physical_held();
                                    assert(rules[i] == self.mappings@[i]@);
                                    assert(rule_matches(rules[i], held, event.ev_key));
                                    assert forall|i2: int|
                                        #[trigger] is_first_match(
                                            rules,
                                            held,
                                            event.ev_key,
                                            i2,
                                        ) implies is_repeat_of(r@, rules[i2].produced, event.time) by {
                                        if i2 > i {
                                            assert(!rule_matches(rules[i], held, event.ev_key));
                                        }
                                    }
                                }
                                r
                            },
                        }
                    },
                    None => {
                        let r = vec![*event];
                        proof {
                            let rules = self.rules();
                            assert forall|i: int| 0 <= i < rules.len() implies !rule_matches(
                                #[trigger] rules[i],
                                self.physical_held(),
                                event.ev_key,
                            ) by {
                                assert(rules[i] == self.mappings@[i]@);
                            }
                            assert(r@ =~= seq![*event]);
                            assert forall|i2: int|
                                #[trigger] is_first_match(
                                    rules,
                                    self.physical_held(),
                                    event.ev_key,
                                    i2,
                                ) implies is_repeat_of(r@, rules[i2].produced, event.time) by {
                                assert(!rule_matches(rules[i2], self.physical_held(), event.ev_key));
                            }
                        }
                        r
                    },
                }
            },
            KeyEventType::Unknown(_) => {
                let r = vec![*event];
                assert(r@ =~= seq![*event]);
                r
            },
        }
    }
}

/// With no rules, from a state in which the output device holds what the input
/// device holds, a press of a key that is not held, or a release of a key that
/// is held, comes out unchanged and alone.
pub proof fn lemma_passthrough_without_rules(
    held: Set<KeyCode>,
    e: EvKeyEvent,
    evs: Seq<EvKeyEvent>,
)
    requires
        (e.key_event_type == KeyEventType::Press && !held.contains(e.ev_key)) || (
        e.key_event_type == KeyEventType::Release && held.contains(e.ev_key)),
        is_outgoing(evs, Seq::empty(), next_physical(held, e), held, e),
    ensures
        evs == seq![e],
{
    let after = next_physical(held, e);
    assert(desired_keys(Seq::<MappingView>::empty(), after) == after);
    let k = e.ev_key;
    let changed = if e.key_event_type == KeyEventType::Press {
        pressed_keys(evs)
    } else {
        released_keys(evs)
    };
    let unchanged = if e.key_event_type == KeyEventType::Press {
        released_keys(evs)
    } else {
        pressed_keys(evs)
    };
    if e.key_event_type == KeyEventType::Press {
        assert(held.difference(after) =~= Set::empty());
        assert(after.difference(held) =~= set![k]);
    } else {
        assert(held.difference(after) =~= set![k]);
        assert(after.difference(held) =~= Set::empty());
    }
    assert(changed.contains(k));
    let i = choose|i: int|
        0 <= i < evs.len() && evs[i].ev_key == k && evs[i].key_event_type == e.key_event_type;
    assert(evs.len() == 1) by {
        if evs.len() > 1 {
            let j: int = if i == 0 {
                1
            } else {
                0
            };
            if evs[j].key_event_type == e.key_event_type {
                assert(changed.contains(evs[j].ev_key));
            } else {
                assert(unchanged.contains(evs[j].ev_key));
            }
        }
    }
    assert(evs[0] == e);
    assert(evs =~= seq![e]);
}

} // verus!
