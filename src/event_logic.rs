use crate::mapping::{apply_rule, desired_keys, plain_keys, rule_matches, rule_views, Mapping, MappingView};
use crate::types::{is_modifier, is_modifier_key, EvKeyEvent, KeyCode, KeyEventType, TimeVal};
use std::cmp::Ordering;
use vstd::prelude::*;

verus! {

/// Whether `keys` holds `k`.
fn contains_key(keys: &Vec<KeyCode>, k: KeyCode) -> (r: bool)
    ensures
        r == keys@.contains(k),
{
    let mut i: usize = 0;
    while i < keys.len()
        invariant
            0 <= i <= keys@.len(),
            forall|j: int| 0 <= j < i ==> keys@[j] != k,
        decreases keys.len() - i,
    {
        if keys[i] == k {
            return true;
        }
        i += 1;
    }
    false
}

/// Whether every key of `a` is in `b`.
fn is_subset(a: &Vec<KeyCode>, b: &Vec<KeyCode>) -> (r: bool)
    ensures
        r == a@.to_set().subset_of(b@.to_set()),
{
    let mut i: usize = 0;
    while i < a.len()
        invariant
            0 <= i <= a@.len(),
            forall|j: int| 0 <= j < i ==> b@.contains(#[trigger] a@[j]),
        decreases a.len() - i,
    {
        if !contains_key(b, a[i]) {
            assert(a@.to_set().contains(a@[i as int]));
            return false;
        }
        i += 1;
    }
    proof {
        assert forall|k: KeyCode| a@.to_set().contains(k) implies b@.to_set().contains(k) by {
            let j = choose|j: int| 0 <= j < a@.len() && a@[j] == k;
        }
    }
    true
}

/// Adds `k` to the set held in `keys`.
pub(crate) fn insert_key(keys: &mut Vec<KeyCode>, k: KeyCode)
    requires
        old(keys)@.no_duplicates(),
    ensures
        final(keys)@.no_duplicates(),
        final(keys)@.to_set() == old(keys)@.to_set().insert(k),
{
    if !contains_key(keys, k) {
        keys.push(k);
        proof {
            assert(keys@.to_set() =~= old(keys)@.to_set().insert(k)) by {
                assert forall|x: KeyCode| #[trigger] keys@.contains(x) <==> (old(keys)@.contains(x)
                    || x == k) by {
                    if x == k {
                        assert(keys@[old(keys)@.len() as int] == k);
                    }
                    if old(keys)@.contains(x) {
                        let j = choose|j: int| 0 <= j < old(keys)@.len() && old(keys)@[j] == x;
                        assert(keys@[j] == x);
                    }
                }
            }
        }
    } else {
        assert(old(keys)@.to_set() =~= old(keys)@.to_set().insert(k));
    }
}

/// Removes `k` from the set held in `keys`, keeping the order of the rest.
pub(crate) fn remove_key(keys: &mut Vec<KeyCode>, k: KeyCode)
    requires
        old(keys)@.no_duplicates(),
    ensures
        final(keys)@.no_duplicates(),
        final(keys)@.to_set() == old(keys)@.to_set().remove(k),
{
    let mut rest: Vec<KeyCode> = Vec::new();
    let mut i: usize = 0;
    while i < keys.len()
        invariant
            0 <= i <= keys@.len(),
            keys@ == old(keys)@,
            keys@.no_duplicates(),
            rest@.no_duplicates(),
            forall|x: KeyCode| #[trigger]
                rest@.contains(x) <==> (x != k && exists|j: int| 0 <= j < i && keys@[j] == x),
        decreases keys.len() - i,
    {
        let x = keys[i];
        if x != k {
            let ghost before = rest@;
            rest.push(x);
            proof {
                assert forall|y: KeyCode| #[trigger] rest@.contains(y) <==> (before.contains(y)
                    || y == x) by {
                    if y == x {
                        assert(rest@[before.len() as int] == x);
                    }
                    if before.contains(y) {
                        let j = choose|j: int| 0 <= j < before.len() && before[j] == y;
                        assert(rest@[j] == y);
                    }
                }
                assert(!before.contains(x));
                assert forall|a: int, b: int|
                    0 <= a < rest@.len() && 0 <= b < rest@.len() && a != b implies rest@[a]
                    != rest@[b] by {
                    if a == before.len() {
                        assert(before.contains(rest@[b]));
                    } else if b == before.len() {
                        assert(before.contains(rest@[a]));
                    }
                }
            }
        }
        i += 1;
    }
    proof {
        assert forall|x: KeyCode| rest@.to_set().contains(x) <==> old(keys)@.to_set().remove(k).contains(x) by {
            if old(keys)@.contains(x) {
                let j = choose|j: int| 0 <= j < old(keys)@.len() && old(keys)@[j] == x;
                assert(keys@[j] == x);
            }
        }
        assert(rest@.to_set() =~= old(keys)@.to_set().remove(k));
    }
    *keys = rest;
}

/// The keys that the output device should hold while `currently_pressed_keys`
/// is held on the input device, with every rule applied in order.
pub fn apply_mapping_to_held_keys(
    mappings: &Vec<Mapping>,
    currently_pressed_keys: &Vec<KeyCode>,
) -> (r: Vec<KeyCode>)
    requires
        currently_pressed_keys@.no_duplicates(),
    ensures
        r@.no_duplicates(),
        r@.to_set() == desired_keys(rule_views(mappings@), currently_pressed_keys@.to_set()),
{
    let ghost held = currently_pressed_keys@.to_set();
    let mut keys: Vec<KeyCode> = currently_pressed_keys.clone();
    assert(keys@ =~= currently_pressed_keys@);
    let mut i: usize = 0;
    while i < mappings.len()
        invariant
            0 <= i <= mappings@.len(),
            keys@.no_duplicates(),
            keys@.to_set() == desired_keys(rule_views(mappings@).subrange(0, i as int), held),
        decreases mappings.len() - i,
    {
        let ghost w = keys@.to_set();
        match &mappings[i] {
            Mapping::Remap { input, output } => {
                if is_subset(input, &keys) {
                    let mut j: usize = 0;
                    while j < input.len()
                        invariant
                            0 <= j <= input@.len(),
                            keys@.no_duplicates(),
                            forall|x: KeyCode| #[trigger]
                                keys@.to_set().contains(x) <==> (w.contains(x) && !(
                                !is_modifier_key(x) && exists|m: int|
                                    0 <= m < j && input@[m] == x)),
                        decreases input.len() - j,
                    {
                        if !is_modifier(&input[j]) {
                            remove_key(&mut keys, input[j]);
                        }
                        j += 1;
                    }
                    let ghost w1 = keys@.to_set();
                    assert(w1 =~= w.difference(plain_keys(input@.to_set())));
                    let mut j: usize = 0;
                    while j < output.len()
                        invariant
                            0 <= j <= output@.len(),
                            keys@.no_duplicates(),
                            forall|x: KeyCode| #[trigger]
                                keys@.to_set().contains(x) <==> (w1.contains(x) || (
                                !is_modifier_key(x) && exists|m: int|
                                    0 <= m < j && output@[m] == x)),
                        decreases output.len() - j,
                    {
                        if !is_modifier(&output[j]) {
                            insert_key(&mut keys, output[j]);
                        }
                        j += 1;
                    }
                    assert(keys@.to_set() =~= w1.union(plain_keys(output@.to_set())));
                }
            },
        }
        proof {
            let views = rule_views(mappings@);
            let pre = views.subrange(0, i + 1);
            assert(pre.drop_last() =~= views.subrange(0, i as int));
            assert(keys@.to_set() =~= apply_rule(w, mappings@[i as int]@));
        }
        i += 1;
    }
    assert(rule_views(mappings@).subrange(0, mappings@.len() as int) =~= rule_views(mappings@));
    keys
}

/// The order that puts modifier keys ahead of other keys and deems keys of the
/// same category equal.
pub open spec fn modifier_order(a: KeyCode, b: KeyCode) -> Ordering {
    if is_modifier_key(a) && !is_modifier_key(b) {
        Ordering::Less
    } else if !is_modifier_key(a) && is_modifier_key(b) {
        Ordering::Greater
    } else {
        Ordering::Equal
    }
}

/// Orders modifier keys ahead of non-modifier keys.
pub fn modifiers_first(a: &KeyCode, b: &KeyCode) -> (r: Ordering)
    ensures
        r == modifier_order(*a, *b),
{
    if is_modifier(a) {
        if is_modifier(b) {
            Ordering::Equal
        } else {
            Ordering::Less
        }
    } else if is_modifier(b) {
        Ordering::Greater
    } else {
        Ordering::Equal
    }
}

/// Orders modifier keys after non-modifier keys.
pub fn modifiers_last(a: &KeyCode, b: &KeyCode) -> (r: Ordering)
    ensures
        r == modifier_order(*b, *a),
{
    match modifiers_first(a, b) {
        Ordering::Less => Ordering::Greater,
        Ordering::Greater => Ordering::Less,
        Ordering::Equal => Ordering::Equal,
    }
}

/// Whether `a` must come before `b`: a modifier before a non-modifier where
/// `modifiers_go_first`, the other way round otherwise.
pub open spec fn goes_before(a: KeyCode, b: KeyCode, modifiers_go_first: bool) -> bool {
    if modifiers_go_first {
        is_modifier_key(a) && !is_modifier_key(b)
    } else {
        !is_modifier_key(a) && is_modifier_key(b)
    }
}

/// Whether no key of `s` comes after a key that it must come before.
pub open spec fn in_modifier_order(s: Seq<KeyCode>, modifiers_go_first: bool) -> bool {
    forall|p: int, q: int| 0 <= p < q < s.len() ==> !goes_before(s[q], s[p], modifiers_go_first)
}

/// Whether `a` must come before `b`, as `modifiers_first` or `modifiers_last`
/// ranks them.
fn ranks_before(a: &KeyCode, b: &KeyCode, modifiers_go_first: bool) -> (r: bool)
    ensures
        r == goes_before(*a, *b, modifiers_go_first),
{
    let c = if modifiers_go_first {
        modifiers_first(a, b)
    } else {
        modifiers_last(a, b)
    };
    match c {
        Ordering::Less => true,
        _ => false,
    }
}

/// The keys of `keys`, ordered with modifiers first or last and otherwise in
/// their order in `keys`: each key is inserted before the first key that
/// `modifiers_first` (or `modifiers_last`) ranks after it.
fn order_keys(keys: &Vec<KeyCode>, modifiers_go_first: bool) -> (r: Vec<KeyCode>)
    requires
        keys@.no_duplicates(),
    ensures
        r@.no_duplicates(),
        r@.to_set() == keys@.to_set(),
        in_modifier_order(r@, modifiers_go_first),
{
    let mut out: Vec<KeyCode> = Vec::new();
    let mut i: usize = 0;
    while i < keys.len()
        invariant
            0 <= i <= keys@.len(),
            keys@.no_duplicates(),
            out@.no_duplicates(),
            in_modifier_order(out@, modifiers_go_first),
            forall|x: KeyCode| #[trigger]
                out@.contains(x) <==> exists|m: int| 0 <= m < i && keys@[m] == x,
        decreases keys.len() - i,
    {
        let k = keys[i];
        let mut j: usize = 0;
        while j < out.len() && !ranks_before(&k, &out[j], modifiers_go_first)
            invariant
                0 <= j <= out@.len(),
                forall|m: int| 0 <= m < j ==> !goes_before(k, #[trigger] out@[m], modifiers_go_first),
            decreases out.len() - j,
        {
            j += 1;
        }
        let ghost before = out@;
        proof {
            assert(!before.contains(k)) by {
                if before.contains(k) {
                    let m = choose|m: int| 0 <= m < i && keys@[m] == k;
                    assert(keys@[m] == keys@[i as int]);
                }
            }
        }
        out.insert(j, k);
        proof {
            assert(out@ == before.insert(j as int, k));
            assert forall|m: int| 0 <= m < out@.len() implies #[trigger] out@[m] == if m < j {
                before[m]
            } else if m == j {
                k
            } else {
                before[m - 1]
            } by {}
            assert forall|x: KeyCode| #[trigger] out@.contains(x) <==> (before.contains(x) || x
                == k) by {
                if out@.contains(x) {
                    let m = choose|m: int| 0 <= m < out@.len() && out@[m] == x;
                    if m < j {
                        assert(before[m] == x);
                    } else if m > j {
                        assert(before[m - 1] == x);
                    }
                }
                if before.contains(x) {
                    let m = choose|m: int| 0 <= m < before.len() && before[m] == x;
                    if m < j {
                        assert(out@[m] == x);
                    } else {
                        assert(out@[m + 1] == x);
                    }
                }
                if x == k {
                    assert(out@[j as int] == k);
                }
            }
            assert forall|a: int, b: int|
                0 <= a < out@.len() && 0 <= b < out@.len() && a != b implies out@[a]
                != out@[b] by {
                if a == j {
                    assert(before.contains(out@[b]));
                } else if b == j {
                    assert(before.contains(out@[a]));
                }
            }
            assert forall|p: int, q: int| 0 <= p < q < out@.len() implies !goes_before(
                out@[q],
                out@[p],
                modifiers_go_first,
            ) by {
                if p == j {
                    if j < before.len() {
                        assert(goes_before(k, before[j as int], modifiers_go_first));
                        assert(!goes_before(before[q - 1], before[j as int], modifiers_go_first));
                    }
                } else if q == j {
                }
            }
        }
        i += 1;
    }
    proof {
        assert forall|x: KeyCode| out@.to_set().contains(x) <==> keys@.to_set().contains(x) by {
            if keys@.contains(x) {
                let m = choose|m: int| 0 <= m < keys@.len() && keys@[m] == x;
            }
        }
        assert(out@.to_set() =~= keys@.to_set());
    }
    out
}

/// The keys of `a` that are not in `b`, in their order in `a`.
fn difference(a: &Vec<KeyCode>, b: &Vec<KeyCode>) -> (r: Vec<KeyCode>)
    requires
        a@.no_duplicates(),
    ensures
        r@.no_duplicates(),
        r@.to_set() == a@.to_set().difference(b@.to_set()),
{
    let mut out: Vec<KeyCode> = Vec::new();
    let mut i: usize = 0;
    while i < a.len()
        invariant
            0 <= i <= a@.len(),
            a@.no_duplicates(),
            out@.no_duplicates(),
            forall|x: KeyCode| #[trigger]
                out@.contains(x) <==> (!b@.contains(x) && exists|m: int| 0 <= m < i && a@[m] == x),
        decreases a.len() - i,
    {
        let x = a[i];
        if !contains_key(b, x) {
            let ghost before = out@;
            out.push(x);
            proof {
                assert forall|y: KeyCode| #[trigger] out@.contains(y) <==> (before.contains(y)
                    || y == x) by {
                    if y == x {
                        assert(out@[before.len() as int] == x);
                    }
                    if before.contains(y) {
                        let j = choose|j: int| 0 <= j < before.len() && before[j] == y;
                        assert(out@[j] == y);
                    }
                }
                assert(!before.contains(x));
                assert forall|p: int, q: int|
                    0 <= p < out@.len() && 0 <= q < out@.len() && p != q implies out@[p]
                    != out@[q] by {
                    if p == before.len() {
                        assert(before.contains(out@[q]));
                    } else if q == before.len() {
                        assert(before.contains(out@[p]));
                    }
                }
            }
        }
        i += 1;
    }
    proof {
        assert forall|x: KeyCode|
            out@.to_set().contains(x) <==> a@.to_set().difference(b@.to_set()).contains(x) by {
            if a@.contains(x) {
                let m = choose|m: int| 0 <= m < a@.len() && a@[m] == x;
            }
        }
        assert(out@.to_set() =~= a@.to_set().difference(b@.to_set()));
    }
    out
}

/// The keys that a release in `evs` lets go of.
pub open spec fn released_keys(evs: Seq<EvKeyEvent>) -> Set<KeyCode> {
    Set::new(
        |k: KeyCode|
            exists|i: int|
                0 <= i < evs.len() && evs[i].ev_key == k && evs[i].key_event_type
                    == KeyEventType::Release,
    )
}

/// The keys that a press in `evs` holds down.
pub open spec fn pressed_keys(evs: Seq<EvKeyEvent>) -> Set<KeyCode> {
    Set::new(
        |k: KeyCode|
            exists|i: int|
                0 <= i < evs.len() && evs[i].ev_key == k && evs[i].key_event_type
                    == KeyEventType::Press,
    )
}

/// Whether `evs` takes an output device from holding `from` to holding `to`,
/// with every event stamped `time`: it releases exactly the keys of `from`
/// outside `to`, non-modifiers first, and then presses exactly the keys of
/// `to` outside `from`, modifiers first, naming no key twice.
pub open spec fn is_transition(
    evs: Seq<EvKeyEvent>,
    from: Set<KeyCode>,
    to: Set<KeyCode>,
    time: TimeVal,
) -> bool {
    &&& forall|i: int|
        0 <= i < evs.len() ==> (#[trigger] evs[i]).time == time && (evs[i].key_event_type
            == KeyEventType::Release || evs[i].key_event_type == KeyEventType::Press)
    &&& forall|i: int, j: int|
        0 <= i < j < evs.len() && (#[trigger] evs[j]).key_event_type == KeyEventType::Release
            ==> (#[trigger] evs[i]).key_event_type == KeyEventType::Release
    &&& forall|i: int, j: int|
        0 <= i < evs.len() && 0 <= j < evs.len() && i != j ==> #[trigger] evs[i].ev_key
            != #[trigger] evs[j].ev_key
    &&& released_keys(evs) == from.difference(to)
    &&& pressed_keys(evs) == to.difference(from)
    &&& forall|i: int, j: int|
        0 <= i < j < evs.len() && evs[i].key_event_type == KeyEventType::Release
            && evs[j].key_event_type == KeyEventType::Release ==> !goes_before(
            #[trigger] evs[j].ev_key,
            #[trigger] evs[i].ev_key,
            false,
        )
    &&& forall|i: int, j: int|
        0 <= i < j < evs.len() && evs[i].key_event_type == KeyEventType::Press
            && evs[j].key_event_type == KeyEventType::Press ==> !goes_before(
            #[trigger] evs[j].ev_key,
            #[trigger] evs[i].ev_key,
            true,
        )
}

/// The events that take the output device from holding `output_keys` to
/// holding what the rules make of `currently_pressed_keys`, all stamped
/// `time`.
///
/// Releases come before presses. Modifiers are released last and pressed
/// first, so that a rule producing a combination such as Ctrl+C never lets a
/// bare C through.
pub fn compute_keys_based_on_state(
    mappings: &Vec<Mapping>,
    currently_pressed_keys: &Vec<KeyCode>,
    output_keys: &Vec<KeyCode>,
    time: &TimeVal,
) -> (r: Vec<EvKeyEvent>)
    requires
        currently_pressed_keys@.no_duplicates(),
        output_keys@.no_duplicates(),
    ensures
        is_transition(
            r@,
            output_keys@.to_set(),
            desired_keys(rule_views(mappings@), currently_pressed_keys@.to_set()),
            *time,
        ),
{
    let desired_keys = apply_mapping_to_held_keys(mappings, currently_pressed_keys);
    let ghost from = output_keys@.to_set();
    let ghost to = desired_keys@.to_set();
    let to_release = order_keys(&difference(output_keys, &desired_keys), false);
    let to_press = order_keys(&difference(&desired_keys, output_keys), true);
    let mut events: Vec<EvKeyEvent> = Vec::new();
    let mut i: usize = 0;
    while i < to_release.len()
        invariant
            0 <= i <= to_release@.len(),
            events@.len() == i,
            forall|m: int|
                0 <= m < i ==> #[trigger] events@[m] == (EvKeyEvent {
                    time: *time,
                    ev_key: to_release@[m],
                    key_event_type: KeyEventType::Release,
                }),
        decreases to_release.len() - i,
    {
        events.push(
            EvKeyEvent { time: *time, ev_key: to_release[i], key_event_type: KeyEventType::Release },
        );
        i += 1;
    }
    let n = to_release.len();
    let mut i: usize = 0;
    while i < to_press.len()
        invariant
            0 <= i <= to_press@.len(),
            n == to_release@.len(),
            events@.len() == n + i,
            forall|m: int|
                0 <= m < n ==> #[trigger] events@[m] == (EvKeyEvent {
                    time: *time,
                    ev_key: to_release@[m],
                    key_event_type: KeyEventType::Release,
                }),
            forall|m: int|
                n <= m < n + i ==> #[trigger] events@[m] == (EvKeyEvent {
                    time: *time,
                    ev_key: to_press@[m - n],
                    key_event_type: KeyEventType::Press,
                }),
        decreases to_press.len() - i,
    {
        events.push(
            EvKeyEvent { time: *time, ev_key: to_press[i], key_event_type: KeyEventType::Press },
        );
        i += 1;
    }
    proof {
        let evs = events@;
        assert forall|a: int, b: int|
            0 <= a < evs.len() && 0 <= b < evs.len() && a != b implies #[trigger] evs[a].ev_key
            != #[trigger] evs[b].ev_key by {
            if a < n && b >= n {
                assert(to_release@.to_set().contains(to_release@[a]));
                assert(to_press@.to_set().contains(to_press@[b - n]));
            } else if a >= n && b < n {
                assert(to_release@.to_set().contains(to_release@[b]));
                assert(to_press@.to_set().contains(to_press@[a - n]));
            }
        }
        assert forall|k: KeyCode| released_keys(evs).contains(k) <==> from.difference(to).contains(k) by {
            if released_keys(evs).contains(k) {
                let m = choose|m: int|
                    0 <= m < evs.len() && evs[m].ev_key == k && evs[m].key_event_type
                        == KeyEventType::Release;
                assert(to_release@.to_set().contains(to_release@[m]));
            }
            if from.difference(to).contains(k) {
                assert(to_release@.to_set().contains(k));
                let m = choose|m: int| 0 <= m < to_release@.len() && to_release@[m] == k;
                assert(evs[m].ev_key == k);
            }
        }
        assert forall|k: KeyCode| pressed_keys(evs).contains(k) <==> to.difference(from).contains(k) by {
            if pressed_keys(evs).contains(k) {
                let m = choose|m: int|
                    0 <= m < evs.len() && evs[m].ev_key == k && evs[m].key_event_type
                        == KeyEventType::Press;
                assert(to_press@.to_set().contains(to_press@[m - n]));
            }
            if to.difference(from).contains(k) {
                assert(to_press@.to_set().contains(k));
                let m = choose|m: int| 0 <= m < to_press@.len() && to_press@[m] == k;
                assert(evs[m + n].ev_key == k);
            }
        }
        assert(released_keys(evs) =~= from.difference(to));
        assert(pressed_keys(evs) =~= to.difference(from));
        assert forall|a: int, b: int|
            0 <= a < b < evs.len() && evs[a].key_event_type == KeyEventType::Press
                && evs[b].key_event_type == KeyEventType::Press implies !goes_before(
            #[trigger] evs[b].ev_key,
            #[trigger] evs[a].ev_key,
            true,
        ) by {
            assert(evs[a].ev_key == to_press@[a - n]);
            assert(evs[b].ev_key == to_press@[b - n]);
        }
    }
    events
}

/// Whether rule `i` is the first rule of `rules` that answers a repeat of
/// `code` while `held` is held.
pub open spec fn is_first_match(
    rules: Seq<MappingView>,
    held: Set<KeyCode>,
    code: KeyCode,
    i: int,
) -> bool {
    &&& 0 <= i < rules.len()
    &&& rule_matches(rules[i], held, code)
    &&& forall|j: int| 0 <= j < i ==> !rule_matches(#[trigger] rules[j], held, code)
}

/// The first rule, in list order, whose trigger holds `code` and is entirely
/// held; an earlier rule wins over a later, more specific one.
pub fn lookup_mapping<'a>(
    mappings: &'a Vec<Mapping>,
    currently_pressed_keys: &Vec<KeyCode>,
    code: KeyCode,
) -> (r: Option<&'a Mapping>)
    ensures
        r is None <==> forall|i: int|
            0 <= i < mappings@.len() ==> !rule_matches(
                #[trigger] mappings@[i]@,
                currently_pressed_keys@.to_set(),
                code,
            ),
        r matches Some(m) ==> exists|i: int|
            is_first_match(rule_views(mappings@), currently_pressed_keys@.to_set(), code, i)
                && *m == mappings@[i],
{
    let ghost held = currently_pressed_keys@.to_set();
    let mut i: usize = 0;
    while i < mappings.len()
        invariant
            0 <= i <= mappings@.len(),
            held == currently_pressed_keys@.to_set(),
            forall|j: int| 0 <= j < i ==> !rule_matches(#[trigger] mappings@[j]@, held, code),
        decreases mappings.len() - i,
    {
        let m = &mappings[i];
        match m {
            Mapping::Remap { input, .. } => {
                if contains_key(input, code) && is_subset(input, currently_pressed_keys) {
                    assert(input@.to_set().contains(code));
                    assert(is_first_match(rule_views(mappings@), held, code, i as int));
                    return Some(m);
                }
                assert(!rule_matches(mappings@[i as int]@, held, code));
            },
        }
        i += 1;
    }
    None
}

/// What one outgoing event does to the set of keys that the output device
/// holds.
pub open spec fn apply_event(held: Set<KeyCode>, e: EvKeyEvent) -> Set<KeyCode> {
    match e.key_event_type {
        KeyEventType::Press | KeyEventType::Repeat => held.insert(e.ev_key),
        KeyEventType::Release => held.remove(e.ev_key),
        KeyEventType::Unknown(_) => held,
    }
}

/// What a sequence of outgoing events, in order, does to the set of keys that
/// the output device holds.
pub open spec fn apply_events(held: Set<KeyCode>, evs: Seq<EvKeyEvent>) -> Set<KeyCode>
    decreases evs.len(),
{
    if evs.len() == 0 {
        held
    } else {
        apply_event(apply_events(held, evs.drop_last()), evs.last())
    }
}

/// A transition from `from` to `to` leaves the output device holding exactly
/// `to`.
pub proof fn lemma_transition_reaches(
    evs: Seq<EvKeyEvent>,
    from: Set<KeyCode>,
    to: Set<KeyCode>,
    time: TimeVal,
)
    requires
        is_transition(evs, from, to, time),
    ensures
        apply_events(from, evs) == to,
{
    lemma_distinct_events_apply(evs, from, evs.len() as int);
    assert(evs.subrange(0, evs.len() as int) =~= evs);
    assert(from.difference(released_keys(evs)).union(pressed_keys(evs)) =~= to);
}

/// No transition both releases and presses the same key.
pub proof fn lemma_transition_never_releases_and_presses(
    evs: Seq<EvKeyEvent>,
    from: Set<KeyCode>,
    to: Set<KeyCode>,
    time: TimeVal,
)
    requires
        is_transition(evs, from, to, time),
    ensures
        released_keys(evs).disjoint(pressed_keys(evs)),
{
}

/// Over events that are presses or releases of distinct keys, a prefix takes
/// `from` to `from` less what it released plus what it pressed.
proof fn lemma_distinct_events_apply(evs: Seq<EvKeyEvent>, from: Set<KeyCode>, n: int)
    requires
        0 <= n <= evs.len(),
        forall|i: int|
            0 <= i < evs.len() ==> ((#[trigger] evs[i]).key_event_type == KeyEventType::Release
                || evs[i].key_event_type == KeyEventType::Press),
        forall|i: int, j: int|
            0 <= i < evs.len() && 0 <= j < evs.len() && i != j ==> #[trigger] evs[i].ev_key
                != #[trigger] evs[j].ev_key,
    ensures
        apply_events(from, evs.subrange(0, n)) == from.difference(
            released_keys(evs.subrange(0, n)),
        ).union(pressed_keys(evs.subrange(0, n))),
    decreases n,
{
    let p = evs.subrange(0, n);
    if n == 0 {
        assert(released_keys(p) =~= Set::empty());
        assert(pressed_keys(p) =~= Set::empty());
        assert(from.difference(released_keys(p)).union(pressed_keys(p)) =~= from);
    } else {
        let q = evs.subrange(0, n - 1);
        lemma_distinct_events_apply(evs, from, n - 1);
        assert(p.drop_last() =~= q);
        let e = evs[n - 1];
        assert(p.last() == e);
        assert forall|k: KeyCode| #[trigger] released_keys(p).contains(k) <==> (released_keys(
            q,
        ).contains(k) || (k == e.ev_key && e.key_event_type == KeyEventType::Release)) by {
            if released_keys(p).contains(k) {
                let m = choose|m: int|
                    0 <= m < p.len() && p[m].ev_key == k && p[m].key_event_type
                        == KeyEventType::Release;
                if m < n - 1 {
                    assert(q[m] == p[m]);
                }
            }
            if released_keys(q).contains(k) {
                let m = choose|m: int|
                    0 <= m < q.len() && q[m].ev_key == k && q[m].key_event_type
                        == KeyEventType::Release;
                assert(p[m] == q[m]);
            }
            if k == e.ev_key && e.key_event_type == KeyEventType::Release {
                assert(p[n - 1] == e);
            }
        }
        assert forall|k: KeyCode| #[trigger] pressed_keys(p).contains(k) <==> (pressed_keys(
            q,
        ).contains(k) || (k == e.ev_key && e.key_event_type == KeyEventType::Press)) by {
            if pressed_keys(p).contains(k) {
                let m = choose|m: int|
                    0 <= m < p.len() && p[m].ev_key == k && p[m].key_event_type
                        == KeyEventType::Press;
                if m < n - 1 {
                    assert(q[m] == p[m]);
                }
            }
            if pressed_keys(q).contains(k) {
                let m = choose|m: int|
                    0 <= m < q.len() && q[m].ev_key == k && q[m].key_event_type
                        == KeyEventType::Press;
                assert(p[m] == q[m]);
            }
            if k == e.ev_key && e.key_event_type == KeyEventType::Press {
                assert(p[n - 1] == e);
            }
        }
        assert(!released_keys(q).contains(e.ev_key)) by {
            if released_keys(q).contains(e.ev_key) {
                let m = choose|m: int|
                    0 <= m < q.len() && q[m].ev_key == e.ev_key && q[m].key_event_type
                        == KeyEventType::Release;
                assert(evs[m].ev_key == evs[n - 1].ev_key);
            }
        }
        assert(!pressed_keys(q).contains(e.ev_key)) by {
            if pressed_keys(q).contains(e.ev_key) {
                let m = choose|m: int|
                    0 <= m < q.len() && q[m].ev_key == e.ev_key && q[m].key_event_type
                        == KeyEventType::Press;
                assert(evs[m].ev_key == evs[n - 1].ev_key);
            }
        }
        assert(apply_events(from, p) =~= from.difference(released_keys(p)).union(
            pressed_keys(p),
        ));
    }
}

/// The keys of `keys`, each once.
pub(crate) fn distinct_keys(keys: &Vec<KeyCode>) -> (r: Vec<KeyCode>)
    ensures
        r@.no_duplicates(),
        r@.to_set() == keys@.to_set(),
{
    let mut out: Vec<KeyCode> = Vec::new();
    let mut i: usize = 0;
    while i < keys.len()
        invariant
            0 <= i <= keys@.len(),
            out@.no_duplicates(),
            forall|x: KeyCode| #[trigger]
                out@.to_set().contains(x) <==> exists|m: int| 0 <= m < i && keys@[m] == x,
        decreases keys.len() - i,
    {
        insert_key(&mut out, keys[i]);
        i += 1;
    }
    proof {
        assert forall|x: KeyCode| out@.to_set().contains(x) <==> keys@.to_set().contains(x) by {
            if keys@.contains(x) {
                let m = choose|m: int| 0 <= m < keys@.len() && keys@[m] == x;
            }
        }
        assert(out@.to_set() =~= keys@.to_set());
    }
    out
}

} // verus!
