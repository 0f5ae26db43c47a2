use crate::types::{is_modifier_key, KeyCode};
use vstd::prelude::*;

verus! {

/// A remapping rule: while every key of `input` is held, the keys of `output`
/// are reported instead of the non-modifier keys of `input`.
///
/// Each field is read as a set: order and repetition carry no meaning.
#[derive(Clone, Debug, PartialEq, Eq)]
pub enum Mapping {
    Remap { input: Vec<KeyCode>, output: Vec<KeyCode> },
}

/// A loaded configuration: the rules, in order of priority, and the optional
/// hints that select the input device.
#[derive(Clone, Debug)]
pub struct MappingConfig {
    pub device_name: Option<String>,
    pub phys: Option<String>,
    pub mappings: Vec<Mapping>,
}

/// A rule as two sets of keys.
pub struct MappingView {
    /// The keys that must all be held for the rule to apply.
    pub trigger: Set<KeyCode>,
    /// The keys that the rule produces.
    pub produced: Set<KeyCode>,
}

impl View for Mapping {
    type V = MappingView;

    open spec fn view(&self) -> MappingView {
        match self {
            Mapping::Remap { input, output } => MappingView {
                trigger: input@.to_set(),
                produced: output@.to_set(),
            },
        }
    }
}

/// The rules of `s`, each as two sets of keys.
pub open spec fn rule_views(s: Seq<Mapping>) -> Seq<MappingView> {
    s.map_values(|m: Mapping| m@)
}

/// The keys of `s` that are not modifiers.
pub open spec fn plain_keys(s: Set<KeyCode>) -> Set<KeyCode> {
    s.filter(|k: KeyCode| !is_modifier_key(k))
}

/// One rule applied to the working set `w`: where its trigger is held, its
/// non-modifier trigger keys leave the set and its non-modifier produced keys
/// join it. Modifiers stay as they are.
pub open spec fn apply_rule(w: Set<KeyCode>, m: MappingView) -> Set<KeyCode> {
    if m.trigger.subset_of(w) {
        w.difference(plain_keys(m.trigger)).union(plain_keys(m.produced))
    } else {
        w
    }
}

/// The keys that the output device should hold while `held` is held on the
/// input device: the rules applied one after another, in order, each seeing
/// what the ones before it left.
pub open spec fn desired_keys(rules: Seq<MappingView>, held: Set<KeyCode>) -> Set<KeyCode>
    decreases rules.len(),
{
    if rules.len() == 0 {
        held
    } else {
        apply_rule(desired_keys(rules.drop_last(), held), rules.last())
    }
}

/// Whether rule `m` answers a repeat of `code` while `held` is held.
pub open spec fn rule_matches(m: MappingView, held: Set<KeyCode>, code: KeyCode) -> bool {
    m.trigger.contains(code) && m.trigger.subset_of(held)
}

/// An error in a key remapping configuration.
#[derive(Clone, Debug, PartialEq, Eq)]
pub enum ConfigError {
    /// No key has this name.
    InvalidKey(String),
    /// The name was found, but not as a key.
    ImpossibleParseKey,
}

/// What a lookup of a key name in the input subsystem's table found.
#[derive(Clone, Copy, Debug, PartialEq, Eq, Structural)]
pub enum KeyNameLookup {
    /// The table has no such name.
    NotFound,
    /// The name denotes this key.
    Key(KeyCode),
    /// The name is known, but does not denote a key.
    NotAKey,
}

/// The key that `name` denotes, given what the name lookup found.
pub fn key_from_lookup(name: String, found: KeyNameLookup) -> (r: Result<KeyCode, ConfigError>)
    ensures
        match found {
            KeyNameLookup::Key(k) => r == Ok::<KeyCode, ConfigError>(k),
            KeyNameLookup::NotAKey => r == Err::<KeyCode, ConfigError>(
                ConfigError::ImpossibleParseKey,
            ),
            KeyNameLookup::NotFound => r matches Err(ConfigError::InvalidKey(s)) && s@ == name@,
        },
{
    match found {
        KeyNameLookup::Key(k) => Ok(k),
        KeyNameLookup::NotAKey => Err(ConfigError::ImpossibleParseKey),
        KeyNameLookup::NotFound => Err(ConfigError::InvalidKey(name)),
    }
}

} // verus!
