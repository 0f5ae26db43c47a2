//! Key remapping engine: tracks which keys are held on a physical keyboard and
//! on a synthesized output device, and computes the events that move the
//! output device to the key set that the remapping rules ask for.

pub mod event_logic;
pub mod machine;
pub mod mapping;
pub mod types;

pub use event_logic::{
    apply_mapping_to_held_keys, compute_keys_based_on_state, lookup_mapping, modifiers_first,
    modifiers_last,
};
pub use machine::Machine;
pub use mapping::{key_from_lookup, ConfigError, KeyNameLookup, Mapping, MappingConfig};
pub use types::{is_modifier, EvKeyEvent, KeyCode, KeyEventType, TimeVal};
