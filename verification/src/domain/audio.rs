//! What a Mechvibes-style sound pack declares in its `config.json`.
use vstd::prelude::*;

verus! {

/// How a pack maps keys to sounds.
#[derive(Debug, Clone, Copy, PartialEq, Eq, Structural)]
pub enum KeyDefineType {
    /// One sound file; each key plays a slice of it.
    Single,
    /// One sound file per key.
    Multi,
}

/// The sound of one key.
#[derive(Debug, Clone, PartialEq, Eq)]
pub enum KeyDefine {
    /// For single mode: [start_time_ms, duration_ms]
    Single(Vec<u64>),
    /// For multi mode: filename (e.g. "key1.wav") or null
    Multi(Option<String>),
}

/// A sound pack description.
///
/// `defines` maps key codes to their sounds; a key occurs at most once
/// (see [`MechvibesConfig::has_distinct_keys`]). `path` is the pack's
/// directory; it is not part of `config.json` and is empty after reading it.
#[derive(Debug, Clone)]
pub struct MechvibesConfig {
    pub id: String,
    pub name: String,
    pub key_define_type: KeyDefineType,
    pub includes_numpad: bool,
    pub sound: String,
    pub defines: Vec<(String, KeyDefine)>,
    pub path: String,
}

impl MechvibesConfig {
    /// No key is defined twice.
    pub open spec fn has_distinct_keys(&self) -> bool {
        forall|i: int, j: int|
            0 <= i < j < self.defines.len() ==> #[trigger] self.defines[i].0@
                != #[trigger] self.defines[j].0@
    }
}

} // verus!
