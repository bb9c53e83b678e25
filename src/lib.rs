use vstd::prelude::*;

pub mod eeprom;
pub mod layout;
pub mod settings;

pub use eeprom::{EepromEmu, NotEnoughSpace};
pub use settings::{SerializationError, SettingsItem, SettingsKey};

verus! {

} // verus!
