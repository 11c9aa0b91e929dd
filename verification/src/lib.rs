//! A discrete-time circuit simulator: chips with typed, directional pins are
//! wired together on a board, and every clock tick first evaluates each chip
//! and then carries values across the shorted pin groups.

pub mod board;
pub mod builder;
pub mod chip;
pub mod computer;
pub mod coverage;
pub mod description;
pub mod either;
pub mod exposure;
pub mod pin;
pub mod pin_attr;
pub mod plan;
pub mod settled;
pub mod shorting;
pub mod spelling;
pub mod syntax;
pub mod text;
pub mod token;
pub mod traits;
pub mod uniformity;
pub mod util;

pub use board::Board;
pub use builder::BoardBuilder;
pub use description::DescriptionError;
pub use plan::BuildError;
pub use syntax::{ExposedPins, PcbMacroInput};
pub use traits::{
    BusContention, Chip, ChipInterface, ChipPin, ConnectedPins, HardwareModule, PinMetadata,
    PinType,
};
pub use util::{get_pin_group, GroupError};
