//! Single-image haze removal by the dark-channel prior.
//!
//! The pipeline runs in four stages over an RGB pixel grid: the dark channel
//! (`dark_channel`), the atmospheric light (`get_atmospheric`), the
//! transmission map (`transmission_map`) and the recovered scene radiance
//! (`reconstruct`). All tuning constants are exact fractions.

pub mod types;
pub mod transmission;
pub mod dark;
pub mod atmosphere;
pub mod radiance;
pub mod pipeline;


pub use types::{Fraction, HazeError, Image, Rgb};
pub use transmission::transmission_map;
pub use dark::dark_channel;
pub use atmosphere::get_atmospheric;
pub use radiance::{reconstruct, transmission_rgb};
pub use pipeline::{dehaze, Dehazed, HazeParams};
