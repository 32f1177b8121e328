//! Content-aware image narrowing by seam carving.
//!
//! A picture is narrowed one column at a time: an energy map rates every pixel,
//! a dynamic program finds the connected top-to-bottom path of least total
//! energy, and that path is cut out of the picture.

pub mod carve;
pub mod energy;
pub mod error;
pub mod fixed;
pub mod picture;
pub mod seam;

pub use carve::{delete_seam, resize_image};
pub use energy::{calculate_energy_map, get_pixel_energy, EnergyMap};
pub use error::CarveError;
pub use fixed::{scaled_sqrt, ENERGY_ONE};
pub use picture::{Color, Picture};
pub use seam::{find_low_energy_seam, PixelLocation, Seam, SeamPixel};
