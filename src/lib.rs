//! Pixel sorting: groups of pixels chosen by a scan strategy are reordered
//! by brightness and written back into the image.

pub mod pixel;
pub mod grid;
pub mod interval;
pub mod classic;
pub mod kernel;
pub mod vector;
pub mod command;
