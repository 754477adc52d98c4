//! Driver for the PCD8544 84x48 monochrome LCD controller: an in-memory
//! framebuffer of six row-banks, the controller's command encodings, and the
//! byte-transaction protocol over a serial bus and four control lines.
//!
//! Every byte goes out as a transaction of its own, framed by a chip-enable
//! pulse; `flush` sends the framebuffer that way too.

pub mod bus;
pub mod command;
pub mod driver;
pub mod pixels;

pub use bus::{BusOp, OutputError, OutputPin, SpiWrite};
pub use command::{BiasMode, DisplayMode, TemperatureCoefficient};
pub use driver::{BinaryColor, DriverError, PCD8544};
