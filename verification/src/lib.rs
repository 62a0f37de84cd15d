//! Driver library for a 600x448 seven-color electrophoretic display panel
//! addressed over a four-wire serial bus.
//!
//! The library keeps a packed in-memory framebuffer (two 4-bit color codes
//! per byte), converts 24-bit RGB values to the panel's native palette, and
//! sequences the panel's documented command protocol over an abstract bus
//! transport.

pub mod color;
pub mod display;
pub mod transport;

pub use color::Color;
pub use color::Palette;
pub use color::Rgb;
pub use color::SATURATION_SCALE;
pub use display::Config;
pub use display::Display;
pub use transport::BusEvent;
pub use transport::FailingTransport;
pub use transport::Level;
pub use transport::RecordedEvent;
pub use transport::RecordingTransport;
pub use transport::Transport;
pub use transport::TransportError;
