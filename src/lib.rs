//! Frame buffers, scenes and key handling for a multi-channel light array.
use vstd::prelude::*;

pub mod color;
pub mod frame;
pub mod scene;
pub mod scene_text;

pub use color::{match_mode, ColorPicker, KeyInput, CHANNELS_PER_MODULE};
pub use frame::{Frame, IndexError};
pub use scene::{Scene, SceneError};
pub use scene_text::FormatError;
