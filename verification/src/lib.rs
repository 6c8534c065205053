//! Verified core of a small software 3D renderer: the RGBA frame buffer and
//! its line drawing, the decision part of triangle clipping, the 4x4 matrix
//! cell store, the line reader of the OBJ mesh loader, and the
//! keyboard controls of the viewer.

pub mod frame;
pub mod line;
pub mod clip;
pub mod mat4;
pub mod obj;
pub mod controls;

pub use frame::{draw, get_color, reset_screen, set_pixel};
pub use line::{draw_line, draw_triangle, fill_line};
