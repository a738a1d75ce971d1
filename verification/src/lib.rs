//! Image resources of a retained-mode user interface, and its colour type.
//!
//! Once per frame the interface walks its tree and asks, for every node that
//! names an image, that the image be present: cached, handed to the rendering
//! backend, or standing in as a placeholder until a loader supplies it. What
//! no node asked for during the frame is dropped at its end, unless it is kept
//! forever.

pub mod backend;
pub mod color;
pub mod context;
pub mod decoded;
pub mod frames;
pub mod image_system;
pub mod lifecycle;
pub mod resource;
pub mod store;
