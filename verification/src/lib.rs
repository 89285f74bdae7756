//! Discrete core of a ray tracer: the text formats it reads and writes.

pub mod canvas;
pub mod containers;
pub mod obj;
pub mod output;
pub mod scene;
pub mod text;
pub mod yaml;
