pub mod envelope;
pub mod frame;
pub mod json;
pub mod keyed;
pub mod lua_bridge;
pub mod registry;
pub mod runtime;
pub mod text;
