pub mod aggregate;
pub mod disk;
pub mod envelope;
pub mod json;
pub mod keyer;
pub mod parse;
pub mod paths;
pub mod pipeline;
pub mod roundtrip;
pub mod store;
pub mod text;

pub use json::JsonValue;
