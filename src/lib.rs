//! Encoding of structured values as a keyed-archive object graph, and the
//! flattening of a decoded archive root into a nested dictionary.
pub mod decode;
pub mod encode;
pub mod table;
pub mod value;
