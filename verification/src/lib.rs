//! An atomspace whose atoms are stored as byte paths.
pub mod agreement;
pub mod answer;
pub mod argindex;
pub mod atom;
pub mod codec;
pub mod colcache;
pub mod decode;
pub mod encode;
pub mod order;
pub mod paths;
pub mod pattern;
pub mod registry;
pub mod route;
pub mod rows;
pub mod sharded;
pub mod snapshot;
pub mod space;
pub mod span;
pub mod specificity;
pub mod table;
pub mod tag;
pub mod text;
pub mod tree;
pub mod william;
