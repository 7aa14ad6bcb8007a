pub mod tree;
pub mod restructure;
pub mod registry;
pub mod relay;
pub mod membership;
pub mod codec;
