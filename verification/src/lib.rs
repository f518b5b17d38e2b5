pub mod lang;
pub mod tree;
pub mod order;
pub mod index;
pub mod paths;
pub mod builder;
pub mod count;
pub mod render;
pub mod text;
pub mod cli;
pub mod code;
pub mod pixels;
