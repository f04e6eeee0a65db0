pub mod position;
pub mod text;
pub mod cst;
pub mod tree;
pub mod arena;
pub mod translator;
pub mod symbol_table;
pub mod metadata;
pub mod completion;
pub mod session;
