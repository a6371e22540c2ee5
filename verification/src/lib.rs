pub mod text;
pub mod glob;
pub mod types;
pub mod tree;
pub mod tree_props;
pub mod app;
pub mod commit;
pub mod diff;
pub mod svn;
pub mod workflow;
pub mod view;
pub mod keys;
pub mod laws;
