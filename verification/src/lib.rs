pub mod cache;
pub mod calendar;
pub mod events;
pub mod fetch;
pub mod format;
pub mod fsops;
pub mod matcher;
pub mod render;
pub mod text;
pub mod tree;
pub mod treebuild;
pub mod validate;
