pub mod adapter;
pub mod app_state;
pub mod catalog;
pub mod json;
pub mod model;
pub mod order;
pub mod percent;
pub mod retention;
pub mod rows;
pub mod scan;
pub mod sources;
pub mod state_machine;
pub mod tasks;
pub mod text;
pub mod timestamp;
pub mod titles;
