//! Core logic of the betterjenkins controller: parsing uploaded task files,
//! planning the rows a job adds to the database, naming workspaces and
//! executor jobs, and the decisions of the controller's polling loops.

pub mod text;
pub mod upload;
pub mod config;
pub mod run;
pub mod workspace;
pub mod db;
