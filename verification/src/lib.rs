//! Swell Blazing Package Manager: the verified core.

#![allow(unused_imports)]

pub mod db;
pub mod install;
pub mod num;
pub mod ops;
pub mod package;
pub mod order;
pub mod repo;
pub mod text;
