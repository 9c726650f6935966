use vstd::prelude::*;

pub mod models;
pub mod id_map;
pub mod db;
pub mod text;
pub mod pages;
pub mod page_helpers;
pub mod prompts;
pub mod navigator;
pub mod codec;

