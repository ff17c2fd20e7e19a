#![allow(unused_imports)]

pub mod cli;
pub mod config;
pub mod controller;
pub mod converge;
pub mod cty;
pub mod derive;
pub mod digest;
pub mod discover;
pub mod drift;
pub mod fixtures;
pub mod flow;
pub mod gather;
pub mod json;
pub mod keyed;
pub mod ordmap;
pub mod text;
pub mod time;
pub mod types;
