use vstd::prelude::*;

pub mod cache;
pub mod catalog;
pub mod check;
pub mod config;
pub mod ctl_proto;
pub mod dag;
pub mod executor;
pub mod fstab;
pub mod graph;
pub mod pid1;
pub mod ready;
pub mod scaffold;
pub mod service;
pub mod text;

verus! {

} // verus!
