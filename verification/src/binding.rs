//! Descriptions of the resource bindings that a shader stage expects.

use vstd::prelude::*;

verus! {

/// The layout of one group of bindings.
#[derive(Debug, Clone, PartialEq, Eq, Hash)]
pub struct BindGroupLayoutDescriptor<'a> {
    pub label: Option<&'a str>,
    pub entries: Vec<BindGroupLayoutEntry>,
}

/// One binding of a group: its slot and how many resources it holds.
#[derive(Debug, Copy, Clone, PartialEq, Eq, Hash)]
pub struct BindGroupLayoutEntry {
    pub binding: u32,
    pub count: u32,
}

/// Marks a type whose fields describe a bind group layout.
pub trait AsBindingLayout {
}

} // verus!
