//! Plain vertex and edge types.

use vstd::prelude::*;
use vstd::std_specs::cmp::PartialEqSpecImpl;

verus! {

#[derive(Eq)]
pub struct IdVertex {
    pub id: usize,
}

impl PartialEq for IdVertex {
    fn eq(&self, other: &Self) -> (r: bool) {
        self.id == other.id
    }
}

impl PartialEqSpecImpl for IdVertex {
    open spec fn obeys_eq_spec() -> bool {
        true
    }

    open spec fn eq_spec(&self, other: &Self) -> bool {
        self.id == other.id
    }
}

impl super::IdVertex for IdVertex {
    open spec fn id_spec(&self) -> usize {
        self.id
    }

    fn id(&self) -> (r: usize) {
        self.id
    }
}

impl IdVertex {
    pub fn new(id: usize) -> (v: Self)
        ensures
            v.id == id,
    {
        IdVertex { id }
    }
}

#[derive(Eq)]
pub struct IdEdge {
    pub from: usize,
    pub to: usize,
}

impl PartialEq for IdEdge {
    fn eq(&self, other: &Self) -> (r: bool) {
        self.from == other.from && self.to == other.to
    }
}

impl PartialEqSpecImpl for IdEdge {
    open spec fn obeys_eq_spec() -> bool {
        true
    }

    open spec fn eq_spec(&self, other: &Self) -> bool {
        self.from == other.from && self.to == other.to
    }
}

impl super::IdEdge for IdEdge {
    open spec fn from_spec(&self) -> usize {
        self.from
    }

    open spec fn to_spec(&self) -> usize {
        self.to
    }

    fn from(&self) -> (r: usize) {
        self.from
    }

    fn to(&self) -> (r: usize) {
        self.to
    }
}

impl IdEdge {
    pub fn new(from: usize, to: usize) -> (e: Self)
        ensures
            e.from == from,
            e.to == to,
    {
        IdEdge { from, to }
    }
}

#[derive(Eq)]
pub struct LengthIdEdge {
    pub inner: IdEdge,
    pub length: isize,
}

impl PartialEq for LengthIdEdge {
    fn eq(&self, other: &Self) -> (r: bool) {
        self.inner.from == other.inner.from && self.inner.to == other.inner.to && self.length
            == other.length
    }
}

impl PartialEqSpecImpl for LengthIdEdge {
    open spec fn obeys_eq_spec() -> bool {
        true
    }

    open spec fn eq_spec(&self, other: &Self) -> bool {
        self.inner.from == other.inner.from && self.inner.to == other.inner.to && self.length
            == other.length
    }
}

impl super::IdEdge for LengthIdEdge {
    open spec fn from_spec(&self) -> usize {
        self.inner.from
    }

    open spec fn to_spec(&self) -> usize {
        self.inner.to
    }

    fn from(&self) -> (r: usize) {
        self.inner.from
    }

    fn to(&self) -> (r: usize) {
        self.inner.to
    }
}

impl super::LengthEdge for LengthIdEdge {
    open spec fn length_spec(&self) -> isize {
        self.length
    }

    fn length(&self) -> (r: isize) {
        self.length
    }
}

impl LengthIdEdge {
    pub fn new(from: usize, to: usize, length: isize) -> (e: Self)
        ensures
            e.inner.from == from,
            e.inner.to == to,
            e.length == length,
    {
        LengthIdEdge { inner: IdEdge::new(from, to), length }
    }
}

} // verus!
