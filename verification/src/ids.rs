//! Fresh identifiers for components and signal clusters.

use vstd::prelude::*;

verus! {

/// Hands out component addresses and cluster ids, each strictly above every
/// value it has handed out before and above the values it was seeded with.
#[derive(Clone, Copy, Debug)]
pub struct Allocator {
    last_address: u32,
    last_cluster: u32,
}

impl Allocator {
    /// The highest component address in use: seeded or handed out.
    pub closed spec fn max_address(&self) -> nat {
        self.last_address as nat
    }

    /// The highest cluster id in use: seeded or handed out.
    pub closed spec fn max_cluster(&self) -> nat {
        self.last_cluster as nat
    }

    /// An allocator above the highest address and the highest cluster id
    /// already present in the target netlist.
    pub fn seeded(max_address: u32, max_cluster: u32) -> (alloc: Allocator)
        ensures
            alloc.max_address() == max_address,
            alloc.max_cluster() == max_cluster,
    {
        Allocator { last_address: max_address, last_cluster: max_cluster }
    }

    /// The highest component address in use.
    pub fn highest_address(&self) -> (a: u32)
        ensures
            a == self.max_address(),
    {
        self.last_address
    }

    /// The highest cluster id in use.
    pub fn highest_cluster(&self) -> (c: u32)
        ensures
            c == self.max_cluster(),
    {
        self.last_cluster
    }

    /// A fresh component address: one above the highest in use.
    pub fn next_address(&mut self) -> (a: u32)
        requires
            old(self).max_address() < u32::MAX,
        ensures
            a == old(self).max_address() + 1,
            final(self).max_address() == a,
            final(self).max_cluster() == old(self).max_cluster(),
    {
        self.last_address = self.last_address + 1;
        self.last_address
    }

    /// A fresh cluster id: one above the highest in use.
    pub fn next_cluster(&mut self) -> (c: u32)
        requires
            old(self).max_cluster() < u32::MAX,
        ensures
            c == old(self).max_cluster() + 1,
            final(self).max_cluster() == c,
            final(self).max_address() == old(self).max_address(),
    {
        self.last_cluster = self.last_cluster + 1;
        self.last_cluster
    }
}

} // verus!
