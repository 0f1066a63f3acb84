//! Random-access memory: a sparse map from addresses to machine words.

use std::collections::BTreeMap;
use vstd::prelude::*;

use crate::error::{RtError, RtResult};

verus! {

broadcast use vstd::laws_cmp::group_laws_cmp, vstd::std_specs::btree::group_btree_axioms;

/// Memory cells of a program; only addresses present in the map exist.
#[derive(Debug, Default)]
pub struct Memory(BTreeMap<usize, usize>);

impl View for Memory {
    type V = Map<usize, usize>;

    closed spec fn view(&self) -> Map<usize, usize> {
        self.0@
    }
}

/// Relies on `BTreeMap::get_mut`: a mutable reference to the value at the
/// key when the key is present, through which the map's value changes.
#[verifier::external_body]
fn map_get_mut<'a>(m: &'a mut BTreeMap<usize, usize>, k: &usize) -> (r: Option<&'a mut usize>)
    ensures
        match r {
            Some(v) => old(m)@.contains_key(*k) && *v == old(m)@[*k] && final(m)@ == old(m)@.insert(*k, *final(v)),
            None => !old(m)@.contains_key(*k) && final(m)@ == old(m)@,
        },
{
    m.get_mut(k)
}

impl Memory {
    pub fn new(mem: BTreeMap<usize, usize>) -> (r: Memory)
        ensures
            r@ == mem@,
    {
        Memory(mem)
    }

    /// The word stored at `addr`.
    pub fn get(&self, addr: &usize) -> (r: RtResult<&usize>)
        ensures
            match r {
                Ok(v) => self@.contains_key(*addr) && *v == self@[*addr],
                Err(e) => !self@.contains_key(*addr) && e == RtError::InvalidAddr(*addr),
            },
    {
        match self.0.get(addr) {
            Some(v) => Ok(v),
            None => Err(RtError::InvalidAddr(*addr)),
        }
    }

    /// Overwrites an existing cell; a missing cell is an error and leaves
    /// memory as it was.
    pub fn write(&mut self, addr: &usize, val: usize) -> (r: RtResult<()>)
        ensures
            old(self)@.contains_key(*addr) ==> r is Ok && final(self)@ == old(self)@.insert(*addr, val),
            !old(self)@.contains_key(*addr) ==> r == Err::<(), RtError>(RtError::InvalidAddr(*addr))
                && final(self)@ == old(self)@,
    {
        if self.0.contains_key(addr) {
            self.0.insert(*addr, val);
            Ok(())
        } else {
            Err(RtError::InvalidAddr(*addr))
        }
    }

    /// A mutable reference to the word stored at `addr`.
    pub fn get_mut(&mut self, addr: &usize) -> (r: RtResult<&mut usize>)
        ensures
            match r {
                Ok(v) => old(self)@.contains_key(*addr) && *v == old(self)@[*addr] && final(self)@ == old(
                    self,
                )@.insert(*addr, *final(v)),
                Err(e) => !old(self)@.contains_key(*addr) && e == RtError::InvalidAddr(*addr) && final(self)@
                    == old(self)@,
            },
    {
        match map_get_mut(&mut self.0, addr) {
            Some(v) => Ok(v),
            None => Err(RtError::InvalidAddr(*addr)),
        }
    }

    /// The underlying map.
    pub fn inner(&self) -> (r: &BTreeMap<usize, usize>)
        ensures
            r@ == self@,
    {
        &self.0
    }

    /// Number of cells.
    pub fn len(&self) -> (r: usize)
        ensures
            r == self@.len(),
    {
        self.0.len()
    }
}

} // verus!
