//! Typed handles to managed values.

use vstd::prelude::*;
use core::marker::PhantomData;

verus! {

/// A handle to a managed value of type `T`: the address of its storage, and
/// nothing else. Handles may be copied freely; the collector tracks the
/// storage, never the handles.
#[derive(Debug)]
pub struct GCRef<T> {
    addr: usize,
    marker: PhantomData<T>,
}

impl<T> GCRef<T> {
    /// The address of the value that the handle refers to.
    pub closed spec fn spec_address(&self) -> usize {
        self.addr
    }

    /// A handle to the value whose storage begins at `address`.
    pub fn new(address: usize) -> (handle: GCRef<T>)
        ensures
            handle.address() == address,
    {
        GCRef { addr: address, marker: PhantomData }
    }

    /// The address of the value that the handle refers to.
    #[verifier::when_used_as_spec(spec_address)]
    pub fn address(&self) -> (address: usize)
        ensures
            address == self.spec_address(),
    {
        self.addr
    }
}

impl<T> Clone for GCRef<T> {
    /// A second handle to the same value.
    fn clone(&self) -> (copy: GCRef<T>)
        ensures
            copy.address() == self.address(),
    {
        GCRef { addr: self.addr, marker: PhantomData }
    }
}

} // verus!
