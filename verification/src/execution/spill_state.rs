//! The agreement between an operator that can spill and the buffer manager.
//!
//! The buffer manager asks for memory through an adapter, which only records the
//! request. The operator takes the request on its next push and spills then.

use vstd::prelude::*;

verus! {

/// The part of memory that a consumer's buffers count towards.
#[derive(Debug, Clone, Copy, PartialEq, Eq, Structural)]
pub enum MemoryRegion {
    /// Nodes, edges and properties.
    GraphStorage,
    /// Indexes.
    IndexBuffers,
    /// Buffers of running queries.
    ExecutionBuffers,
    /// Data waiting to be written to disk.
    SpillStaging,
}

/// The buffer manager's eviction priorities, by kind of consumer.
#[derive(Debug, Clone, Copy, PartialEq, Eq, Structural)]
pub struct Priorities {
    /// The priority of buffers of running queries.
    pub execution_buffers: u8,
}

/// Why a consumer cannot spill.
#[derive(Debug, Clone, Copy, PartialEq, Eq, Structural)]
pub enum SpillError {
    /// The consumer has nowhere to spill to.
    NotSupported,
}

/// What an operator and its adapter share: how much memory the operator uses, and
/// whether the buffer manager wants some of it back.
#[derive(Debug)]
pub struct OperatorSpillState {
    name: String,
    usage: usize,
    eviction_requested: bool,
    eviction_target: usize,
}

impl OperatorSpillState {
    /// The consumer's name.
    pub closed spec fn consumer(&self) -> Seq<char> {
        self.name@
    }

    /// The bytes in use.
    pub closed spec fn used(&self) -> usize {
        self.usage
    }

    /// The request that has not been taken yet.
    pub closed spec fn pending(&self) -> Option<usize> {
        if self.eviction_requested {
            Some(self.eviction_target)
        } else {
            None
        }
    }

    /// Creates a state without usage and without a request.
    pub fn new(name: String) -> (r: Self)
        ensures
            r.consumer() == name@,
            r.used() == 0,
            r.pending() is None,
    {
        Self { name, usage: 0, eviction_requested: false, eviction_target: 0 }
    }

    /// Records how many bytes the operator uses.
    pub fn set_usage(&mut self, bytes: usize)
        ensures
            final(self).used() == bytes,
            final(self).consumer() == old(self).consumer(),
            final(self).pending() == old(self).pending(),
    {
        self.usage = bytes;
    }

    /// The bytes that the operator uses.
    pub fn usage(&self) -> (r: usize)
        ensures
            r == self.used(),
    {
        self.usage
    }

    /// Asks the operator to free memory. A later request replaces an earlier one.
    pub fn request_eviction(&mut self, target_bytes: usize)
        ensures
            final(self).pending() == Some(target_bytes),
            final(self).used() == old(self).used(),
            final(self).consumer() == old(self).consumer(),
    {
        self.eviction_target = target_bytes;
        self.eviction_requested = true;
    }

    /// Takes the request, so that each one is served exactly once.
    pub fn take_eviction_request(&mut self) -> (r: Option<usize>)
        ensures
            r == old(self).pending(),
            final(self).pending() is None,
            final(self).used() == old(self).used(),
            final(self).consumer() == old(self).consumer(),
    {
        if self.eviction_requested {
            self.eviction_requested = false;
            Some(self.eviction_target)
        } else {
            None
        }
    }

    /// The consumer's name.
    pub fn name(&self) -> (r: &str)
        ensures
            r@ == self.consumer(),
    {
        self.name.as_str()
    }
}

/// What the buffer manager sees of an operator.
///
/// Requests to evict or to spill free nothing at once: they are recorded, and the
/// operator serves them on its next push.
#[derive(Debug)]
pub struct OperatorConsumerAdapter {
    state: OperatorSpillState,
}

impl OperatorConsumerAdapter {
    /// The state that is adapted.
    pub closed spec fn adapted(&self) -> OperatorSpillState {
        self.state
    }

    /// Creates an adapter for the given state.
    pub fn new(state: OperatorSpillState) -> (r: Self)
        ensures
            r.adapted() == state,
    {
        Self { state }
    }

    /// The state, for the operator's side.
    pub fn state_mut(&mut self) -> (r: &mut OperatorSpillState)
        ensures
            *r == old(self).adapted(),
            final(self).adapted() == *final(r),
    {
        &mut self.state
    }

    /// The consumer's name.
    pub fn name(&self) -> (r: &str)
        ensures
            r@ == self.adapted().consumer(),
    {
        self.state.name()
    }

    /// The bytes in use.
    pub fn memory_usage(&self) -> (r: usize)
        ensures
            r == self.adapted().used(),
    {
        self.state.usage()
    }

    /// The consumer's eviction priority, which is that of execution buffers.
    pub fn eviction_priority(&self, priorities: &Priorities) -> (r: u8)
        ensures
            r == priorities.execution_buffers,
    {
        priorities.execution_buffers
    }

    /// The region that the consumer counts towards.
    pub fn region(&self) -> (r: MemoryRegion)
        ensures
            r == MemoryRegion::ExecutionBuffers,
    {
        MemoryRegion::ExecutionBuffers
    }

    /// Asks for memory back. Nothing is freed yet.
    pub fn evict(&mut self, target_bytes: usize) -> (r: usize)
        ensures
            r == 0,
            final(self).adapted().pending() == Some(target_bytes),
            final(self).adapted().used() == old(self).adapted().used(),
            final(self).adapted().consumer() == old(self).adapted().consumer(),
    {
        self.state.request_eviction(target_bytes);
        0
    }

    /// Whether the consumer can spill.
    pub fn can_spill(&self) -> (r: bool)
        ensures
            r,
    {
        true
    }

    /// Asks the consumer to spill. Nothing is freed yet.
    pub fn spill(&mut self, target_bytes: usize) -> (r: Result<usize, SpillError>)
        ensures
            r == Ok::<usize, SpillError>(0),
            final(self).adapted().pending() == Some(target_bytes),
            final(self).adapted().used() == old(self).adapted().used(),
            final(self).adapted().consumer() == old(self).adapted().consumer(),
    {
        self.state.request_eviction(target_bytes);
        Ok(0)
    }
}

} // verus!
