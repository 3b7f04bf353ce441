//! Handles, and the table that gives them out.
//!
//! A handle names a place in the table and the generation in which the place was taken, so
//! that a handle to what is gone is told apart from one to what took its place.

use crate::auth::SyscallError;
use core::marker::PhantomData;
use vstd::prelude::*;

verus! {

/// The identity of a resource.
#[derive(Debug, Clone, Copy, PartialEq, Eq, Structural, Hash)]
pub struct RawHandle {
    pub index: u32,
    pub generation: u32,
}

impl RawHandle {
    pub fn new(index: u32, generation: u32) -> (r: Self)
        ensures
            r == (RawHandle { index, generation }),
    {
        RawHandle { index, generation }
    }
}

/// A handle to a resource of type `T`.
#[derive(Debug, PartialEq, Eq)]
pub struct Handle<T> {
    raw: RawHandle,
    kind: PhantomData<T>,
}

impl<T> Clone for Handle<T> {
    fn clone(&self) -> (r: Self)
        ensures
            r.identity() == self.identity(),
    {
        Handle::new(self.raw)
    }
}

impl<T> Copy for Handle<T> {

}

impl<T> Handle<T> {
    /// The identity that the handle stands for.
    pub closed spec fn identity(self) -> RawHandle {
        self.raw
    }

    pub fn new(raw: RawHandle) -> (r: Self)
        ensures
            r.identity() == raw,
    {
        Handle { raw, kind: PhantomData }
    }

    /// The identity that the handle stands for.
    pub fn raw(self) -> (r: RawHandle)
        ensures
            r == self.identity(),
    {
        self.raw
    }
}

/// What a place in the table holds.
#[derive(Debug, Clone, Copy, PartialEq, Eq, Structural)]
pub enum Slot {
    /// A service.
    Service,
    /// A resource of the host.
    External,
}

#[derive(Debug, Clone, Copy, PartialEq, Eq, Structural)]
pub struct Entry {
    pub generation: u32,
    pub slot: Option<Slot>,
}

/// A table whose places are reused under new generations.
#[derive(Debug)]
pub struct Slab {
    entries: Vec<Entry>,
    free: Vec<u32>,
}

pub struct SlabV {
    pub entries: Seq<Entry>,
    pub free: Seq<u32>,
}

impl View for Slab {
    type V = SlabV;

    closed spec fn view(&self) -> SlabV {
        SlabV { entries: self.entries@, free: self.free@ }
    }
}

impl SlabV {
    /// What a handle leads to.
    pub open spec fn slot_of(self, h: RawHandle) -> Option<Slot> {
        if h.index < self.entries.len() && self.entries[h.index as int].generation == h.generation {
            self.entries[h.index as int].slot
        } else {
            None
        }
    }

    /// The free places are empty, and each is listed once.
    pub open spec fn wf(self) -> bool {
        &&& forall|k: int|
            0 <= k < self.free.len() ==> (#[trigger] self.free[k]) < self.entries.len()
                && self.entries[self.free[k] as int].slot is None
        &&& forall|j: int, k: int|
            #![trigger self.free[j], self.free[k]]
            0 <= j < k < self.free.len() ==> self.free[j] != self.free[k]
        &&& self.entries.len() <= u32::MAX + 1
    }

    /// Putting something into the table, if there is room: the place freed last is taken,
    /// or a new one.
    pub open spec fn inserted(self, slot: Slot) -> Option<(RawHandle, SlabV)> {
        if self.free.len() > 0 {
            let index = self.free.last();
            let generation = self.entries[index as int].generation;
            Some(
                (
                    RawHandle { index, generation },
                    SlabV {
                        entries: self.entries.update(
                            index as int,
                            Entry { generation, slot: Some(slot) },
                        ),
                        free: self.free.drop_last(),
                    },
                ),
            )
        } else if self.entries.len() <= u32::MAX {
            Some(
                (
                    RawHandle { index: self.entries.len() as u32, generation: 0 },
                    SlabV {
                        entries: self.entries.push(Entry { generation: 0, slot: Some(slot) }),
                        ..self
                    },
                ),
            )
        } else {
            None
        }
    }

    /// Taking out what a handle leads to.
    pub open spec fn removed(self, h: RawHandle) -> SlabV {
        if self.slot_of(h) is None {
            self
        } else {
            SlabV {
                entries: self.entries.update(
                    h.index as int,
                    Entry { generation: h.generation.wrapping_add(1), slot: None },
                ),
                free: self.free.push(h.index),
            }
        }
    }

    /// The place is in a later generation than the handle.
    pub open spec fn outlived(self, h: RawHandle) -> bool {
        h.index < self.entries.len() && self.entries[h.index as int].generation > h.generation
    }
}

/// A new handle leads to what was put in, led nowhere before, and all other handles lead
/// where they led.
pub proof fn law_new_handle_is_fresh(s: SlabV, slot: Slot, other: RawHandle)
    requires
        s.wf(),
        s.inserted(slot) is Some,
    ensures
        ({
            let (h, after) = s.inserted(slot)->Some_0;
            &&& after.wf()
            &&& s.slot_of(h) is None
            &&& after.slot_of(h) == Some(slot)
            &&& other != h ==> after.slot_of(other) == s.slot_of(other)
        }),
{
    let (h, after) = s.inserted(slot)->Some_0;
    if s.free.len() > 0 {
        assert(s.free[s.free.len() - 1] == h.index);
        assert forall|k: int| 0 <= k < after.free.len() implies (#[trigger] after.free[k])
            < after.entries.len() && after.entries[after.free[k] as int].slot is None by {
            assert(s.free[k] == after.free[k]);
            assert(s.free[k] != s.free[s.free.len() - 1]);
        }
    }
}

/// A handle whose resource was taken out leads nowhere, and all others lead where they led.
pub proof fn law_removed_handle_is_stale(s: SlabV, h: RawHandle, other: RawHandle)
    requires
        s.wf(),
    ensures
        s.removed(h).wf(),
        s.removed(h).slot_of(h) is None,
        other != h ==> s.removed(h).slot_of(other) == s.slot_of(other),
        s.slot_of(h) is Some && h.generation < u32::MAX ==> s.removed(h).outlived(h),
{
    let after = s.removed(h);
    if s.slot_of(h) is Some {
        assert forall|j: int, k: int|
            #![trigger after.free[j], after.free[k]]
            0 <= j < k < after.free.len() implies after.free[j] != after.free[k] by {
            if k == s.free.len() {
                assert(s.entries[s.free[j] as int].slot is None);
            } else {
                assert(s.free[j] != s.free[k]);
            }
        }
        assert forall|k: int| 0 <= k < after.free.len() implies (#[trigger] after.free[k])
            < after.entries.len() && after.entries[after.free[k] as int].slot is None by {
            if k < s.free.len() {
                assert(s.free[k] < s.entries.len());
            }
        }
    }
}

/// A stale handle leads nowhere, and stays stale whatever is put in or taken out, until the
/// generations of its place have all been used up.
pub proof fn law_stale_handles_stay_stale(s: SlabV, h: RawHandle, slot: Slot, gone: RawHandle)
    requires
        s.wf(),
        s.outlived(h),
        s.entries[h.index as int].generation < u32::MAX,
    ensures
        s.slot_of(h) is None,
        s.inserted(slot) matches Some((_, after)) ==> after.outlived(h),
        s.removed(gone).outlived(h),
{
}

impl Slab {
    pub fn new() -> (r: Self)
        ensures
            r@.wf(),
            r@.entries.len() == 0,
            r@.free.len() == 0,
    {
        Slab { entries: Vec::new(), free: Vec::new() }
    }

    /// Puts something into the table.
    pub fn insert(&mut self, slot: Slot) -> (r: Result<RawHandle, SyscallError>)
        requires
            old(self)@.wf(),
        ensures
            final(self)@.wf(),
            match old(self)@.inserted(slot) {
                Some((h, after)) => r == Ok::<RawHandle, SyscallError>(h) && final(self)@ == after,
                None => r == Err::<RawHandle, SyscallError>(SyscallError::ResourceExhausted)
                    && final(self)@ == old(self)@,
            },
    {
        proof {
            if self@.inserted(slot) is Some {
                law_new_handle_is_fresh(self@, slot, RawHandle { index: 0, generation: 0 });
            }
        }
        if self.free.len() > 0 {
            let last: usize = self.free.len() - 1;
            let index: u32 = self.free[last];
            assert(self.free@[last as int] < self.entries@.len());
            let _ = self.free.pop();
            let generation: u32 = self.entries[index as usize].generation;
            self.entries.set(index as usize, Entry { generation, slot: Some(slot) });
            Ok(RawHandle { index, generation })
        } else if self.entries.len() as u64 <= 4294967295u64 {
            let index: u32 = self.entries.len() as u32;
            self.entries.push(Entry { generation: 0, slot: Some(slot) });
            Ok(RawHandle { index, generation: 0 })
        } else {
            Err(SyscallError::ResourceExhausted)
        }
    }

    /// What a handle leads to.
    pub fn get(&self, h: RawHandle) -> (r: Option<Slot>)
        ensures
            r == self@.slot_of(h),
    {
        if (h.index as u64) < self.entries.len() as u64 {
            let e: Entry = self.entries[h.index as usize];
            if e.generation != h.generation {
                None
            } else {
                e.slot
            }
        } else {
            None
        }
    }

    /// Takes out what a handle leads to; `false` where it leads nowhere.
    pub fn remove(&mut self, h: RawHandle) -> (r: bool)
        requires
            old(self)@.wf(),
        ensures
            final(self)@.wf(),
            r == (old(self)@.slot_of(h) is Some),
            final(self)@ == old(self)@.removed(h),
    {
        proof {
            law_removed_handle_is_stale(self@, h, h);
        }
        if self.get(h).is_none() {
            return false;
        }
        self.entries.set(
            h.index as usize,
            Entry { generation: h.generation.wrapping_add(1), slot: None },
        );
        self.free.push(h.index);
        true
    }
}

} // verus!
