//! Typed append-only arenas: record buffers addressed by typed indices and
//! logic-state buffers addressed by typed offsets.
//!
//! Every slot keeps its index for the life of the arena, and the index value
//! `u32::MAX` is the invalid sentinel throughout.

use crate::logic::LogicStateAtom;
use core::marker::PhantomData;
use vstd::prelude::*;

verus! {

/// The lifecycle state of an arena: still being built, or finalized.
pub trait BufferState {

}

/// The arena state in which appending is allowed.
pub struct Building;

impl BufferState for Building {

}

/// The arena state after the netlist has been finalized.
pub struct Finalized;

impl BufferState for Finalized {

}

/// The error of appending to a full arena.
#[derive(Debug, Clone, PartialEq, Eq, Structural)]
pub enum BufferPushError {
    /// The arena next index would reach the invalid sentinel
    OutOfMemory,
}

/// A typed index into a record buffer, with `u32::MAX` as invalid sentinel.
#[derive(Debug)]
pub struct Index<Marker> {
    pub value: u32,
    pub marker: PhantomData<Marker>,
}

impl<Marker> Clone for Index<Marker> {
    fn clone(&self) -> (r: Self)
        ensures
            r == *self,
    {
        Index { value: self.value, marker: PhantomData }
    }
}

impl<Marker> Copy for Index<Marker> {

}

impl<Marker> Index<Marker> {
    /// The invalid index.
    pub fn invalid() -> (r: Self)
        ensures
            r.value == u32::MAX,
    {
        Index { value: u32::MAX, marker: PhantomData }
    }

    /// Wraps an index value; `u32::MAX` is not a valid index.
    pub fn new(value: u32) -> (r: Option<Self>)
        ensures
            r == (if value == u32::MAX {
                None::<Self>
            } else {
                Some(Index { value, marker: PhantomData })
            }),
    {
        if value == u32::MAX {
            None
        } else {
            Some(Index { value, marker: PhantomData })
        }
    }

    /// Whether this is the invalid sentinel.
    pub fn is_invalid(self) -> (r: bool)
        ensures
            r == (self.value == u32::MAX),
    {
        self.value == u32::MAX
    }

    /// The index value, unless this is the invalid sentinel.
    pub fn get(self) -> (r: Option<u32>)
        ensures
            r == (if self.value == u32::MAX {
                None::<u32>
            } else {
                Some(self.value)
            }),
    {
        if self.value == u32::MAX {
            None
        } else {
            Some(self.value)
        }
    }
}

/// A typed offset into a logic-state buffer, with `u32::MAX` as invalid
/// sentinel.
#[derive(Debug)]
pub struct Offset<Marker> {
    pub value: u32,
    pub marker: PhantomData<Marker>,
}

impl<Marker> Clone for Offset<Marker> {
    fn clone(&self) -> (r: Self)
        ensures
            r == *self,
    {
        Offset { value: self.value, marker: PhantomData }
    }
}

impl<Marker> Copy for Offset<Marker> {

}

impl<Marker> Offset<Marker> {
    /// The invalid offset.
    pub fn invalid() -> (r: Self)
        ensures
            r.value == u32::MAX,
    {
        Offset { value: u32::MAX, marker: PhantomData }
    }

    /// Wraps an offset value; `u32::MAX` is not a valid offset.
    pub fn new(value: u32) -> (r: Option<Self>)
        ensures
            r == (if value == u32::MAX {
                None::<Self>
            } else {
                Some(Offset { value, marker: PhantomData })
            }),
    {
        if value == u32::MAX {
            None
        } else {
            Some(Offset { value, marker: PhantomData })
        }
    }

    /// Whether this is the invalid sentinel.
    pub fn is_invalid(self) -> (r: bool)
        ensures
            r == (self.value == u32::MAX),
    {
        self.value == u32::MAX
    }

    /// The offset value, unless this is the invalid sentinel.
    pub fn get(self) -> (r: Option<u32>)
        ensures
            r == (if self.value == u32::MAX {
                None::<u32>
            } else {
                Some(self.value)
            }),
    {
        if self.value == u32::MAX {
            None
        } else {
            Some(self.value)
        }
    }
}

/// A typed append-only record buffer.
///
/// Records are addressed by the `Index` handed out at `push`; indices stay
/// valid for the life of the buffer and always refer to the same slot.
#[derive(Debug)]
pub struct Buffer<T, S: BufferState> {
    data: Vec<T>,
    state: S,
}

impl<T, S: BufferState> View for Buffer<T, S> {
    type V = Seq<T>;

    closed spec fn view(&self) -> Seq<T> {
        self.data@
    }
}

impl<T, S: BufferState> Buffer<T, S> {
    /// The buffer never grows past the invalid index sentinel.
    pub open spec fn wf(self) -> bool {
        self@.len() <= u32::MAX
    }

    /// The number of records held.
    pub fn len(&self) -> (r: u32)
        requires
            self.wf(),
        ensures
            r as nat == self@.len(),
    {
        self.data.len() as u32
    }

    /// Reads the record at `index`, if the index is valid and in bounds.
    pub fn get(&self, index: Index<T>) -> (r: Option<&T>)
        ensures
            index.value != u32::MAX && (index.value as nat) < self@.len() ==> r == Some(
                &self@[index.value as int],
            ),
            index.value == u32::MAX || (index.value as nat) >= self@.len() ==> r == None::<&T>,
    {
        if index.value == u32::MAX {
            return None;
        }
        let i = index.value as usize;
        if i < self.data.len() {
            Some(&self.data[i])
        } else {
            None
        }
    }
}

impl<T> Buffer<T, Building> {
    /// Creates an empty buffer.
    pub fn new() -> (r: Self)
        ensures
            r@.len() == 0,
            r.wf(),
    {
        Buffer { data: Vec::new(), state: Building }
    }

    /// Overwrites the record at `index`; reports whether the index was valid
    /// and in bounds.
    pub fn set(&mut self, index: Index<T>, value: T) -> (ok: bool)
        ensures
            ok == (index.value != u32::MAX && (index.value as nat) < old(self)@.len()),
            ok ==> final(self)@ == old(self)@.update(index.value as int, value),
            !ok ==> final(self)@ == old(self)@,
            final(self).wf() == old(self).wf(),
    {
        if index.value == u32::MAX {
            return false;
        }
        let i = index.value as usize;
        if i < self.data.len() {
            self.data.set(i, value);
            true
        } else {
            false
        }
    }

    /// Appends a record and returns its index; fails if the next index would
    /// reach the invalid sentinel.
    pub fn push(&mut self, value: T) -> (r: Result<Index<T>, BufferPushError>)
        requires
            old(self).wf(),
        ensures
            final(self).wf(),
            old(self)@.len() < u32::MAX ==> {
                &&& r is Ok
                &&& r->Ok_0.value as nat == old(self)@.len()
                &&& final(self)@ == old(self)@.push(value)
            },
            old(self)@.len() >= u32::MAX ==> r == Err::<Index<T>, _>(BufferPushError::OutOfMemory)
                && final(self)@ == old(self)@,
    {
        let index: u32 = self.data.len() as u32;
        if index == u32::MAX {
            return Err(BufferPushError::OutOfMemory);
        }
        self.data.push(value);
        Ok(Index { value: index, marker: PhantomData })
    }
}

/// A typed append-only buffer of logic-state atoms.
///
/// Atom slices are addressed by the `Offset` handed out at `push`; offsets
/// stay valid for the life of the buffer and always refer to the same slots.
#[derive(Debug)]
pub struct LogicStateBuffer<Marker, S: BufferState> {
    data: Vec<LogicStateAtom>,
    state: S,
    marker: PhantomData<Marker>,
}

impl<Marker, S: BufferState> View for LogicStateBuffer<Marker, S> {
    type V = Seq<LogicStateAtom>;

    closed spec fn view(&self) -> Seq<LogicStateAtom> {
        self.data@
    }
}

impl<Marker, S: BufferState> LogicStateBuffer<Marker, S> {
    /// The buffer never grows past the invalid offset sentinel.
    pub open spec fn wf(self) -> bool {
        self@.len() <= u32::MAX
    }

    /// The number of atoms held.
    pub fn len(&self) -> (r: u32)
        requires
            self.wf(),
        ensures
            r as nat == self@.len(),
    {
        self.data.len() as u32
    }

    /// Reads `count` atoms starting at `offset`, if the whole range is in
    /// bounds.
    pub fn get(&self, offset: Offset<Marker>, count: u32) -> (r: Option<&[LogicStateAtom]>)
        ensures
            offset.value != u32::MAX && offset.value as nat + count as nat <= self@.len() ==> {
                &&& r is Some
                &&& r->Some_0@ == self@.subrange(
                    offset.value as int,
                    offset.value as int + count as int,
                )
            },
            offset.value == u32::MAX || offset.value as nat + count as nat > self@.len() ==> r
                == None::<&[LogicStateAtom]>,
    {
        if offset.value == u32::MAX {
            return None;
        }
        let start = offset.value as usize;
        let count = count as usize;
        let n = self.data.len();
        if count <= n && start <= n - count {
            Some(vstd::slice::slice_subrange(self.data.as_slice(), start, start + count))
        } else {
            None
        }
    }

    /// Overwrites the atoms starting at `offset` with `src`; reports whether
    /// the whole range was in bounds.
    pub fn write(&mut self, offset: Offset<Marker>, src: &[LogicStateAtom]) -> (ok: bool)
        ensures
            ok == (offset.value != u32::MAX && offset.value as nat + src@.len() <= old(
                self,
            )@.len()),
            ok ==> {
                &&& final(self)@.len() == old(self)@.len()
                &&& forall|p: int|
                    0 <= p < final(self)@.len() ==> final(self)@[p] == (if offset.value <= p
                        < offset.value + src@.len() {
                        src@[p - offset.value]
                    } else {
                        old(self)@[p]
                    })
            },
            !ok ==> final(self)@ == old(self)@,
            final(self).wf() == old(self).wf(),
    {
        if offset.value == u32::MAX {
            return false;
        }
        let start = offset.value as usize;
        let n = self.data.len();
        if src.len() > n || start > n - src.len() {
            return false;
        }
        let mut k: usize = 0;
        while k < src.len()
            invariant
                k <= src@.len(),
                start + src@.len() <= n,
                n <= self.data@.len(),
                self.data@.len() == old(self)@.len(),
                forall|p: int|
                    0 <= p < self.data@.len() ==> self.data@[p] == (if start <= p < start + k {
                        src@[p - start]
                    } else {
                        old(self)@[p]
                    }),
            decreases src@.len() - k,
        {
            self.data.set(start + k, src[k]);
            k = k + 1;
        }
        true
    }
}

impl<Marker> LogicStateBuffer<Marker, Building> {
    /// Creates an empty buffer.
    pub fn new() -> (r: Self)
        ensures
            r@.len() == 0,
            r.wf(),
    {
        LogicStateBuffer { data: Vec::new(), state: Building, marker: PhantomData }
    }

    /// Appends `count` atoms initialized to high impedance and returns the
    /// offset of the first; fails if the offset would reach the invalid
    /// sentinel or the end of the range would not fit an offset.
    pub fn push(&mut self, count: u32) -> (r: Result<Offset<Marker>, BufferPushError>)
        requires
            old(self).wf(),
        ensures
            final(self).wf(),
            old(self)@.len() < u32::MAX && old(self)@.len() + count <= u32::MAX ==> {
                &&& r is Ok
                &&& r->Ok_0.value as nat == old(self)@.len()
                &&& final(self)@.len() == old(self)@.len() + count
                &&& forall|p: int| 0 <= p < old(self)@.len() ==> final(self)@[p] == old(self)@[p]
                &&& forall|p: int|
                    old(self)@.len() <= p < final(self)@.len() ==> final(self)@[p]
                        == crate::logic::spec_high_z_atom()
            },
            old(self)@.len() >= u32::MAX || old(self)@.len() + count > u32::MAX ==> r == Err::<
                Offset<Marker>,
                _,
            >(BufferPushError::OutOfMemory) && final(self)@ == old(self)@,
    {
        let offset: u32 = self.data.len() as u32;
        if offset == u32::MAX {
            return Err(BufferPushError::OutOfMemory);
        }
        if count > u32::MAX - offset {
            return Err(BufferPushError::OutOfMemory);
        }
        let mut k: u32 = 0;
        while k < count
            invariant
                k <= count,
                self.data@.len() == old(self)@.len() + k,
                forall|p: int| 0 <= p < old(self)@.len() ==> self.data@[p] == old(self)@[p],
                forall|p: int|
                    old(self)@.len() <= p < self.data@.len() ==> self.data@[p]
                        == crate::logic::spec_high_z_atom(),
                old(self)@.len() + count <= u32::MAX,
            decreases count - k,
        {
            self.data.push(LogicStateAtom::high_z());
            k = k + 1;
        }
        Ok(Offset { value: offset, marker: PhantomData })
    }
}

impl<Marker> LogicStateBuffer<Marker, Finalized> {
    /// Sets every atom back to high impedance.
    pub fn reset(&mut self)
        ensures
            final(self).wf() == old(self).wf(),
            final(self)@.len() == old(self)@.len(),
            forall|p: int|
                0 <= p < final(self)@.len() ==> final(self)@[p]
                    == crate::logic::spec_high_z_atom(),
    {
        let n = self.data.len();
        let mut k: usize = 0;
        while k < n
            invariant
                k <= n == self.data@.len(),
                forall|p: int|
                    0 <= p < k ==> self.data@[p] == crate::logic::spec_high_z_atom(),
            decreases n - k,
        {
            self.data.set(k, LogicStateAtom::high_z());
            k = k + 1;
        }
    }
}

/// Rebuilds a buffer in the finalized state, keeping its contents.
pub fn finalize_records<T>(buffer: Buffer<T, Building>) -> (r: Buffer<T, Finalized>)
    ensures
        r@ == buffer@,
        r.wf() == buffer.wf(),
{
    let Buffer { data, state: Building } = buffer;
    Buffer { data, state: Finalized }
}

/// Rebuilds a logic-state buffer in the finalized state, keeping its
/// contents.
pub fn finalize_states<Marker>(buffer: LogicStateBuffer<Marker, Building>) -> (r: LogicStateBuffer<
    Marker,
    Finalized,
>)
    ensures
        r@ == buffer@,
        r.wf() == buffer.wf(),
{
    let LogicStateBuffer { data, state: Building, marker } = buffer;
    LogicStateBuffer { data, state: Finalized, marker }
}

} // verus!
