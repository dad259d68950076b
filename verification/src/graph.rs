//! The netlist data model: wire and component records, driver lists and the
//! component kind enumeration, all laid out in flat arenas.

use crate::buffer::{Buffer, BufferState, Building, Index, Offset};
use crate::AddComponentError;
use vstd::prelude::*;

verus! {

/// Marker for the wire-state buffer.
#[derive(Debug)]
pub struct WireState;

/// Marker for the wire-base-drive buffer.
#[derive(Debug)]
pub struct WireBaseDrive;

/// Marker for the component-output-state buffer.
#[derive(Debug)]
pub struct OutputState;

/// Marker for the component-memory buffer.
#[derive(Debug)]
pub struct Memory;

/// One node of a wire's singly-linked list of additional drivers.
///
/// `width` counts atoms, not bits; `next_driver` is the raw index of the
/// next node, or the `u32::MAX` sentinel at the end of the list.
#[derive(Debug, Clone, Copy)]
pub struct WireDriver {
    pub width: u32,
    pub output_state_offset: Offset<OutputState>,
    pub next_driver: u32,
}

/// A wire record.
///
/// `width` is in bits; the wire owns `ceil(width/32)` atoms at `state_offset`
/// in the wire-state buffer and as many at `drive_offset` in the base-drive
/// buffer. The first component driver is stored inline as
/// `(first_driver_width, first_driver_offset)` — width again in atoms — and
/// any further drivers hang off the `driver_list` linked list.
#[derive(Debug, Clone, Copy)]
pub struct Wire {
    pub width: u32,
    pub state_offset: Offset<WireState>,
    pub drive_offset: Offset<WireBaseDrive>,
    pub first_driver_width: u32,
    pub first_driver_offset: Offset<OutputState>,
    pub driver_list: Index<WireDriver>,
}

/// The number of atoms needed for `width` bits.
pub open spec fn atoms_of_width(width: int) -> int {
    (width + 31) / 32
}

/// The kind of a component, selecting the operator its kernel evaluates.
#[derive(Debug, Clone, Copy, PartialEq, Eq, Structural)]
pub enum ComponentKind {
    And,
    Or,
    Xor,
    Nand,
    Nor,
    Xnor,
    Not,
    Buffer,
    Add,
    Sub,
    Neg,
    Lsh,
    LRsh,
    ARsh,
    HAnd,
    HOr,
    HXor,
    HNand,
    HNor,
    HXnor,
    CmpEq,
    CmpNe,
    CmpUlt,
    CmpUgt,
    CmpUle,
    CmpUge,
    CmpSlt,
    CmpSgt,
    CmpSle,
    CmpSge,
}

/// One output of a component: `width` bits of freshly computed state at
/// `state_offset` in the output-state buffer, owned by this output alone.
#[derive(Debug, Clone, Copy)]
pub struct ComponentOutput {
    pub width: u32,
    pub state_offset: Offset<OutputState>,
}

/// The index of the first of several consecutive output records.
#[derive(Debug, Clone, Copy)]
pub struct ComponentFirstOutput {
    pub first_output: Index<ComponentOutput>,
}

/// How a component stores its outputs: a single one inline, or the index of
/// the first of at least two consecutive output records.
#[derive(Debug, Clone, Copy)]
pub enum ComponentOutputKind {
    Single(ComponentOutput),
    List(Index<ComponentOutput>, u8),
}

/// One input of a component: a by-value snapshot of the driven wire's width
/// (in bits) and of where its computed state lives.
#[derive(Debug, Clone, Copy)]
pub struct ComponentInput {
    pub width: u32,
    pub wire_state_offset: Offset<WireState>,
}

/// A component record.
///
/// The kernels read `input_count` input records starting at `first_input`,
/// evaluate the operator picked by `kind` and write the outputs. Stateful
/// kinds would own `memory_size` atoms at `memory_offset`; no kind of this
/// engine allocates any.
#[derive(Debug, Clone, Copy)]
pub struct Component {
    pub kind: ComponentKind,
    pub output_count: u8,
    pub input_count: u8,
    pub output: ComponentOutputKind,
    pub first_input: Index<ComponentInput>,
    pub memory_offset: Offset<Memory>,
    pub memory_size: u32,
}

/// Every driver node either ends its list or points at a strictly larger
/// index inside the buffer. Nodes are appended in order, so a link always
/// points forward; this bounds every list walk.
pub open spec fn drivers_next_monotone(drivers: Seq<WireDriver>) -> bool {
    forall|i: int|
        0 <= i < drivers.len() ==> ((#[trigger] drivers[i]).next_driver == u32::MAX || (i
            < drivers[i].next_driver && (drivers[i].next_driver as int)
            < drivers.len()))
}

/// The driver sources of the list headed at index `head`, in list order:
/// each node contributes its width in atoms and its output-state offset.
pub open spec fn chain_sources(drivers: Seq<WireDriver>, head: int) -> Seq<(u32, u32)>
    decreases drivers.len() - head,
    when drivers_next_monotone(drivers)
{
    if head < 0 || head >= drivers.len() {
        Seq::empty()
    } else if drivers[head].next_driver == u32::MAX {
        seq![(drivers[head].width, drivers[head].output_state_offset.value)]
    } else {
        seq![(drivers[head].width, drivers[head].output_state_offset.value)] + chain_sources(
            drivers,
            drivers[head].next_driver as int,
        )
    }
}

/// The index of the last node of the non-empty list headed at `head`.
pub open spec fn chain_last(drivers: Seq<WireDriver>, head: int) -> int
    decreases drivers.len() - head,
    when drivers_next_monotone(drivers)
{
    if head < 0 || head >= drivers.len() {
        head
    } else if drivers[head].next_driver == u32::MAX {
        head
    } else {
        chain_last(drivers, drivers[head].next_driver as int)
    }
}

/// The last node of a non-empty list lies within the buffer, at or after the
/// head.
pub proof fn lemma_chain_last_in_range(drivers: Seq<WireDriver>, head: int)
    requires
        drivers_next_monotone(drivers),
        0 <= head < drivers.len(),
    ensures
        head <= chain_last(drivers, head) < drivers.len(),
        drivers[chain_last(drivers, head)].next_driver == u32::MAX,
    decreases drivers.len() - head,
{
    if drivers[head].next_driver != u32::MAX {
        lemma_chain_last_in_range(drivers, drivers[head].next_driver as int);
    }
}

/// Appending a fresh node at the end of the buffer and linking it after the
/// last node of a list extends that list's sources by exactly the new node's.
pub proof fn lemma_chain_after_append(
    old_drivers: Seq<WireDriver>,
    new_drivers: Seq<WireDriver>,
    head: int,
    node: WireDriver,
)
    requires
        drivers_next_monotone(old_drivers),
        drivers_next_monotone(new_drivers),
        0 <= head < old_drivers.len(),
        old_drivers.len() < u32::MAX,
        node.next_driver == u32::MAX,
        new_drivers.len() == old_drivers.len() + 1,
        new_drivers[old_drivers.len() as int] == node,
        ({
            let last = chain_last(old_drivers, head);
            &&& new_drivers[last] == (WireDriver {
                next_driver: old_drivers.len() as u32,
                ..old_drivers[last]
            })
            &&& forall|i: int|
                0 <= i < old_drivers.len() && i != last ==> new_drivers[i] == old_drivers[i]
        }),
    ensures
        chain_sources(new_drivers, head) == chain_sources(old_drivers, head).push(
            (node.width, node.output_state_offset.value),
        ),
    decreases old_drivers.len() - head,
{
    let last = chain_last(old_drivers, head);
    let l = old_drivers.len() as int;
    if old_drivers[head].next_driver == u32::MAX {
        assert(last == head);
        assert(new_drivers[head].next_driver as int == l);
        assert(chain_sources(new_drivers, l) == seq![
            (node.width, node.output_state_offset.value),
        ]);
        assert(chain_sources(new_drivers, head) =~= chain_sources(old_drivers, head).push(
            (node.width, node.output_state_offset.value),
        ));
    } else {
        let next = old_drivers[head].next_driver as int;
        assert(chain_last(old_drivers, head) == chain_last(old_drivers, next));
        assert(head != last) by {
            lemma_chain_last_in_range(old_drivers, next);
        }
        lemma_chain_after_append(old_drivers, new_drivers, next, node);
        assert(new_drivers[head] == old_drivers[head]);
        assert(chain_sources(new_drivers, head) =~= chain_sources(old_drivers, head).push(
            (node.width, node.output_state_offset.value),
        ));
    }
}

impl Wire {
    /// Registers one more component driver of this wire: the first inline,
    /// any further one as a node of the driver list.
    pub fn add_driver(
        &mut self,
        buffer: &mut Buffer<WireDriver, Building>,
        width: u32,
        output_state_offset: Offset<OutputState>,
    ) -> (r: Result<(), AddComponentError>)
        requires
            old(buffer).wf(),
            drivers_next_monotone(old(buffer)@),
            old(self).driver_list.value == u32::MAX || (old(self).driver_list.value as int) < old(
                buffer,
            )@.len(),
        ensures
            final(buffer).wf(),
            drivers_next_monotone(final(buffer)@),
            old(self).first_driver_offset.value == u32::MAX ==> {
                &&& r is Ok
                &&& final(buffer)@ == old(buffer)@
                &&& *final(self) == (Wire {
                    first_driver_width: width,
                    first_driver_offset: output_state_offset,
                    ..*old(self)
                })
            },
            old(self).first_driver_offset.value != u32::MAX && old(buffer)@.len() >= u32::MAX
                ==> r == Err::<(), _>(AddComponentError::OutOfMemory) && final(buffer)@ == old(
                buffer,
            )@ && *final(self) == *old(self),
            old(self).first_driver_offset.value != u32::MAX && old(buffer)@.len() < u32::MAX ==> {
                &&& r is Ok
                &&& final(buffer)@.len() == old(buffer)@.len() + 1
                &&& final(buffer)@[old(buffer)@.len() as int] == (WireDriver {
                    width,
                    output_state_offset,
                    next_driver: u32::MAX,
                })
                &&& final(self).driver_list.value != u32::MAX
                &&& (final(self).driver_list.value as int) < final(buffer)@.len()
                &&& *final(self) == (Wire { driver_list: final(self).driver_list, ..*old(self) })
                &&& chain_sources(final(buffer)@, final(self).driver_list.value as int)
                    == chain_sources(old(buffer)@, old(self).driver_list.value as int).push(
                    (width, output_state_offset.value),
                )
                &&& forall|i: int|
                    0 <= i < old(buffer)@.len() && i != chain_last(
                        old(buffer)@,
                        old(self).driver_list.value as int,
                    ) ==> final(buffer)@[i] == old(buffer)@[i]
                &&& forall|i: int|
                    0 <= i < old(buffer)@.len() ==> (#[trigger] final(buffer)@[i]).width == old(
                        buffer,
                    )@[i].width && final(buffer)@[i].output_state_offset
                        == old(buffer)@[i].output_state_offset
            },
    {
        if self.first_driver_offset.is_invalid() {
            self.first_driver_width = width;
            self.first_driver_offset = output_state_offset;
            return Ok(());
        }
        let node = WireDriver { width, output_state_offset, next_driver: u32::MAX };
        let new_index = match buffer.push(node) {
            Ok(index) => index,
            Err(_) => {
                return Err(AddComponentError::OutOfMemory);
            },
        };
        proof {
            assert forall|i: int| 0 <= i < buffer@.len() implies ((
            #[trigger] buffer@[i]).next_driver == u32::MAX || (i
                < buffer@[i].next_driver && (buffer@[i].next_driver as int)
                < buffer@.len())) by {
                if i < old(buffer)@.len() {
                    assert(buffer@[i] == old(buffer)@[i]);
                }
            }
        }
        if self.driver_list.is_invalid() {
            self.driver_list = new_index;
            proof {
                let nb = buffer@;
                let hd = new_index.value as int;
                assert(chain_sources(nb, hd) =~= chain_sources(
                    old(buffer)@,
                    old(self).driver_list.value as int,
                ).push((width, output_state_offset.value)));
            }
            return Ok(());
        }
        let ghost head: int = self.driver_list.value as int;
        let mut prev: Index<WireDriver> = self.driver_list;
        let mut next: u32 = match buffer.get(prev) {
            Some(item) => item.next_driver,
            None => u32::MAX,
        };
        while next != u32::MAX
            invariant
                buffer.wf(),
                buffer@ == old(buffer)@.push(node),
                drivers_next_monotone(old(buffer)@),
                drivers_next_monotone(buffer@),
                0 <= head < old(buffer)@.len(),
                head <= prev.value as int,
                (prev.value as int) < old(buffer)@.len(),
                next == old(buffer)@[prev.value as int].next_driver,
                chain_last(old(buffer)@, prev.value as int) == chain_last(old(buffer)@, head),
            decreases old(buffer)@.len() - prev.value as int,
        {
            prev = Index { value: next, marker: core::marker::PhantomData };
            next = match buffer.get(prev) {
                Some(item) => item.next_driver,
                None => u32::MAX,
            };
            proof {
                assert(buffer@[prev.value as int] == old(buffer)@[prev.value as int]);
            }
        }
        proof {
            assert(prev.value as int == chain_last(old(buffer)@, head));
        }
        let last_node = match buffer.get(prev) {
            Some(item) => *item,
            None => node,
        };
        proof {
            assert(last_node == old(buffer)@[prev.value as int]);
        }
        let updated = WireDriver { next_driver: new_index.value, ..last_node };
        let ghost pre_set = buffer@;
        buffer.set(prev, updated);
        proof {
            let nb = buffer@;
            assert forall|i: int| 0 <= i < nb.len() implies ((#[trigger] nb[i]).next_driver
                == u32::MAX || (i < nb[i].next_driver && (nb[i].next_driver as int)
                < nb.len())) by {
                if i != prev.value as int {
                    assert(nb[i] == pre_set[i]);
                }
            }
            lemma_chain_after_append(old(buffer)@, nb, head, node);
        }
        Ok(())
    }
}

} // verus!
