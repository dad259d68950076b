//! A four-valued digital-logic simulator.
//!
//! A netlist of multi-bit wires driven by logic components (gates, arithmetic,
//! shifts, tri-state buffers) is laid out in flat index-addressable buffers and
//! evaluated to a combinational fixed point by alternating a wire-update pass
//! (which merges all drivers of each wire and detects conflicts) with a
//! component-update pass (which recomputes every component output).

pub mod buffer;
pub mod graph;
pub mod kernel;
pub mod logic;
pub mod ops;
pub mod ports;
pub mod vec;

use crate::buffer::{Buffer, Building, Finalized, Index, LogicStateBuffer, Offset};
use crate::graph::{
    atoms_of_width, Component, ComponentInput, ComponentKind, ComponentOutput,
    ComponentOutputKind, Memory, OutputState, Wire, WireBaseDrive, WireDriver, WireState,
};
use crate::kernel::{comp_output, is_read_of, model_wf, SimModel};
use crate::graph::drivers_next_monotone;
use crate::logic::{ls_bit, LogicState, LogicStateAtom};
use vstd::prelude::*;

pub use crate::ports::{
    AddPorts, AndGatePorts, ArithmeticRightShiftPorts, BufferPorts, CompareEqual,
    CompareNotEqual, CompareSignedGreaterThan, CompareSignedGreaterThanEqual,
    CompareSignedLessThan, CompareSignedLessThanOrEqual, CompareUnsignedGreaterThan,
    CompareUnsignedGreaterThanEqual, CompareUnsignedLessThan, CompareUnsignedLessThanOrEqual,
    ComponentPorts, HorizontalAndGatePorts, HorizontalNandGatePorts, HorizontalNorGatePorts,
    HorizontalOrGatePorts, HorizontalXnorGatePorts, HorizontalXorGatePorts, LeftShiftPorts,
    LogicalRightShiftPorts, NandGatePorts, NegatePorts, NorGatePorts, NotGatePorts,
    OrGatePorts, SubtractPorts, XnorGatePorts, XorGatePorts,
};

verus! {

/// The smallest legal wire width, in bits.
pub const MIN_WIRE_WIDTH: u32 = 1;

/// The largest legal wire width, in bits.
pub const MAX_WIRE_WIDTH: u32 = 256;

/// A handle to a wire of the netlist.
#[derive(Debug, Clone, Copy)]
pub struct WireId(pub Index<Wire>);

/// A handle to a component of the netlist.
#[derive(Debug, Clone, Copy)]
pub struct ComponentId(pub Index<Component>);

/// The error of adding a wire to the netlist.
#[derive(Debug, Clone, PartialEq, Eq, Structural)]
pub enum AddWireError {
    /// The wire width was not between 1 and 256 inclusive
    WidthOutOfRange,
    /// An arena is full
    OutOfMemory,
}

/// The error of naming a wire that is not part of the netlist.
#[derive(Debug, Clone, PartialEq, Eq, Structural)]
pub struct InvalidWireIdError;

/// The error of adding a component to the netlist.
#[derive(Debug, Clone, PartialEq, Eq, Structural)]
pub enum AddComponentError {
    /// A referenced wire is not part of the netlist
    InvalidWireId,
    /// The component has more than 255 inputs
    TooManyInputs,
    /// An arena is full
    OutOfMemory,
}

/// The netlist under construction: typed append-only arenas for every
/// record and state slice of the data model.
pub struct SimulatorBuilder {
    wire_states: LogicStateBuffer<WireState, Building>,
    wire_drives: LogicStateBuffer<WireBaseDrive, Building>,
    wire_drivers: Buffer<WireDriver, Building>,
    wires: Buffer<Wire, Building>,
    output_states: LogicStateBuffer<OutputState, Building>,
    outputs: Buffer<ComponentOutput, Building>,
    inputs: Buffer<ComponentInput, Building>,
    memory: LogicStateBuffer<Memory, Building>,
    components: Buffer<Component, Building>,
}

/// The finalized simulator: the same data model, now immutable in its
/// structure, with only the state buffers changing as the engine runs.
pub struct Simulator {
    wire_states: LogicStateBuffer<WireState, Finalized>,
    wire_drives: LogicStateBuffer<WireBaseDrive, Finalized>,
    wire_drivers: Buffer<WireDriver, Finalized>,
    wires: Buffer<Wire, Finalized>,
    output_states: LogicStateBuffer<OutputState, Finalized>,
    outputs: Buffer<ComponentOutput, Finalized>,
    inputs: Buffer<ComponentInput, Finalized>,
    memory: LogicStateBuffer<Memory, Finalized>,
    components: Buffer<Component, Finalized>,
}

impl View for SimulatorBuilder {
    type V = SimModel;

    closed spec fn view(&self) -> SimModel {
        SimModel {
            wire_states: self.wire_states@,
            wire_drives: self.wire_drives@,
            wire_drivers: self.wire_drivers@,
            wires: self.wires@,
            output_states: self.output_states@,
            outputs: self.outputs@,
            inputs: self.inputs@,
            memory: self.memory@,
            components: self.components@,
        }
    }
}

impl View for Simulator {
    type V = SimModel;

    closed spec fn view(&self) -> SimModel {
        SimModel {
            wire_states: self.wire_states@,
            wire_drives: self.wire_drives@,
            wire_drivers: self.wire_drivers@,
            wires: self.wires@,
            output_states: self.output_states@,
            outputs: self.outputs@,
            inputs: self.inputs@,
            memory: self.memory@,
            components: self.components@,
        }
    }
}

impl SimulatorBuilder {
    /// The builder's data model is well formed.
    pub open spec fn wf(self) -> bool {
        model_wf(self@)
    }

    /// Creates an empty netlist.
    pub fn new() -> (r: Self)
        ensures
            r.wf(),
            r@.wires.len() == 0,
            r@.components.len() == 0,
            r@.wire_states.len() == 0,
            r@.wire_drives.len() == 0,
            r@.wire_drivers.len() == 0,
            r@.output_states.len() == 0,
            r@.inputs.len() == 0,
            r@.memory.len() == 0,
    {
        SimulatorBuilder {
            wire_states: LogicStateBuffer::new(),
            wire_drives: LogicStateBuffer::new(),
            wire_drivers: Buffer::new(),
            wires: Buffer::new(),
            output_states: LogicStateBuffer::new(),
            outputs: Buffer::new(),
            inputs: Buffer::new(),
            memory: LogicStateBuffer::new(),
            components: Buffer::new(),
        }
    }

    /// Adds a wire of `width` bits and returns its id.
    ///
    /// Allocates the wire's atoms in the state and base-drive buffers, both
    /// initialized to high impedance; the new wire has no drivers.
    pub fn add_wire(&mut self, width: u32) -> (r: Result<WireId, AddWireError>)
        requires
            old(self).wf(),
        ensures
            final(self).wf(),
            width < MIN_WIRE_WIDTH || width > MAX_WIRE_WIDTH ==> r == Err::<WireId, _>(
                AddWireError::WidthOutOfRange,
            ) && final(self)@ == old(self)@,
            MIN_WIRE_WIDTH <= width <= MAX_WIRE_WIDTH && add_wire_fits(old(self)@, width as int)
                ==> {
                let m0 = old(self)@;
                let m1 = final(self)@;
                let atoms = atoms_of_width(width as int);
                &&& r is Ok
                &&& r->Ok_0.0.value as nat == m0.wires.len()
                &&& m1.wires == m0.wires.push(
                    Wire {
                        width,
                        state_offset: Offset {
                            value: m0.wire_states.len() as u32,
                            marker: core::marker::PhantomData,
                        },
                        drive_offset: Offset {
                            value: m0.wire_drives.len() as u32,
                            marker: core::marker::PhantomData,
                        },
                        first_driver_width: 0,
                        first_driver_offset: Offset {
                            value: u32::MAX,
                            marker: core::marker::PhantomData,
                        },
                        driver_list: Index { value: u32::MAX, marker: core::marker::PhantomData },
                    },
                )
                &&& m1.wire_states.len() == m0.wire_states.len() + atoms
                &&& (forall|p: int|
                    0 <= p < m0.wire_states.len() ==> m1.wire_states[p] == m0.wire_states[p])
                &&& (forall|p: int|
                    m0.wire_states.len() <= p < m1.wire_states.len() ==> m1.wire_states[p]
                        == crate::logic::spec_high_z_atom())
                &&& m1.wire_drives.len() == m0.wire_drives.len() + atoms
                &&& (forall|p: int|
                    0 <= p < m0.wire_drives.len() ==> m1.wire_drives[p] == m0.wire_drives[p])
                &&& (forall|p: int|
                    m0.wire_drives.len() <= p < m1.wire_drives.len() ==> m1.wire_drives[p]
                        == crate::logic::spec_high_z_atom())
                &&& m1.wire_drivers == m0.wire_drivers
                &&& m1.output_states == m0.output_states
                &&& m1.outputs == m0.outputs
                &&& m1.inputs == m0.inputs
                &&& m1.memory == m0.memory
                &&& m1.components == m0.components
            },
            MIN_WIRE_WIDTH <= width <= MAX_WIRE_WIDTH && !add_wire_fits(old(self)@, width as int)
                ==> {
                &&& r == Err::<WireId, _>(AddWireError::OutOfMemory)
                &&& final(self)@.wires == old(self)@.wires
                &&& final(self)@.wire_drivers == old(self)@.wire_drivers
                &&& final(self)@.components == old(self)@.components
                &&& (forall|p: int|
                    0 <= p < old(self)@.wire_states.len() ==> final(self)@.wire_states[p] == old(
                        self,
                    )@.wire_states[p])
                &&& (forall|p: int|
                    0 <= p < old(self)@.wire_drives.len() ==> final(self)@.wire_drives[p] == old(
                        self,
                    )@.wire_drives[p])
            },
    {
        if width < MIN_WIRE_WIDTH || width > MAX_WIRE_WIDTH {
            return Err(AddWireError::WidthOutOfRange);
        }
        let state_width = (width + 31) / 32;
        let state_offset = match self.wire_states.push(state_width) {
            Ok(offset) => offset,
            Err(_) => {
                return Err(AddWireError::OutOfMemory);
            },
        };
        let drive_offset = match self.wire_drives.push(state_width) {
            Ok(offset) => offset,
            Err(_) => {
                return Err(AddWireError::OutOfMemory);
            },
        };
        let wire = Wire {
            width,
            state_offset,
            drive_offset,
            first_driver_width: 0,
            first_driver_offset: Offset::invalid(),
            driver_list: Index::invalid(),
        };
        let wire_index = match self.wires.push(wire) {
            Ok(index) => index,
            Err(_) => {
                return Err(AddWireError::OutOfMemory);
            },
        };
        proof {
            lemma_wf_after_add_wire(old(self)@, self@, wire);
        }
        Ok(WireId(wire_index))
    }
}

/// Whether a wire of the given width still fits all three arenas.
pub open spec fn add_wire_fits(m: SimModel, width: int) -> bool {
    &&& m.wire_states.len() < u32::MAX
    &&& m.wire_states.len() + atoms_of_width(width) <= u32::MAX
    &&& m.wire_drives.len() < u32::MAX
    &&& m.wire_drives.len() + atoms_of_width(width) <= u32::MAX
    &&& m.wires.len() < u32::MAX
}

proof fn lemma_wf_after_add_wire(m0: SimModel, m1: SimModel, wire: Wire)
    requires
        model_wf(m0),
        m1.wires == m0.wires.push(wire),
        1 <= wire.width <= 256,
        wire.state_offset.value as nat == m0.wire_states.len(),
        wire.drive_offset.value as nat == m0.wire_drives.len(),
        wire.first_driver_offset.value == u32::MAX,
        wire.driver_list.value == u32::MAX,
        m1.wire_states.len() == m0.wire_states.len() + atoms_of_width(wire.width as int),
        m1.wire_drives.len() == m0.wire_drives.len() + atoms_of_width(wire.width as int),
        m1.wire_states.len() <= u32::MAX,
        m1.wire_drives.len() <= u32::MAX,
        m1.wires.len() <= u32::MAX,
        m1.wire_drivers == m0.wire_drivers,
        m1.output_states == m0.output_states,
        m1.outputs == m0.outputs,
        m1.inputs == m0.inputs,
        m1.memory == m0.memory,
        m1.components == m0.components,
    ensures
        model_wf(m1),
{
    assert forall|i: int| 0 <= i < m1.wires.len() implies crate::kernel::wire_wf(
        #[trigger] m1.wires[i],
        m1,
    ) by {
        if i < m0.wires.len() {
            assert(crate::kernel::wire_wf(m0.wires[i], m0));
        }
    }
    assert forall|i: int| 0 <= i < m1.wire_drivers.len() implies crate::kernel::driver_wf(
        #[trigger] m1.wire_drivers[i],
        m1,
    ) by {
        assert(crate::kernel::driver_wf(m0.wire_drivers[i], m0));
    }
    assert forall|i: int| 0 <= i < m1.components.len() implies crate::kernel::component_wf(
        #[trigger] m1.components[i],
        m1,
    ) by {
        assert(crate::kernel::component_wf(m0.components[i], m0));
        assert forall|k: int| 0 <= k < m1.components[i].input_count implies crate::kernel::input_wf(
            #[trigger] m1.inputs[m1.components[i].first_input.value + k],
            m1,
        ) by {
            assert(crate::kernel::input_wf(m0.inputs[m0.components[i].first_input.value + k], m0));
        }
    }
    assert forall|i: int, j: int| 0 <= i < j < m1.wires.len() implies (
    #[trigger] m1.wires[i]).state_offset.value + atoms_of_width(m1.wires[i].width as int) <= (
    #[trigger] m1.wires[j]).state_offset.value by {
        if j < m0.wires.len() {
            assert(m0.wires[i].state_offset.value + atoms_of_width(m0.wires[i].width as int)
                <= m0.wires[j].state_offset.value);
        } else {
            assert(crate::kernel::wire_wf(m0.wires[i], m0));
        }
    }
}

/// A model change that touches only the contents of the state buffers
/// keeps the model well formed.
pub proof fn lemma_wf_same_shape(m0: SimModel, m1: SimModel)
    requires
        model_wf(m0),
        m1.wires == m0.wires,
        m1.wire_drivers == m0.wire_drivers,
        m1.components == m0.components,
        m1.inputs == m0.inputs,
        m1.outputs == m0.outputs,
        m1.wire_states.len() == m0.wire_states.len(),
        m1.wire_drives.len() == m0.wire_drives.len(),
        m1.output_states.len() >= m0.output_states.len(),
        m1.output_states.len() <= u32::MAX,
        m1.memory.len() == m0.memory.len(),
    ensures
        model_wf(m1),
{
    assert forall|i: int| 0 <= i < m1.wires.len() implies crate::kernel::wire_wf(
        #[trigger] m1.wires[i],
        m1,
    ) by {
        assert(crate::kernel::wire_wf(m0.wires[i], m0));
    }
    assert forall|i: int| 0 <= i < m1.wire_drivers.len() implies crate::kernel::driver_wf(
        #[trigger] m1.wire_drivers[i],
        m1,
    ) by {
        assert(crate::kernel::driver_wf(m0.wire_drivers[i], m0));
    }
    assert forall|i: int| 0 <= i < m1.components.len() implies crate::kernel::component_wf(
        #[trigger] m1.components[i],
        m1,
    ) by {
        assert(crate::kernel::component_wf(m0.components[i], m0));
        assert forall|k: int| 0 <= k < m1.components[i].input_count implies crate::kernel::input_wf(
            #[trigger] m1.inputs[m1.components[i].first_input.value + k],
            m1,
        ) by {
            assert(crate::kernel::input_wf(m0.inputs[m0.components[i].first_input.value + k], m0));
        }
    }
}

/// The drive slice of the wire with id `wire` updated to the first atoms of
/// `drive`, everything else unchanged.
pub open spec fn drive_updated(m0: SimModel, m1: SimModel, wire: Wire, drive: LogicState) -> bool {
    &&& m1.wires == m0.wires
    &&& m1.wire_drivers == m0.wire_drivers
    &&& m1.components == m0.components
    &&& m1.inputs == m0.inputs
    &&& m1.outputs == m0.outputs
    &&& m1.wire_states == m0.wire_states
    &&& m1.output_states == m0.output_states
    &&& m1.memory == m0.memory
    &&& m1.wire_drives.len() == m0.wire_drives.len()
    &&& (forall|p: int|
        0 <= p < m1.wire_drives.len() ==> m1.wire_drives[p] == (if wire.drive_offset.value <= p
            < wire.drive_offset.value + atoms_of_width(wire.width as int) {
            drive.0[p - wire.drive_offset.value]
        } else {
            m0.wire_drives[p]
        }))
}

impl SimulatorBuilder {
    /// Sets the externally applied base drive of a wire.
    pub fn set_wire_drive(&mut self, wire: WireId, new_drive: &LogicState) -> (r: Result<
        (),
        InvalidWireIdError,
    >)
        requires
            old(self).wf(),
        ensures
            final(self).wf(),
            wire.0.value == u32::MAX || wire.0.value as nat >= old(self)@.wires.len() ==> r == Err::<
                (),
                _,
            >(InvalidWireIdError) && final(self)@ == old(self)@,
            wire.0.value != u32::MAX && (wire.0.value as nat) < old(self)@.wires.len() ==> r is Ok
                && drive_updated(
                old(self)@,
                final(self)@,
                old(self)@.wires[wire.0.value as int],
                *new_drive,
            ),
    {
        let w = match self.wires.get(wire.0) {
            Some(w) => *w,
            None => {
                return Err(InvalidWireIdError);
            },
        };
        let state_width = (w.width + 31) / 32;
        let atoms = crate::kernel::ls_to_atoms(new_drive, state_width);
        let ghost m0 = self@;
        self.wire_drives.write(w.drive_offset, atoms.as_slice());
        proof {
            lemma_wf_same_shape(m0, self@);
        }
        Ok(())
    }

    /// Gets the externally applied base drive of a wire.
    pub fn get_wire_drive(&mut self, wire: WireId) -> (r: Result<LogicState, InvalidWireIdError>)
        requires
            old(self).wf(),
        ensures
            final(self)@ == old(self)@,
            final(self).wf(),
            wire.0.value == u32::MAX || wire.0.value as nat >= old(self)@.wires.len() ==> r == Err::<
                LogicState,
                _,
            >(InvalidWireIdError),
            wire.0.value != u32::MAX && (wire.0.value as nat) < old(self)@.wires.len() ==> r is Ok
                && ({
                let w = old(self)@.wires[wire.0.value as int];
                is_read_of(
                    r->Ok_0,
                    old(self)@.wire_drives,
                    w.drive_offset.value as int,
                    atoms_of_width(w.width as int),
                )
            }),
    {
        let w = match self.wires.get(wire.0) {
            Some(w) => *w,
            None => {
                return Err(InvalidWireIdError);
            },
        };
        let state_width = (w.width + 31) / 32;
        Ok(crate::kernel::read_state(&self.wire_drives, w.drive_offset.value, state_width))
    }

    /// Finalizes the netlist into a simulator.
    pub fn build(self) -> (r: Result<Simulator, ()>)
        requires
            self.wf(),
        ensures
            r is Ok,
            r->Ok_0@ == self@,
            r->Ok_0.wf(),
    {
        let SimulatorBuilder {
            wire_states,
            wire_drives,
            wire_drivers,
            wires,
            output_states,
            outputs,
            inputs,
            memory,
            components,
        } = self;
        Ok(
            Simulator {
                wire_states: crate::buffer::finalize_states(wire_states),
                wire_drives: crate::buffer::finalize_states(wire_drives),
                wire_drivers: crate::buffer::finalize_records(wire_drivers),
                wires: crate::buffer::finalize_records(wires),
                output_states: crate::buffer::finalize_states(output_states),
                outputs: crate::buffer::finalize_records(outputs),
                inputs: crate::buffer::finalize_records(inputs),
                memory: crate::buffer::finalize_states(memory),
                components: crate::buffer::finalize_records(components),
            },
        )
    }
}

impl Simulator {
    /// The simulator's data model is well formed.
    pub open spec fn wf(self) -> bool {
        model_wf(self@)
    }

    /// Sets the externally applied base drive of a wire.
    pub fn set_wire_drive(&mut self, wire: WireId, new_drive: &LogicState) -> (r: Result<
        (),
        InvalidWireIdError,
    >)
        requires
            old(self).wf(),
        ensures
            final(self).wf(),
            wire.0.value == u32::MAX || wire.0.value as nat >= old(self)@.wires.len() ==> r == Err::<
                (),
                _,
            >(InvalidWireIdError) && final(self)@ == old(self)@,
            wire.0.value != u32::MAX && (wire.0.value as nat) < old(self)@.wires.len() ==> r is Ok
                && drive_updated(
                old(self)@,
                final(self)@,
                old(self)@.wires[wire.0.value as int],
                *new_drive,
            ),
    {
        let w = match self.wires.get(wire.0) {
            Some(w) => *w,
            None => {
                return Err(InvalidWireIdError);
            },
        };
        let state_width = (w.width + 31) / 32;
        let atoms = crate::kernel::ls_to_atoms(new_drive, state_width);
        let ghost m0 = self@;
        self.wire_drives.write(w.drive_offset, atoms.as_slice());
        proof {
            lemma_wf_same_shape(m0, self@);
        }
        Ok(())
    }

    /// Gets the externally applied base drive of a wire.
    pub fn get_wire_drive(&mut self, wire: WireId) -> (r: Result<LogicState, InvalidWireIdError>)
        requires
            old(self).wf(),
        ensures
            final(self)@ == old(self)@,
            final(self).wf(),
            wire.0.value == u32::MAX || wire.0.value as nat >= old(self)@.wires.len() ==> r == Err::<
                LogicState,
                _,
            >(InvalidWireIdError),
            wire.0.value != u32::MAX && (wire.0.value as nat) < old(self)@.wires.len() ==> r is Ok
                && ({
                let w = old(self)@.wires[wire.0.value as int];
                is_read_of(
                    r->Ok_0,
                    old(self)@.wire_drives,
                    w.drive_offset.value as int,
                    atoms_of_width(w.width as int),
                )
            }),
    {
        let w = match self.wires.get(wire.0) {
            Some(w) => *w,
            None => {
                return Err(InvalidWireIdError);
            },
        };
        let state_width = (w.width + 31) / 32;
        Ok(crate::kernel::read_state(&self.wire_drives, w.drive_offset.value, state_width))
    }

    /// Reads the current computed state of a wire.
    pub fn get_wire_state(&mut self, wire: WireId) -> (r: Result<LogicState, InvalidWireIdError>)
        requires
            old(self).wf(),
        ensures
            final(self)@ == old(self)@,
            final(self).wf(),
            wire.0.value == u32::MAX || wire.0.value as nat >= old(self)@.wires.len() ==> r == Err::<
                LogicState,
                _,
            >(InvalidWireIdError),
            wire.0.value != u32::MAX && (wire.0.value as nat) < old(self)@.wires.len() ==> r is Ok
                && ({
                let w = old(self)@.wires[wire.0.value as int];
                is_read_of(
                    r->Ok_0,
                    old(self)@.wire_states,
                    w.state_offset.value as int,
                    atoms_of_width(w.width as int),
                )
            }),
    {
        let w = match self.wires.get(wire.0) {
            Some(w) => *w,
            None => {
                return Err(InvalidWireIdError);
            },
        };
        let state_width = (w.width + 31) / 32;
        Ok(crate::kernel::read_state(&self.wire_states, w.state_offset.value, state_width))
    }

    /// The model with every wire state, output state and memory atom back at
    /// high impedance and the base drives kept.
    pub open spec fn reset_model(m: SimModel) -> SimModel {
        SimModel {
            wire_states: Seq::new(m.wire_states.len(), |p: int| crate::logic::spec_high_z_atom()),
            output_states: Seq::new(
                m.output_states.len(),
                |p: int| crate::logic::spec_high_z_atom(),
            ),
            memory: Seq::new(m.memory.len(), |p: int| crate::logic::spec_high_z_atom()),
            ..m
        }
    }

    /// Restores every wire state, output state and memory atom to high
    /// impedance; the user-set base drives persist.
    pub fn reset(&mut self)
        requires
            old(self).wf(),
        ensures
            final(self).wf(),
            final(self)@ == Self::reset_model(old(self)@),
    {
        let ghost m0 = self@;
        self.wire_states.reset();
        self.output_states.reset();
        self.memory.reset();
        proof {
            lemma_wf_same_shape(m0, self@);
            assert(self@.wire_states =~= Self::reset_model(m0).wire_states);
            assert(self@.output_states =~= Self::reset_model(m0).output_states);
            assert(self@.memory =~= Self::reset_model(m0).memory);
            assert(self@ == Self::reset_model(m0));
        }
    }
}

/// Resetting is idempotent: a second reset changes nothing.
pub proof fn lemma_reset_idempotent(m: SimModel)
    ensures
        Simulator::reset_model(Simulator::reset_model(m)) == Simulator::reset_model(m),
{
    let m1 = Simulator::reset_model(m);
    let m2 = Simulator::reset_model(m1);
    assert(m2.wire_states =~= m1.wire_states);
    assert(m2.output_states =~= m1.output_states);
    assert(m2.memory =~= m1.memory);
}

/// The record a new component's `k`-th input takes from the wire it reads.
pub open spec fn input_record_of(w: Wire) -> ComponentInput {
    ComponentInput { width: w.width, wire_state_offset: w.state_offset }
}

/// The decision `add_component` reaches on the input wires alone, walking
/// them in order: an unknown wire is reported, and an input arena about to
/// reach the sentinel is out of memory.
pub open spec fn inputs_outcome(wires: Seq<Wire>, inputs_len: int, ins: Seq<WireId>, k: int) -> (
    Result<(), AddComponentError>)
    decreases ins.len() - k,
{
    if k < 0 || k >= ins.len() {
        Ok(())
    } else if ins[k].0.value == u32::MAX || ins[k].0.value as nat >= wires.len() {
        Err(AddComponentError::InvalidWireId)
    } else if inputs_len >= u32::MAX {
        Err(AddComponentError::OutOfMemory)
    } else {
        inputs_outcome(wires, inputs_len + 1, ins, k + 1)
    }
}

/// The decision `add_component` reaches on a given netlist, in the order
/// the builder checks: output wire, output allocation, driver registration,
/// input count, then the input wires one by one, and the component record
/// last.
pub open spec fn add_component_outcome(m: SimModel, ins: Seq<WireId>, out: WireId) -> Result<
    (),
    AddComponentError,
> {
    if out.0.value == u32::MAX || out.0.value as nat >= m.wires.len() {
        Err(AddComponentError::InvalidWireId)
    } else {
        let w = m.wires[out.0.value as int];
        let atoms = atoms_of_width(w.width as int);
        if !(m.output_states.len() < u32::MAX && m.output_states.len() + atoms <= u32::MAX) {
            Err(AddComponentError::OutOfMemory)
        } else if w.first_driver_offset.value != u32::MAX && m.wire_drivers.len() >= u32::MAX {
            Err(AddComponentError::OutOfMemory)
        } else if ins.len() > 255 {
            Err(AddComponentError::TooManyInputs)
        } else if inputs_outcome(m.wires, m.inputs.len() as int, ins, 0) is Err {
            Err(inputs_outcome(m.wires, m.inputs.len() as int, ins, 0)->Err_0)
        } else if m.components.len() >= u32::MAX {
            Err(AddComponentError::OutOfMemory)
        } else {
            Ok(())
        }
    }
}

/// How a successful `add_component` changes the netlist: one output slice
/// allocated, one driver registered on the output wire, the input records
/// appended, and the component record appended last.
pub open spec fn component_added(
    m0: SimModel,
    m1: SimModel,
    kind: ComponentKind,
    ins: Seq<WireId>,
    out: WireId,
) -> bool {
    let out_idx = out.0.value as int;
    let w0 = m0.wires[out_idx];
    let atoms = atoms_of_width(w0.width as int);
    let new_offset = m0.output_states.len() as u32;
    &&& m1.wire_states == m0.wire_states
    &&& m1.wire_drives == m0.wire_drives
    &&& m1.memory == m0.memory
    &&& m1.outputs == m0.outputs
    &&& m1.output_states.len() == m0.output_states.len() + atoms
    &&& (forall|p: int|
        0 <= p < m0.output_states.len() ==> m1.output_states[p] == m0.output_states[p])
    &&& (forall|p: int|
        m0.output_states.len() <= p < m1.output_states.len() ==> m1.output_states[p]
            == crate::logic::spec_high_z_atom())
    &&& m1.inputs.len() == m0.inputs.len() + ins.len()
    &&& (forall|p: int| 0 <= p < m0.inputs.len() ==> m1.inputs[p] == m0.inputs[p])
    &&& (forall|k: int|
        0 <= k < ins.len() ==> m1.inputs[m0.inputs.len() + k] == input_record_of(
            m0.wires[(#[trigger] ins[k]).0.value as int],
        ))
    &&& m1.components == m0.components.push(
        Component {
            kind,
            output_count: 1,
            input_count: ins.len() as u8,
            output: ComponentOutputKind::Single(
                ComponentOutput {
                    width: w0.width,
                    state_offset: Offset { value: new_offset, marker: core::marker::PhantomData },
                },
            ),
            first_input: Index {
                value: if ins.len() == 0 {
                    u32::MAX
                } else {
                    m0.inputs.len() as u32
                },
                marker: core::marker::PhantomData,
            },
            memory_offset: Offset { value: u32::MAX, marker: core::marker::PhantomData },
            memory_size: 0,
        },
    )
    &&& (forall|i: int| 0 <= i < m0.wires.len() && i != out_idx ==> m1.wires[i] == m0.wires[i])
    &&& m1.wires.len() == m0.wires.len()
    &&& ({
        let w1 = m1.wires[out_idx];
        &&& w1.width == w0.width
        &&& w1.state_offset == w0.state_offset
        &&& w1.drive_offset == w0.drive_offset
        &&& crate::kernel::wire_sources(m1, w1) == crate::kernel::wire_sources(m0, w0).push(
            (atoms as u32, new_offset),
        )
    })
}

impl SimulatorBuilder {
    /// Adds a component to the netlist.
    ///
    /// The output wire gains the new component output as one more driver;
    /// the output slice starts at high impedance. A failure after the output
    /// allocation leaves those allocations behind, but the netlist stays
    /// consistent and the spare slice floats, so it never changes a merge.
    pub fn add_component<Ports: ComponentPorts>(&mut self, ports: Ports) -> (r: Result<
        ComponentId,
        AddComponentError,
    >)
        requires
            old(self).wf(),
        ensures
            final(self).wf(),
            add_component_outcome(old(self)@, ports.spec_inputs(), ports.spec_output()) is Ok ==> {
                &&& r is Ok
                &&& r->Ok_0.0.value as nat == old(self)@.components.len()
                &&& component_added(
                    old(self)@,
                    final(self)@,
                    ports.spec_kind(),
                    ports.spec_inputs(),
                    ports.spec_output(),
                )
            },
            add_component_outcome(old(self)@, ports.spec_inputs(), ports.spec_output()) matches
                Err(e) ==> {
                &&& r == Err::<ComponentId, _>(e)
                &&& final(self)@.components == old(self)@.components
                &&& final(self)@.wire_states == old(self)@.wire_states
                &&& final(self)@.wire_drives == old(self)@.wire_drives
                &&& final(self)@.memory == old(self)@.memory
            },
    {
        let ghost m0 = self@;
        let out_id = ports.output_wire();
        let mut w = match self.wires.get(out_id.0) {
            Some(w) => *w,
            None => {
                return Err(AddComponentError::InvalidWireId);
            },
        };
        let ghost out_idx = out_id.0.value as int;
        let ghost w0 = w;
        let state_width = (w.width + 31) / 32;
        let state_offset = match self.output_states.push(state_width) {
            Ok(offset) => offset,
            Err(_) => {
                proof {
                    lemma_wf_same_shape(m0, self@);
                }
                return Err(AddComponentError::OutOfMemory);
            },
        };
        let ghost m_a = self@;
        proof {
            lemma_wf_same_shape(m0, m_a);
        }
        let dr = w.add_driver(&mut self.wire_drivers, state_width, state_offset);
        let ghost m_b = self@;
        proof {
            lemma_wf_after_driver(m_a, m_b, state_width, state_offset.value);
        }
        match dr {
            Ok(()) => {},
            Err(e) => {
                return Err(e);
            },
        }
        let set_ok = self.wires.set(out_id.0, w);
        let ghost m_c = self@;
        proof {
            lemma_wf_after_wire_update(m_b, m_c, out_idx, w0, w, state_width, state_offset.value);
        }
        let in_ids = ports.input_wires();
        proof {
            assert(m_c.components == m0.components);
            assert(m_c.inputs == m0.inputs);
            assert(m_c.wire_states == m0.wire_states);
            assert(m_c.wire_drives == m0.wire_drives);
            assert(m_c.memory == m0.memory);
            assert(m_c.outputs == m0.outputs);
            assert(m_c.wires == m0.wires.update(out_idx, w));
            assert(m0.output_states.len() < u32::MAX && m0.output_states.len() + state_width
                <= u32::MAX);
            assert(!(w0.first_driver_offset.value != u32::MAX && m0.wire_drivers.len()
                >= u32::MAX));
        }
        if in_ids.len() > 255 {
            return Err(AddComponentError::TooManyInputs);
        }
        let input_count = in_ids.len() as u8;
        let first_input_value: u32 = self.inputs.len();
        let mut k: usize = 0;
        while k < in_ids.len()
            invariant
                k <= in_ids.len() <= 255,
                model_wf(self@),
                model_wf(m0),
                self@.wires == m_c.wires,
                self@.wire_drivers == m_c.wire_drivers,
                self@.components == m_c.components,
                self@.outputs == m_c.outputs,
                self@.wire_states == m_c.wire_states,
                self@.wire_drives == m_c.wire_drives,
                self@.output_states == m_c.output_states,
                self@.memory == m_c.memory,
                m_c.components == m0.components,
                m_c.inputs == m0.inputs,
                m_c.wire_states == m0.wire_states,
                m_c.wire_drives == m0.wire_drives,
                m_c.memory == m0.memory,
                0 <= out_idx < m0.wires.len(),
                m_c.wires == m0.wires.update(out_idx, w),
                first_input_value as nat == m0.inputs.len(),
                self@.inputs.len() == m0.inputs.len() + k,
                forall|p: int| 0 <= p < m0.inputs.len() ==> self@.inputs[p] == m0.inputs[p],
                forall|q: int|
                    0 <= q < k ==> (#[trigger] in_ids@[q]).0.value != u32::MAX
                        && (in_ids@[q].0.value as nat) < m0.wires.len()
                        && self@.inputs[m0.inputs.len() + q] == input_record_of(
                        m0.wires[in_ids@[q].0.value as int],
                    ),
                inputs_outcome(m0.wires, m0.inputs.len() as int, in_ids@, 0) == inputs_outcome(
                    m0.wires,
                    m0.inputs.len() + k,
                    in_ids@,
                    k as int,
                ),
                w.width == w0.width,
                w.state_offset == w0.state_offset,
                w0 == m0.wires[out_idx],
                out_id.0.value != u32::MAX,
                out_idx == out_id.0.value as int,
                m0.output_states.len() < u32::MAX,
                m0.output_states.len() + atoms_of_width(w0.width as int) <= u32::MAX,
                !(w0.first_driver_offset.value != u32::MAX && m0.wire_drivers.len() >= u32::MAX),
                in_ids@ == ports.spec_inputs(),
                out_id == ports.spec_output(),
                m0 == old(self)@,
            decreases in_ids.len() - k,
        {
            let in_wire = match self.wires.get(in_ids[k].0) {
                Some(iw) => *iw,
                None => {
                    proof {
                        assert(inputs_outcome(m0.wires, m0.inputs.len() + k, in_ids@, k as int)
                            == Err::<(), AddComponentError>(AddComponentError::InvalidWireId));
                    }
                    return Err(AddComponentError::InvalidWireId);
                },
            };
            proof {
                if in_ids@[k as int].0.value as int == out_idx {
                    assert(in_wire == w);
                    assert(input_record_of(w) == input_record_of(m0.wires[out_idx]));
                } else {
                    assert(in_wire == m0.wires[in_ids@[k as int].0.value as int]);
                }
            }
            let rec = ComponentInput { width: in_wire.width, wire_state_offset: (
            in_wire.state_offset) };
            let ghost m_pre = self@;
            match self.inputs.push(rec) {
                Ok(_) => {},
                Err(_) => {
                    proof {
                        lemma_wf_inputs_grow(m_pre, self@);
                        assert(inputs_outcome(m0.wires, m0.inputs.len() + k, in_ids@, k as int)
                            == Err::<(), AddComponentError>(AddComponentError::OutOfMemory));
                    }
                    return Err(AddComponentError::OutOfMemory);
                },
            }
            proof {
                lemma_wf_inputs_grow(m_pre, self@);
            }
            k = k + 1;
        }
        let first_input: Index<ComponentInput> = if input_count == 0 {
            Index::invalid()
        } else {
            Index { value: first_input_value, marker: core::marker::PhantomData }
        };
        let component = Component {
            kind: ports.kind(),
            output_count: 1,
            input_count,
            output: ComponentOutputKind::Single(
                ComponentOutput { width: w.width, state_offset },
            ),
            first_input,
            memory_offset: Offset::invalid(),
            memory_size: 0,
        };
        let ghost m_d = self@;
        proof {
            assert(crate::kernel::component_wf(component, m_d)) by {
                assert(comp_output(component).state_offset.value + atoms_of_width(
                    comp_output(component).width as int,
                ) <= m_d.output_states.len());
                assert forall|q: int| 0 <= q < component.input_count implies (
                crate::kernel::input_wf(
                    #[trigger] m_d.inputs[component.first_input.value + q],
                    m_d,
                )) by {
                    let id = in_ids@[q].0.value as int;
                    assert(m_d.inputs[m0.inputs.len() + q] == input_record_of(m0.wires[id]));
                    assert(crate::kernel::wire_wf(m0.wires[id], m0));
                }
            }
        }
        let component_index = match self.components.push(component) {
            Ok(index) => index,
            Err(_) => {
                return Err(AddComponentError::OutOfMemory);
            },
        };
        proof {
            assert forall|i: int|
                0 <= i < m_d.components.len() implies comp_output(
                #[trigger] m_d.components[i],
            ).state_offset.value + atoms_of_width(comp_output(m_d.components[i]).width as int)
                <= m0.output_states.len() by {
                assert(crate::kernel::component_wf(m0.components[i], m0));
            }
            lemma_wf_after_component(m_d, self@, component, m0, out_idx, w0);
            let m1 = self@;
            let ins = in_ids@;
            assert(component_added(m0, m1, ports.spec_kind(), ins, out_id)) by {
                assert(m1.output_states == m_a.output_states);
                assert(m1.inputs.len() == m0.inputs.len() + ins.len());
                assert forall|q: int| 0 <= q < ins.len() implies m1.inputs[m0.inputs.len() + q]
                    == input_record_of(m0.wires[(#[trigger] ins[q]).0.value as int]) by {}
                let w1 = m1.wires[out_idx];
                assert(w1 == w);
                if w0.first_driver_offset.value == u32::MAX {
                    assert(w0.driver_list.value == u32::MAX) by {
                        assert(crate::kernel::wire_wf(w0, m0));
                    }
                    assert(m1.wire_drivers == m0.wire_drivers);
                    assert(w.driver_list == w0.driver_list);
                    assert(crate::graph::chain_sources(m1.wire_drivers, u32::MAX as int)
                        =~= Seq::<(u32, u32)>::empty());
                    assert(crate::kernel::wire_sources(m1, w1) =~= crate::kernel::wire_sources(
                        m0,
                        w0,
                    ).push((state_width, state_offset.value)));
                } else {
                    assert(crate::graph::chain_sources(
                        m1.wire_drivers,
                        w.driver_list.value as int,
                    ) == crate::graph::chain_sources(
                        m0.wire_drivers,
                        w0.driver_list.value as int,
                    ).push((state_width, state_offset.value)));
                    assert(w.first_driver_offset == w0.first_driver_offset
                        && w.first_driver_width == w0.first_driver_width);
                    assert(crate::kernel::wire_sources(m1, w1) =~= crate::kernel::wire_sources(
                        m0,
                        w0,
                    ).push((state_width, state_offset.value)));
                }
            }
        }
        Ok(ComponentId(component_index))
    }
}

/// Registering a driver keeps the model well formed, before the wire record
/// itself is written back.
proof fn lemma_wf_after_driver(m_a: SimModel, m_b: SimModel, width: u32, offset: u32)
    requires
        model_wf(m_a),
        m_b == (SimModel { wire_drivers: m_b.wire_drivers, ..m_a }),
        drivers_next_monotone(m_b.wire_drivers),
        m_b.wire_drivers.len() == m_a.wire_drivers.len() || m_b.wire_drivers.len()
            == m_a.wire_drivers.len() + 1,
        m_b.wire_drivers.len() <= u32::MAX,
        forall|i: int|
            0 <= i < m_a.wire_drivers.len() ==> (#[trigger] m_b.wire_drivers[i]).width
                == m_a.wire_drivers[i].width && m_b.wire_drivers[i].output_state_offset
                == m_a.wire_drivers[i].output_state_offset,
        m_b.wire_drivers.len() == m_a.wire_drivers.len() + 1 ==> m_b.wire_drivers[m_a.wire_drivers.len() as int]
            == (WireDriver {
            width,
            output_state_offset: Offset { value: offset, marker: core::marker::PhantomData },
            next_driver: u32::MAX,
        }),
        width <= 8,
        offset != u32::MAX,
        offset + width <= m_a.output_states.len(),
    ensures
        model_wf(m_b),
{
    assert forall|i: int| 0 <= i < m_b.wires.len() implies crate::kernel::wire_wf(
        #[trigger] m_b.wires[i],
        m_b,
    ) by {
        assert(crate::kernel::wire_wf(m_a.wires[i], m_a));
    }
    assert forall|i: int| 0 <= i < m_b.wire_drivers.len() implies crate::kernel::driver_wf(
        #[trigger] m_b.wire_drivers[i],
        m_b,
    ) by {
        if i < m_a.wire_drivers.len() {
            assert(crate::kernel::driver_wf(m_a.wire_drivers[i], m_a));
        }
    }
    assert forall|i: int| 0 <= i < m_b.components.len() implies crate::kernel::component_wf(
        #[trigger] m_b.components[i],
        m_b,
    ) by {
        assert(crate::kernel::component_wf(m_a.components[i], m_a));
        assert forall|k: int| 0 <= k < m_b.components[i].input_count implies (
        crate::kernel::input_wf(#[trigger] m_b.inputs[m_b.components[i].first_input.value + k], (
        m_b))) by {
            assert(crate::kernel::input_wf(m_a.inputs[m_a.components[i].first_input.value + k], (
            m_a)));
        }
    }
}

/// Writing the updated output wire record back/// Writing the updated output wire record back keeps the model well formed.
proof fn lemma_wf_after_wire_update(
    m_b: SimModel,
    m_c: SimModel,
    out_idx: int,
    w0: Wire,
    w1: Wire,
    width: u32,
    offset: u32,
)
    requires
        model_wf(m_b),
        0 <= out_idx < m_b.wires.len(),
        m_c == (SimModel { wires: m_b.wires.update(out_idx, w1), ..m_b }),
        w0 == m_b.wires[out_idx],
        w1.width == w0.width,
        w1.state_offset == w0.state_offset,
        w1.drive_offset == w0.drive_offset,
        w1.first_driver_offset.value != u32::MAX ==> w1.first_driver_offset == w0.first_driver_offset
            || (w1.first_driver_width == width && w1.first_driver_offset.value == offset),
        w1.first_driver_offset == w0.first_driver_offset ==> w1.first_driver_width
            == w0.first_driver_width,
        w1.driver_list.value == u32::MAX || (w1.driver_list.value as int) < m_b.wire_drivers.len(),
        w1.first_driver_offset.value == u32::MAX ==> w1.driver_list.value == u32::MAX,
        width <= 8,
        offset != u32::MAX,
        offset + width <= m_b.output_states.len(),
    ensures
        model_wf(m_c),
{
    assert forall|i: int| 0 <= i < m_c.wires.len() implies crate::kernel::wire_wf(
        #[trigger] m_c.wires[i],
        m_c,
    ) by {
        assert(crate::kernel::wire_wf(m_b.wires[i], m_b));
        if i == out_idx {
            assert(crate::kernel::wire_wf(w0, m_b));
        }
    }
    assert forall|i: int| 0 <= i < m_c.wire_drivers.len() implies crate::kernel::driver_wf(
        #[trigger] m_c.wire_drivers[i],
        m_c,
    ) by {
        assert(crate::kernel::driver_wf(m_b.wire_drivers[i], m_b));
    }
    assert forall|i: int| 0 <= i < m_c.components.len() implies crate::kernel::component_wf(
        #[trigger] m_c.components[i],
        m_c,
    ) by {
        assert(crate::kernel::component_wf(m_b.components[i], m_b));
        assert forall|k: int| 0 <= k < m_c.components[i].input_count implies (
        crate::kernel::input_wf(#[trigger] m_c.inputs[m_c.components[i].first_input.value + k], (
        m_c))) by {
            assert(crate::kernel::input_wf(m_b.inputs[m_b.components[i].first_input.value + k], (
            m_b)));
        }
    }
    assert forall|i: int, j: int| 0 <= i < j < m_c.wires.len() implies (
    #[trigger] m_c.wires[i]).state_offset.value + atoms_of_width(m_c.wires[i].width as int) <= (
    #[trigger] m_c.wires[j]).state_offset.value by {
        assert(m_b.wires[i].state_offset.value + atoms_of_width(m_b.wires[i].width as int)
            <= m_b.wires[j].state_offset.value);
    }
}

/// Appending one input record keeps the model well formed.
proof fn lemma_wf_inputs_grow(m0: SimModel, m1: SimModel)
    requires
        model_wf(m0),
        m1.inputs.len() <= u32::MAX,
        m1 == (SimModel { inputs: m1.inputs, ..m0 }),
        m1.inputs.len() >= m0.inputs.len(),
        forall|p: int| 0 <= p < m0.inputs.len() ==> m1.inputs[p] == m0.inputs[p],
        forall|p: int|
            m0.inputs.len() <= p < m1.inputs.len() ==> crate::kernel::input_wf(
                #[trigger] m1.inputs[p],
                m1,
            ),
    ensures
        model_wf(m1),
{
    assert forall|i: int| 0 <= i < m1.wires.len() implies crate::kernel::wire_wf(
        #[trigger] m1.wires[i],
        m1,
    ) by {
        assert(crate::kernel::wire_wf(m0.wires[i], m0));
    }
    assert forall|i: int| 0 <= i < m1.wire_drivers.len() implies crate::kernel::driver_wf(
        #[trigger] m1.wire_drivers[i],
        m1,
    ) by {
        assert(crate::kernel::driver_wf(m0.wire_drivers[i], m0));
    }
    assert forall|i: int| 0 <= i < m1.components.len() implies crate::kernel::component_wf(
        #[trigger] m1.components[i],
        m1,
    ) by {
        assert(crate::kernel::component_wf(m0.components[i], m0));
        assert forall|k: int| 0 <= k < m1.components[i].input_count implies (
        crate::kernel::input_wf(#[trigger] m1.inputs[m1.components[i].first_input.value + k], (
        m1))) by {
            assert(crate::kernel::input_wf(m0.inputs[m0.components[i].first_input.value + k], m0));
        }
    }
}

/// Appending the component record itself keeps the model well formed.
proof fn lemma_wf_after_component(
    m_d: SimModel,
    m_e: SimModel,
    c: Component,
    m0: SimModel,
    out_idx: int,
    w0: Wire,
)
    requires
        model_wf(m_d),
        m_e == (SimModel { components: m_d.components.push(c), ..m_d }),
        m_e.components.len() <= u32::MAX,
        crate::kernel::component_wf(c, m_d),
        comp_output(c).state_offset.value as nat >= m0.output_states.len(),
        forall|i: int|
            0 <= i < m_d.components.len() ==> comp_output(
                #[trigger] m_d.components[i],
            ).state_offset.value + atoms_of_width(comp_output(m_d.components[i]).width as int)
                <= m0.output_states.len(),
    ensures
        model_wf(m_e),
{
    assert forall|i: int| 0 <= i < m_e.wires.len() implies crate::kernel::wire_wf(
        #[trigger] m_e.wires[i],
        m_e,
    ) by {
        assert(crate::kernel::wire_wf(m_d.wires[i], m_d));
    }
    assert forall|i: int| 0 <= i < m_e.wire_drivers.len() implies crate::kernel::driver_wf(
        #[trigger] m_e.wire_drivers[i],
        m_e,
    ) by {
        assert(crate::kernel::driver_wf(m_d.wire_drivers[i], m_d));
    }
    assert forall|i: int| 0 <= i < m_e.components.len() implies crate::kernel::component_wf(
        #[trigger] m_e.components[i],
        m_e,
    ) by {
        if i < m_d.components.len() {
            assert(crate::kernel::component_wf(m_d.components[i], m_d));
            assert forall|k: int| 0 <= k < m_e.components[i].input_count implies (
            crate::kernel::input_wf(#[trigger] m_e.inputs[m_e.components[i].first_input.value + k],
            m_e)) by {
                assert(crate::kernel::input_wf(
                    m_d.inputs[m_d.components[i].first_input.value + k],
                    m_d,
                ));
            }
        } else {
            assert(crate::kernel::component_wf(c, m_d));
            assert forall|k: int| 0 <= k < c.input_count implies (crate::kernel::input_wf(
                #[trigger] m_e.inputs[c.first_input.value + k],
                m_e,
            )) by {
                assert(crate::kernel::input_wf(m_d.inputs[c.first_input.value + k], m_d));
            }
        }
    }
    assert forall|i: int, j: int| 0 <= i < j < m_e.components.len() implies comp_output(
        #[trigger] m_e.components[i],
    ).state_offset.value + atoms_of_width(comp_output(m_e.components[i]).width as int)
        <= comp_output(#[trigger] m_e.components[j]).state_offset.value by {
        if j < m_d.components.len() {
            assert(comp_output(m_d.components[i]).state_offset.value + atoms_of_width(
                comp_output(m_d.components[i]).width as int,
            ) <= comp_output(m_d.components[j]).state_offset.value);
        }
    }
}

impl Simulator {
    /// One wire pass: merges the drivers of every wire into a fresh state,
    /// reporting whether any wire changed and which wires conflict.
    fn wire_pass(&mut self) -> (r: (bool, Vec<WireId>))
        requires
            old(self).wf(),
        ensures
            final(self).wf(),
            crate::kernel::wire_pass_post(old(self)@, final(self)@),
            r.0 == (final(self)@.wire_states != old(self)@.wire_states),
            r.1@.len() == crate::kernel::conflict_list(old(self)@).len(),
            forall|k: int|
                0 <= k < r.1@.len() ==> (#[trigger] r.1@[k]).0.value == crate::kernel::conflict_list(
                    old(self)@,
                )[k],
    {
        let ghost m0 = self@;
        let n = self.wires.len();
        let mut changed = false;
        let ghost mut witness_p: int = 0;
        let mut conflicts: Vec<WireId> = Vec::new();
        let mut i: u32 = 0;
        while i < n
            invariant
                model_wf(m0),
                m0 == old(self)@,
                n as nat == m0.wires.len(),
                i <= n,
                self@.wires == m0.wires,
                self@.wire_drives == m0.wire_drives,
                self@.wire_drivers == m0.wire_drivers,
                self@.output_states == m0.output_states,
                self@.outputs == m0.outputs,
                self@.inputs == m0.inputs,
                self@.memory == m0.memory,
                self@.components == m0.components,
                self@.wire_states.len() == m0.wire_states.len(),
                forall|q: int|
                    0 <= q < i ==> crate::kernel::wire_slice_ok(m0, self@, #[trigger] m0.wires[q]),
                forall|p: int|
                    0 <= p < self@.wire_states.len() && !ws_covered_upto(m0, p, i as int)
                        ==> self@.wire_states[p] == m0.wire_states[p],
                changed ==> 0 <= witness_p < self@.wire_states.len()
                    && self@.wire_states[witness_p] != m0.wire_states[witness_p],
                !changed ==> self@.wire_states == m0.wire_states,
                conflicts@.len() == crate::kernel::conflicts_upto(m0, i as int).len(),
                forall|k: int|
                    0 <= k < conflicts@.len() ==> (#[trigger] conflicts@[k]).0.value
                        == crate::kernel::conflicts_upto(m0, i as int)[k],
            decreases n - i,
        {
            let wire = match self.wires.get(Index { value: i, marker: core::marker::PhantomData }) {
                Some(w) => *w,
                None => {
                    return (changed, conflicts);
                },
            };
            proof {
                assert(wire == m0.wires[i as int]);
                assert(crate::kernel::wire_wf(wire, m0));
            }
            let result = crate::kernel::compute_wire(
                &wire,
                &self.wire_drives,
                &self.wire_drivers,
                &self.output_states,
                Ghost(m0),
            );
            let value = result.0;
            let conflict = result.1;
            let atoms = (wire.width + 31) / 32;
            let new_atoms = crate::kernel::ls_to_atoms(&value, atoms);
            let mut differs = false;
            let ghost mut diff_k: int = 0;
            {
                let old_slice = match self.wire_states.get(wire.state_offset, atoms) {
                    Some(s) => s,
                    None => {
                        return (changed, conflicts);
                    },
                };
                let mut k: usize = 0;
                while k < atoms as usize
                    invariant
                        k <= atoms,
                        old_slice@.len() == atoms,
                        new_atoms@.len() == atoms,
                        !differs ==> forall|q: int| 0 <= q < k ==> old_slice@[q] == new_atoms@[q],
                        differs ==> 0 <= diff_k < atoms && old_slice@[diff_k] != new_atoms@[diff_k],
                    decreases atoms - k,
                {
                    if old_slice[k].state != new_atoms[k].state || old_slice[k].valid
                        != new_atoms[k].valid {
                        differs = true;
                        proof {
                            diff_k = k as int;
                        }
                    }
                    k = k + 1;
                }
            }
            let ghost pre_ws = self@.wire_states;
            self.wire_states.write(wire.state_offset, new_atoms.as_slice());
            proof {
                let off = wire.state_offset.value as int;
                let cnt = atoms as int;
                lemma_wire_pass_step(m0, pre_ws, self@.wire_states, wire, i as int, value);
                if differs {
                    witness_p = off + diff_k;
                    assert(pre_ws[off + diff_k] == m0.wire_states[off + diff_k]) by {
                        assert(!ws_covered_upto(m0, off + diff_k, i as int));
                    }
                    assert(self@.wire_states[witness_p] != m0.wire_states[witness_p]);
                } else {
                    if !changed {
                        assert(self@.wire_states =~= m0.wire_states) by {
                            assert forall|p: int|
                                0 <= p < self@.wire_states.len() implies self@.wire_states[p]
                                == m0.wire_states[p] by {
                                if off <= p < off + cnt {
                                    assert(self@.wire_states[p] == new_atoms@[p - off]);
                                    assert(pre_ws[p] == m0.wire_states[p]) by {
                                        assert(!ws_covered_upto(m0, p, i as int));
                                    }
                                }
                            }
                        }
                    }
                }
                if changed && !differs {
                    assert(self@.wire_states[witness_p] != m0.wire_states[witness_p]) by {
                        if off <= witness_p < off + cnt {
                            assert(self@.wire_states[witness_p] == new_atoms@[witness_p - off]);
                            assert(pre_ws[witness_p] == m0.wire_states[witness_p]) by {
                                assert(!ws_covered_upto(m0, witness_p, i as int));
                            }
                        }
                    }
                }
            }
            if differs {
                changed = true;
            }
            if conflict {
                if conflicts.len() < 256 {
                    conflicts.push(WireId(Index { value: i, marker: core::marker::PhantomData }));
                }
            }
            proof {
                lemma_wf_same_shape(m0, self@);
            }
            i = i + 1;
        }
        proof {
            assert forall|p: int|
                0 <= p < self@.wire_states.len() && !crate::kernel::ws_covered(m0, p) implies (
            self@.wire_states[p] == m0.wire_states[p]) by {
                assert(!ws_covered_upto(m0, p, m0.wires.len() as int));
            }
            if changed {
                assert(self@.wire_states != m0.wire_states);
            }
        }
        (changed, conflicts)
    }
}

/// Whether position `p` of the wire-state buffer belongs to one of the
/// first `n` wires.
pub open spec fn ws_covered_upto(m: SimModel, p: int, n: int) -> bool {
    exists|i: int|
        0 <= i < n && i < m.wires.len() && (#[trigger] m.wires[i]).state_offset.value <= p
            < m.wires[i].state_offset.value + atoms_of_width(m.wires[i].width as int)
}

/// One wire-pass step: writing wire `i`'s freshly merged slice establishes
/// its per-bit target and preserves the slices of the wires before it.
proof fn lemma_wire_pass_step(
    m0: SimModel,
    pre_ws: Seq<LogicStateAtom>,
    new_ws: Seq<LogicStateAtom>,
    wire: Wire,
    i: int,
    value: LogicState,
)
    requires
        model_wf(m0),
        0 <= i < m0.wires.len(),
        wire == m0.wires[i],
        pre_ws.len() == m0.wire_states.len(),
        new_ws.len() == pre_ws.len(),
        forall|j: u32|
            j < 256 ==> crate::logic::ls_bit(value, j) == crate::kernel::wire_target_bit(
                m0,
                wire,
                j,
            ),
        forall|p: int|
            0 <= p < new_ws.len() ==> new_ws[p] == (if wire.state_offset.value <= p
                < wire.state_offset.value + atoms_of_width(wire.width as int) {
                value.0[p - wire.state_offset.value]
            } else {
                pre_ws[p]
            }),
        forall|q: int|
            0 <= q < i ==> crate::kernel::wire_slice_ok(
                m0,
                SimModel { wire_states: pre_ws, ..m0 },
                #[trigger] m0.wires[q],
            ),
        forall|p: int|
            0 <= p < pre_ws.len() && !ws_covered_upto(m0, p, i) ==> pre_ws[p]
                == m0.wire_states[p],
    ensures
        forall|q: int|
            0 <= q < i + 1 ==> crate::kernel::wire_slice_ok(
                m0,
                SimModel { wire_states: new_ws, ..m0 },
                #[trigger] m0.wires[q],
            ),
        forall|p: int|
            0 <= p < new_ws.len() && !ws_covered_upto(m0, p, i + 1) ==> new_ws[p]
                == m0.wire_states[p],
{
    let off = wire.state_offset.value as int;
    let cnt = atoms_of_width(wire.width as int);
    let m_new = SimModel { wire_states: new_ws, ..m0 };
    let m_pre = SimModel { wire_states: pre_ws, ..m0 };
    assert forall|q: int| 0 <= q < i + 1 implies crate::kernel::wire_slice_ok(
        m0,
        m_new,
        #[trigger] m0.wires[q],
    ) by {
        let wq = m0.wires[q];
        let qoff = wq.state_offset.value as int;
        let qcnt = atoms_of_width(wq.width as int);
        assert(crate::kernel::wire_wf(wq, m0));
        assert(crate::kernel::wire_wf(wire, m0));
        if q < i {
            assert(qoff + qcnt <= off);
            assert forall|j: u32| j < 32 * qcnt implies crate::kernel::slice_bit(
                new_ws,
                qoff,
                qcnt,
                j,
            ) == crate::kernel::wire_target_bit(m0, wq, j) by {
                assert(0 <= qoff + j as int / 32 < qoff + qcnt);
                assert(new_ws[qoff + j as int / 32] == pre_ws[qoff + j as int / 32]);
                assert(crate::kernel::slice_bit(pre_ws, qoff, qcnt, j)
                    == crate::kernel::wire_target_bit(m0, wq, j));
            }
        } else {
            assert forall|j: u32| j < 32 * qcnt implies crate::kernel::slice_bit(
                new_ws,
                qoff,
                qcnt,
                j,
            ) == crate::kernel::wire_target_bit(m0, wq, j) by {
                let ai = j as int / 32;
                assert(0 <= ai < qcnt) by (nonlinear_arith)
                    requires
                        j < 32 * qcnt,
                        ai == j as int / 32,
                        0 <= j,
                ;
                assert(new_ws[qoff + ai] == value.0[ai]);
                assert(crate::logic::ls_bit(value, j) == crate::kernel::wire_target_bit(
                    m0,
                    wq,
                    j,
                ));
                assert(crate::logic::ls_bit(value, j) == crate::logic::atom_bit(
                    value.0[ai],
                    j % 32,
                ));
            }
        }
    }
    assert forall|p: int| 0 <= p < new_ws.len() && !ws_covered_upto(m0, p, i + 1) implies new_ws[p]
        == m0.wire_states[p] by {
        assert(!(off <= p < off + cnt));
        assert(!ws_covered_upto(m0, p, i));
    }
}

impl Simulator {
    /// One component pass: re-evaluates every component onto its output
    /// slice, reporting whether any output changed.
    fn component_pass(&mut self) -> (r: bool)
        requires
            old(self).wf(),
        ensures
            final(self).wf(),
            crate::kernel::comp_pass_post(old(self)@, final(self)@),
            r == (final(self)@.output_states != old(self)@.output_states),
    {
        let ghost m0 = self@;
        let n = self.components.len();
        let mut changed = false;
        let ghost mut witness_p: int = 0;
        let mut i: u32 = 0;
        while i < n
            invariant
                model_wf(m0),
                m0 == old(self)@,
                n as nat == m0.components.len(),
                i <= n,
                self@.wires == m0.wires,
                self@.wire_drives == m0.wire_drives,
                self@.wire_drivers == m0.wire_drivers,
                self@.wire_states == m0.wire_states,
                self@.outputs == m0.outputs,
                self@.inputs == m0.inputs,
                self@.memory == m0.memory,
                self@.components == m0.components,
                self@.output_states.len() == m0.output_states.len(),
                forall|q: int|
                    0 <= q < i ==> crate::kernel::comp_slice_ok(
                        m0,
                        self@,
                        #[trigger] m0.components[q],
                    ),
                forall|p: int|
                    0 <= p < self@.output_states.len() && !os_covered_upto(m0, p, i as int)
                        ==> self@.output_states[p] == m0.output_states[p],
                changed ==> 0 <= witness_p < self@.output_states.len()
                    && self@.output_states[witness_p] != m0.output_states[witness_p],
                !changed ==> self@.output_states == m0.output_states,
            decreases n - i,
        {
            let comp = match self.components.get(
                Index { value: i, marker: core::marker::PhantomData },
            ) {
                Some(c) => *c,
                None => {
                    return changed;
                },
            };
            proof {
                assert(comp == m0.components[i as int]);
                assert(crate::kernel::component_wf(comp, m0));
            }
            let value = crate::kernel::compute_component(
                &comp,
                &self.wire_states,
                &self.inputs,
                Ghost(m0),
            );
            let out = match comp.output {
                ComponentOutputKind::Single(out) => out,
                ComponentOutputKind::List(_, _) => {
                    return changed;
                },
            };
            let atoms = (out.width + 31) / 32;
            let new_atoms = crate::kernel::ls_to_atoms(&value, atoms);
            let mut differs = false;
            let ghost mut diff_k: int = 0;
            {
                let old_slice = match self.output_states.get(out.state_offset, atoms) {
                    Some(s) => s,
                    None => {
                        return changed;
                    },
                };
                let mut k: usize = 0;
                while k < atoms as usize
                    invariant
                        k <= atoms,
                        old_slice@.len() == atoms,
                        new_atoms@.len() == atoms,
                        !differs ==> forall|q: int| 0 <= q < k ==> old_slice@[q] == new_atoms@[q],
                        differs ==> 0 <= diff_k < atoms && old_slice@[diff_k] != new_atoms@[diff_k],
                    decreases atoms - k,
                {
                    if old_slice[k].state != new_atoms[k].state || old_slice[k].valid
                        != new_atoms[k].valid {
                        differs = true;
                        proof {
                            diff_k = k as int;
                        }
                    }
                    k = k + 1;
                }
            }
            let ghost pre_os = self@.output_states;
            self.output_states.write(out.state_offset, new_atoms.as_slice());
            proof {
                let off = out.state_offset.value as int;
                let cnt = atoms as int;
                lemma_comp_pass_step(m0, pre_os, self@.output_states, comp, i as int, value);
                if differs {
                    witness_p = off + diff_k;
                    assert(pre_os[off + diff_k] == m0.output_states[off + diff_k]) by {
                        assert(!os_covered_upto(m0, off + diff_k, i as int));
                    }
                    assert(self@.output_states[witness_p] != m0.output_states[witness_p]);
                } else {
                    if !changed {
                        assert(self@.output_states =~= m0.output_states) by {
                            assert forall|p: int|
                                0 <= p < self@.output_states.len() implies self@.output_states[p]
                                == m0.output_states[p] by {
                                if off <= p < off + cnt {
                                    assert(self@.output_states[p] == new_atoms@[p - off]);
                                    assert(pre_os[p] == m0.output_states[p]) by {
                                        assert(!os_covered_upto(m0, p, i as int));
                                    }
                                }
                            }
                        }
                    }
                }
                if changed && !differs {
                    assert(self@.output_states[witness_p] != m0.output_states[witness_p]) by {
                        if off <= witness_p < off + cnt {
                            assert(self@.output_states[witness_p] == new_atoms@[witness_p - off]);
                            assert(pre_os[witness_p] == m0.output_states[witness_p]) by {
                                assert(!os_covered_upto(m0, witness_p, i as int));
                            }
                        }
                    }
                }
                lemma_wf_same_shape(m0, self@);
            }
            if differs {
                changed = true;
            }
            i = i + 1;
        }
        proof {
            assert forall|p: int|
                0 <= p < self@.output_states.len() && !crate::kernel::os_covered(m0, p) implies (
            self@.output_states[p] == m0.output_states[p]) by {
                assert(!os_covered_upto(m0, p, m0.components.len() as int));
            }
            if changed {
                assert(self@.output_states != m0.output_states);
            }
        }
        changed
    }
}

/// Whether position `p` of the output-state buffer belongs to one of the
/// first `n` components.
pub open spec fn os_covered_upto(m: SimModel, p: int, n: int) -> bool {
    exists|i: int|
        0 <= i < n && i < m.components.len() && comp_output(
            #[trigger] m.components[i],
        ).state_offset.value <= p < comp_output(m.components[i]).state_offset.value
            + atoms_of_width(comp_output(m.components[i]).width as int)
}

/// One component-pass step: writing component `i`'s fresh output slice
/// makes every read of it a correct evaluation, and preserves the slices of
/// the components before it.
proof fn lemma_comp_pass_step(
    m0: SimModel,
    pre_os: Seq<LogicStateAtom>,
    new_os: Seq<LogicStateAtom>,
    comp: Component,
    i: int,
    value: LogicState,
)
    requires
        model_wf(m0),
        0 <= i < m0.components.len(),
        comp == m0.components[i],
        pre_os.len() == m0.output_states.len(),
        new_os.len() == pre_os.len(),
        forall|ins: Seq<crate::logic::LogicState>|
            crate::kernel::inputs_read(m0, comp, ins)
                ==> crate::kernel::comp_result_matches(m0, comp, ins, value),
        forall|p: int|
            0 <= p < new_os.len() ==> new_os[p] == (if comp_output(comp).state_offset.value <= p
                < comp_output(comp).state_offset.value + atoms_of_width(
                comp_output(comp).width as int,
            ) {
                value.0[p - comp_output(comp).state_offset.value]
            } else {
                pre_os[p]
            }),
        forall|q: int|
            0 <= q < i ==> crate::kernel::comp_slice_ok(
                m0,
                SimModel { output_states: pre_os, ..m0 },
                #[trigger] m0.components[q],
            ),
        forall|p: int|
            0 <= p < pre_os.len() && !os_covered_upto(m0, p, i) ==> pre_os[p]
                == m0.output_states[p],
    ensures
        forall|q: int|
            0 <= q < i + 1 ==> crate::kernel::comp_slice_ok(
                m0,
                SimModel { output_states: new_os, ..m0 },
                #[trigger] m0.components[q],
            ),
        forall|p: int|
            0 <= p < new_os.len() && !os_covered_upto(m0, p, i + 1) ==> new_os[p]
                == m0.output_states[p],
{
    let off = comp_output(comp).state_offset.value as int;
    let cnt = atoms_of_width(comp_output(comp).width as int);
    let m_new = SimModel { output_states: new_os, ..m0 };
    let m_pre = SimModel { output_states: pre_os, ..m0 };
    assert(crate::kernel::component_wf(comp, m0));
    assert forall|q: int| 0 <= q < i + 1 implies crate::kernel::comp_slice_ok(
        m0,
        m_new,
        #[trigger] m0.components[q],
    ) by {
        let cq = m0.components[q];
        let qoff = comp_output(cq).state_offset.value as int;
        let qcnt = atoms_of_width(comp_output(cq).width as int);
        assert(crate::kernel::component_wf(cq, m0));
        if q < i {
            assert(qoff + qcnt <= off);
            assert forall|ins: Seq<crate::logic::LogicState>, s: crate::logic::LogicState|
                crate::kernel::inputs_read(m0, cq, ins) && #[trigger] crate::kernel::is_read_of(
                    s,
                    m_new.output_states,
                    qoff,
                    qcnt,
                ) implies #[trigger] crate::kernel::comp_result_matches(m0, cq, ins, s) by {
                assert(crate::kernel::is_read_of(s, pre_os, qoff, qcnt)) by {
                    assert forall|j: u32| j < 256 implies crate::logic::ls_bit(s, j)
                        == crate::kernel::slice_bit(pre_os, qoff, qcnt, j) by {
                        if j < 32 * qcnt {
                            assert(new_os[qoff + j as int / 32] == pre_os[qoff + j as int / 32]);
                        }
                        assert(crate::logic::ls_bit(s, j) == crate::kernel::slice_bit(
                            new_os,
                            qoff,
                            qcnt,
                            j,
                        ));
                    }
                }
                assert(crate::kernel::is_read_of(
                    s,
                    m_pre.output_states,
                    comp_output(cq).state_offset.value as int,
                    atoms_of_width(comp_output(cq).width as int),
                ));
                assert(crate::kernel::comp_slice_ok(m0, m_pre, cq));
            }
        } else {
            assert forall|ins: Seq<crate::logic::LogicState>, s: crate::logic::LogicState|
                crate::kernel::inputs_read(m0, cq, ins) && #[trigger] crate::kernel::is_read_of(
                    s,
                    m_new.output_states,
                    qoff,
                    qcnt,
                ) implies #[trigger] crate::kernel::comp_result_matches(m0, cq, ins, s) by {
                assert(s == value) by {
                    assert forall|j: u32| j < 256 implies crate::logic::ls_bit(s, j)
                        == crate::logic::ls_bit(value, j) by {
                        assert(crate::logic::ls_bit(s, j) == crate::kernel::slice_bit(
                            new_os,
                            qoff,
                            qcnt,
                            j,
                        ));
                        if j < 32 * qcnt {
                            let ai = j as int / 32;
                            assert(0 <= ai < qcnt) by (nonlinear_arith)
                                requires
                                    j < 32 * qcnt,
                                    ai == j as int / 32,
                                    0 <= j,
                            ;
                            assert(new_os[qoff + ai] == value.0[ai]);
                            assert(crate::logic::ls_bit(value, j) == crate::logic::atom_bit(
                                value.0[ai],
                                j % 32,
                            ));
                        } else {
                            assert(crate::kernel::comp_result_matches(m0, cq, ins, value));
                            assert(crate::kernel::masked_above(
                                value,
                                comp_output(cq).width as int,
                            ));
                            assert(32 * qcnt >= comp_output(cq).width) by (nonlinear_arith)
                                requires
                                    qcnt == ((comp_output(cq).width as int) + 31) / 32,
                                    1 <= comp_output(cq).width <= 256,
                            ;
                            assert(crate::logic::ls_bit(value, j) == (
                            crate::logic::LogicBitState::HighZ));
                        }
                    }
                    crate::logic::lemma_ls_bit_ext(s, value);
                }
                assert(crate::kernel::comp_result_matches(m0, cq, ins, value));
            }
        }
    }
    assert forall|p: int| 0 <= p < new_os.len() && !os_covered_upto(m0, p, i + 1) implies new_os[p]
        == m0.output_states[p] by {
        assert(!(off <= p < off + cnt));
        assert(!os_covered_upto(m0, p, i));
    }
}

/// The result of running a simulation.
#[derive(Debug, Clone)]
pub enum SimulationRunResult {
    /// The simulation settled
    Settled,
    /// The simulation did not settle within the maximum allowed steps
    MaxStepsReached,
    /// The simulation found conflicting drivers
    Conflict {
        /// A list of wires that had more than one driver
        conflicting_wires: Vec<WireId>,
    },
}

/// Whether `ids` spells out the wire indices of `cl`.
pub open spec fn ids_of(ids: Seq<WireId>, cl: Seq<u32>) -> bool {
    ids.len() == cl.len() && forall|k: int| 0 <= k < ids.len() ==> (#[trigger] ids[k]).0.value
        == cl[k]
}

/// What `run` does with `fuel` inner passes left on the model `m0`: sweeps
/// until a conflict is reported, the state settles, or the budget runs out.
pub open spec fn run_rel(m0: SimModel, fuel: nat, r: SimulationRunResult, mf: SimModel) -> bool
    decreases fuel,
{
    if fuel == 0 {
        r is MaxStepsReached && mf == m0
    } else {
        exists|m2: SimModel, wc: bool, cc: bool|
            {
                &&& #[trigger] crate::kernel::sweep_post(m0, m2, wc, cc)
                &&& if crate::kernel::conflict_list(m0).len() > 0 {
                    &&& r is Conflict
                    &&& ids_of(r->Conflict_conflicting_wires@, crate::kernel::conflict_list(m0))
                    &&& mf == m2
                } else if !wc && !cc {
                    r is Settled && mf == m2
                } else {
                    run_rel(m2, (fuel - 1) as nat, r, mf)
                }
            }
    }
}

impl Simulator {
    /// One inner sweep: the wire pass, then the component pass.
    fn sweep(&mut self) -> (r: (bool, bool, Vec<WireId>))
        requires
            old(self).wf(),
        ensures
            final(self).wf(),
            crate::kernel::sweep_post(old(self)@, final(self)@, r.0, r.1),
            ids_of(r.2@, crate::kernel::conflict_list(old(self)@)),
    {
        let wp = self.wire_pass();
        let ghost m1 = self@;
        let cc = self.component_pass();
        proof {
            assert(crate::kernel::wire_pass_post(old(self)@, m1));
            assert(crate::kernel::comp_pass_post(m1, self@));
        }
        (wp.0, cc, wp.1)
    }

    /// Runs the simulation for at most `max_steps` inner passes.
    ///
    /// Each pass merges every wire and re-evaluates every component. The
    /// run stops with an error carrying the conflicting wires as soon as a
    /// pass reports a bus conflict, settles successfully when a whole pass
    /// changes nothing, and otherwise gives up when the budget is spent.
    pub fn run(&mut self, max_steps: u64) -> (r: SimulationRunResult)
        requires
            old(self).wf(),
        ensures
            final(self).wf(),
            run_rel(old(self)@, max_steps as nat, r, final(self)@),
    {
        let ghost m_orig = self@;
        let mut steps: u64 = max_steps;
        while steps > 0
            invariant
                self.wf(),
                m_orig == old(self)@,
                steps <= max_steps,
                forall|r2: SimulationRunResult, mf: SimModel|
                    #[trigger] run_rel(self@, steps as nat, r2, mf) ==> run_rel(
                        m_orig,
                        max_steps as nat,
                        r2,
                        mf,
                    ),
            decreases steps,
        {
            let ghost m_pre = self@;
            let (wc, cc, conflicts) = self.sweep();
            let ghost m2 = self@;
            if conflicts.len() > 0 {
                let r = SimulationRunResult::Conflict { conflicting_wires: conflicts };
                proof {
                    assert(crate::kernel::conflict_list(m_pre).len() > 0);
                    assert(run_rel(m_pre, steps as nat, r, m2));
                }
                return r;
            }
            if !wc && !cc {
                proof {
                    assert(crate::kernel::conflict_list(m_pre).len() == 0);
                    assert(run_rel(m_pre, steps as nat, SimulationRunResult::Settled, m2));
                }
                return SimulationRunResult::Settled;
            }
            proof {
                assert forall|r2: SimulationRunResult, mf: SimModel|
                    #[trigger] run_rel(m2, (steps - 1) as nat, r2, mf) implies run_rel(
                    m_orig,
                    max_steps as nat,
                    r2,
                    mf,
                ) by {
                    assert(crate::kernel::conflict_list(m_pre).len() == 0);
                    assert(run_rel(m_pre, steps as nat, r2, mf));
                }
            }
            steps = steps - 1;
        }
        proof {
            assert(run_rel(self@, 0, SimulationRunResult::MaxStepsReached, self@));
        }
        SimulationRunResult::MaxStepsReached
    }
}

/// Determinism: from one starting state and budget, any two runs reach the
/// same state, the same verdict, and the same conflict list.
pub proof fn lemma_run_deterministic(
    m0: SimModel,
    fuel: nat,
    r1: SimulationRunResult,
    mf1: SimModel,
    r2: SimulationRunResult,
    mf2: SimModel,
)
    requires
        model_wf(m0),
        run_rel(m0, fuel, r1, mf1),
        run_rel(m0, fuel, r2, mf2),
    ensures
        mf1 == mf2,
        r1 is Settled <==> r2 is Settled,
        r1 is MaxStepsReached <==> r2 is MaxStepsReached,
        r1 is Conflict <==> r2 is Conflict,
        r1 is Conflict ==> r1->Conflict_conflicting_wires@.len()
            == r2->Conflict_conflicting_wires@.len() && (forall|k: int|
            0 <= k < r1->Conflict_conflicting_wires@.len()
                ==> (#[trigger] r1->Conflict_conflicting_wires@[k]).0.value
                == r2->Conflict_conflicting_wires@[k].0.value),
    decreases fuel,
{
    if fuel == 0 {
    } else {
        let (m2a, wca, cca) = choose|m2: SimModel, wc: bool, cc: bool|
            {
                &&& #[trigger] crate::kernel::sweep_post(m0, m2, wc, cc)
                &&& if crate::kernel::conflict_list(m0).len() > 0 {
                    r1 is Conflict && ids_of(
                        r1->Conflict_conflicting_wires@,
                        crate::kernel::conflict_list(m0),
                    ) && mf1 == m2
                } else if !wc && !cc {
                    r1 is Settled && mf1 == m2
                } else {
                    run_rel(m2, (fuel - 1) as nat, r1, mf1)
                }
            };
        let (m2b, wcb, ccb) = choose|m2: SimModel, wc: bool, cc: bool|
            {
                &&& #[trigger] crate::kernel::sweep_post(m0, m2, wc, cc)
                &&& if crate::kernel::conflict_list(m0).len() > 0 {
                    r2 is Conflict && ids_of(
                        r2->Conflict_conflicting_wires@,
                        crate::kernel::conflict_list(m0),
                    ) && mf2 == m2
                } else if !wc && !cc {
                    r2 is Settled && mf2 == m2
                } else {
                    run_rel(m2, (fuel - 1) as nat, r2, mf2)
                }
            };
        crate::kernel::lemma_sweep_unique(m0, m2a, wca, cca, m2b, wcb, ccb);
        if crate::kernel::conflict_list(m0).len() > 0 {
        } else if !wca && !cca {
        } else {
            let m1 = choose|m1: SimModel|
                {
                    &&& #[trigger] crate::kernel::wire_pass_post(m0, m1)
                    &&& crate::kernel::comp_pass_post(m1, m2a)
                    &&& wca == (m1.wire_states != m0.wire_states)
                    &&& cca == (m2a.output_states != m1.output_states)
                };
            crate::kernel::lemma_wf_pass(m0, m1);
            crate::kernel::lemma_wf_pass(m1, m2a);
            lemma_run_deterministic(m2a, (fuel - 1) as nat, r1, mf1, r2, mf2);
        }
    }
}

/// Fixed point: once a run settles, any later run on the unchanged state
/// settles at the very first pass without changing anything.
pub proof fn lemma_fixed_point(
    m0: SimModel,
    fuel: nat,
    r: SimulationRunResult,
    mf: SimModel,
    fuel2: nat,
)
    requires
        model_wf(m0),
        run_rel(m0, fuel, r, mf),
        r is Settled,
        fuel2 >= 1,
    ensures
        run_rel(mf, fuel2, SimulationRunResult::Settled, mf),
    decreases fuel,
{
    let (m2, wc, cc) = choose|m2: SimModel, wc: bool, cc: bool|
        {
            &&& #[trigger] crate::kernel::sweep_post(m0, m2, wc, cc)
            &&& if crate::kernel::conflict_list(m0).len() > 0 {
                r is Conflict && ids_of(
                    r->Conflict_conflicting_wires@,
                    crate::kernel::conflict_list(m0),
                ) && mf == m2
            } else if !wc && !cc {
                r is Settled && mf == m2
            } else {
                run_rel(m2, (fuel - 1) as nat, r, mf)
            }
        };
    let m1 = choose|m1: SimModel|
        {
            &&& #[trigger] crate::kernel::wire_pass_post(m0, m1)
            &&& crate::kernel::comp_pass_post(m1, m2)
            &&& wc == (m1.wire_states != m0.wire_states)
            &&& cc == (m2.output_states != m1.output_states)
        };
    if crate::kernel::conflict_list(m0).len() > 0 {
    } else if !wc && !cc {
        assert(m1.wire_states == m0.wire_states);
        assert(m1 == m0);
        assert(m2.output_states == m1.output_states);
        assert(m2 == m1);
        assert(mf == m0);
        assert(crate::kernel::sweep_post(mf, mf, false, false));
        assert(run_rel(mf, fuel2, SimulationRunResult::Settled, mf)) by {
            assert(crate::kernel::conflict_list(mf).len() == 0);
        }
    } else {
        crate::kernel::lemma_wf_pass(m0, m1);
        crate::kernel::lemma_wf_pass(m1, m2);
        lemma_fixed_point(m2, (fuel - 1) as nat, r, mf, fuel2);
    }
}

} // verus!
