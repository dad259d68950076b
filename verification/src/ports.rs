//! The builder-facing port structs: one small type per component kind,
//! naming the wires a new component connects to.

use crate::graph::ComponentKind;
use crate::kernel::min_inputs_of;
use crate::WireId;
use vstd::prelude::*;

verus! {

/// What a port struct tells the builder: the kind of the new component, the
/// wires feeding its inputs in order, and the wire its output drives.
pub trait ComponentPorts {
    /// The component kind this port set builds.
    spec fn spec_kind(&self) -> ComponentKind;

    /// The input wires, in the order the component reads them.
    spec fn spec_inputs(&self) -> Seq<WireId>;

    /// The output wire.
    spec fn spec_output(&self) -> WireId;

    /// The component kind this port set builds.
    fn kind(&self) -> (k: ComponentKind)
        ensures
            k == self.spec_kind(),
            min_inputs_of(k) <= self.spec_inputs().len(),
    ;

    /// The input wires, in the order the component reads them.
    fn input_wires(&self) -> (v: Vec<WireId>)
        ensures
            v@ == self.spec_inputs(),
    ;

    /// The output wire.
    fn output_wire(&self) -> (w: WireId)
        ensures
            w == self.spec_output(),
    ;
}

/// Ports of a wide AND gate: any number of input wires and one
/// output wire.
#[derive(Debug, Clone)]
pub struct AndGatePorts<'a> {
    pub inputs: &'a [WireId],
    pub output: WireId,
}

impl<'a> ComponentPorts for AndGatePorts<'a> {
    open spec fn spec_kind(&self) -> ComponentKind {
        ComponentKind::And
    }

    open spec fn spec_inputs(&self) -> Seq<WireId> {
        self.inputs@
    }

    open spec fn spec_output(&self) -> WireId {
        self.output
    }

    fn kind(&self) -> ComponentKind {
        ComponentKind::And
    }

    fn input_wires(&self) -> Vec<WireId> {
        vstd::slice::slice_to_vec(self.inputs)
    }

    fn output_wire(&self) -> WireId {
        self.output
    }
}

/// Ports of a wide OR gate: any number of input wires and one
/// output wire.
#[derive(Debug, Clone)]
pub struct OrGatePorts<'a> {
    pub inputs: &'a [WireId],
    pub output: WireId,
}

impl<'a> ComponentPorts for OrGatePorts<'a> {
    open spec fn spec_kind(&self) -> ComponentKind {
        ComponentKind::Or
    }

    open spec fn spec_inputs(&self) -> Seq<WireId> {
        self.inputs@
    }

    open spec fn spec_output(&self) -> WireId {
        self.output
    }

    fn kind(&self) -> ComponentKind {
        ComponentKind::Or
    }

    fn input_wires(&self) -> Vec<WireId> {
        vstd::slice::slice_to_vec(self.inputs)
    }

    fn output_wire(&self) -> WireId {
        self.output
    }
}

/// Ports of a wide XOR gate: any number of input wires and one
/// output wire.
#[derive(Debug, Clone)]
pub struct XorGatePorts<'a> {
    pub inputs: &'a [WireId],
    pub output: WireId,
}

impl<'a> ComponentPorts for XorGatePorts<'a> {
    open spec fn spec_kind(&self) -> ComponentKind {
        ComponentKind::Xor
    }

    open spec fn spec_inputs(&self) -> Seq<WireId> {
        self.inputs@
    }

    open spec fn spec_output(&self) -> WireId {
        self.output
    }

    fn kind(&self) -> ComponentKind {
        ComponentKind::Xor
    }

    fn input_wires(&self) -> Vec<WireId> {
        vstd::slice::slice_to_vec(self.inputs)
    }

    fn output_wire(&self) -> WireId {
        self.output
    }
}

/// Ports of a wide NAND gate: any number of input wires and one
/// output wire.
#[derive(Debug, Clone)]
pub struct NandGatePorts<'a> {
    pub inputs: &'a [WireId],
    pub output: WireId,
}

impl<'a> ComponentPorts for NandGatePorts<'a> {
    open spec fn spec_kind(&self) -> ComponentKind {
        ComponentKind::Nand
    }

    open spec fn spec_inputs(&self) -> Seq<WireId> {
        self.inputs@
    }

    open spec fn spec_output(&self) -> WireId {
        self.output
    }

    fn kind(&self) -> ComponentKind {
        ComponentKind::Nand
    }

    fn input_wires(&self) -> Vec<WireId> {
        vstd::slice::slice_to_vec(self.inputs)
    }

    fn output_wire(&self) -> WireId {
        self.output
    }
}

/// Ports of a wide NOR gate: any number of input wires and one
/// output wire.
#[derive(Debug, Clone)]
pub struct NorGatePorts<'a> {
    pub inputs: &'a [WireId],
    pub output: WireId,
}

impl<'a> ComponentPorts for NorGatePorts<'a> {
    open spec fn spec_kind(&self) -> ComponentKind {
        ComponentKind::Nor
    }

    open spec fn spec_inputs(&self) -> Seq<WireId> {
        self.inputs@
    }

    open spec fn spec_output(&self) -> WireId {
        self.output
    }

    fn kind(&self) -> ComponentKind {
        ComponentKind::Nor
    }

    fn input_wires(&self) -> Vec<WireId> {
        vstd::slice::slice_to_vec(self.inputs)
    }

    fn output_wire(&self) -> WireId {
        self.output
    }
}

/// Ports of a wide XNOR gate: any number of input wires and one
/// output wire.
#[derive(Debug, Clone)]
pub struct XnorGatePorts<'a> {
    pub inputs: &'a [WireId],
    pub output: WireId,
}

impl<'a> ComponentPorts for XnorGatePorts<'a> {
    open spec fn spec_kind(&self) -> ComponentKind {
        ComponentKind::Xnor
    }

    open spec fn spec_inputs(&self) -> Seq<WireId> {
        self.inputs@
    }

    open spec fn spec_output(&self) -> WireId {
        self.output
    }

    fn kind(&self) -> ComponentKind {
        ComponentKind::Xnor
    }

    fn input_wires(&self) -> Vec<WireId> {
        vstd::slice::slice_to_vec(self.inputs)
    }

    fn output_wire(&self) -> WireId {
        self.output
    }
}

/// Ports of a horizontal AND reduction: one input wire and one output wire.
#[derive(Debug, Clone)]
pub struct HorizontalAndGatePorts {
    pub input: WireId,
    pub output: WireId,
}

impl ComponentPorts for HorizontalAndGatePorts {
    open spec fn spec_kind(&self) -> ComponentKind {
        ComponentKind::HAnd
    }

    open spec fn spec_inputs(&self) -> Seq<WireId> {
        seq![self.input]
    }

    open spec fn spec_output(&self) -> WireId {
        self.output
    }

    fn kind(&self) -> ComponentKind {
        ComponentKind::HAnd
    }

    fn input_wires(&self) -> (v: Vec<WireId>)
        ensures
            v@ == self.spec_inputs(),
    {
        let mut v: Vec<WireId> = Vec::new();
        v.push(self.input);
        proof {
            assert(v@ =~= seq![self.input]);
        }
        v
    }

    fn output_wire(&self) -> WireId {
        self.output
    }
}

/// Ports of a horizontal OR reduction: one input wire and one output wire.
#[derive(Debug, Clone)]
pub struct HorizontalOrGatePorts {
    pub input: WireId,
    pub output: WireId,
}

impl ComponentPorts for HorizontalOrGatePorts {
    open spec fn spec_kind(&self) -> ComponentKind {
        ComponentKind::HOr
    }

    open spec fn spec_inputs(&self) -> Seq<WireId> {
        seq![self.input]
    }

    open spec fn spec_output(&self) -> WireId {
        self.output
    }

    fn kind(&self) -> ComponentKind {
        ComponentKind::HOr
    }

    fn input_wires(&self) -> (v: Vec<WireId>)
        ensures
            v@ == self.spec_inputs(),
    {
        let mut v: Vec<WireId> = Vec::new();
        v.push(self.input);
        proof {
            assert(v@ =~= seq![self.input]);
        }
        v
    }

    fn output_wire(&self) -> WireId {
        self.output
    }
}

/// Ports of a horizontal XOR reduction: one input wire and one output wire.
#[derive(Debug, Clone)]
pub struct HorizontalXorGatePorts {
    pub input: WireId,
    pub output: WireId,
}

impl ComponentPorts for HorizontalXorGatePorts {
    open spec fn spec_kind(&self) -> ComponentKind {
        ComponentKind::HXor
    }

    open spec fn spec_inputs(&self) -> Seq<WireId> {
        seq![self.input]
    }

    open spec fn spec_output(&self) -> WireId {
        self.output
    }

    fn kind(&self) -> ComponentKind {
        ComponentKind::HXor
    }

    fn input_wires(&self) -> (v: Vec<WireId>)
        ensures
            v@ == self.spec_inputs(),
    {
        let mut v: Vec<WireId> = Vec::new();
        v.push(self.input);
        proof {
            assert(v@ =~= seq![self.input]);
        }
        v
    }

    fn output_wire(&self) -> WireId {
        self.output
    }
}

/// Ports of a horizontal NAND reduction: one input wire and one output wire.
#[derive(Debug, Clone)]
pub struct HorizontalNandGatePorts {
    pub input: WireId,
    pub output: WireId,
}

impl ComponentPorts for HorizontalNandGatePorts {
    open spec fn spec_kind(&self) -> ComponentKind {
        ComponentKind::HNand
    }

    open spec fn spec_inputs(&self) -> Seq<WireId> {
        seq![self.input]
    }

    open spec fn spec_output(&self) -> WireId {
        self.output
    }

    fn kind(&self) -> ComponentKind {
        ComponentKind::HNand
    }

    fn input_wires(&self) -> (v: Vec<WireId>)
        ensures
            v@ == self.spec_inputs(),
    {
        let mut v: Vec<WireId> = Vec::new();
        v.push(self.input);
        proof {
            assert(v@ =~= seq![self.input]);
        }
        v
    }

    fn output_wire(&self) -> WireId {
        self.output
    }
}

/// Ports of a horizontal NOR reduction: one input wire and one output wire.
#[derive(Debug, Clone)]
pub struct HorizontalNorGatePorts {
    pub input: WireId,
    pub output: WireId,
}

impl ComponentPorts for HorizontalNorGatePorts {
    open spec fn spec_kind(&self) -> ComponentKind {
        ComponentKind::HNor
    }

    open spec fn spec_inputs(&self) -> Seq<WireId> {
        seq![self.input]
    }

    open spec fn spec_output(&self) -> WireId {
        self.output
    }

    fn kind(&self) -> ComponentKind {
        ComponentKind::HNor
    }

    fn input_wires(&self) -> (v: Vec<WireId>)
        ensures
            v@ == self.spec_inputs(),
    {
        let mut v: Vec<WireId> = Vec::new();
        v.push(self.input);
        proof {
            assert(v@ =~= seq![self.input]);
        }
        v
    }

    fn output_wire(&self) -> WireId {
        self.output
    }
}

/// Ports of a horizontal XNOR reduction: one input wire and one output wire.
#[derive(Debug, Clone)]
pub struct HorizontalXnorGatePorts {
    pub input: WireId,
    pub output: WireId,
}

impl ComponentPorts for HorizontalXnorGatePorts {
    open spec fn spec_kind(&self) -> ComponentKind {
        ComponentKind::HXnor
    }

    open spec fn spec_inputs(&self) -> Seq<WireId> {
        seq![self.input]
    }

    open spec fn spec_output(&self) -> WireId {
        self.output
    }

    fn kind(&self) -> ComponentKind {
        ComponentKind::HXnor
    }

    fn input_wires(&self) -> (v: Vec<WireId>)
        ensures
            v@ == self.spec_inputs(),
    {
        let mut v: Vec<WireId> = Vec::new();
        v.push(self.input);
        proof {
            assert(v@ =~= seq![self.input]);
        }
        v
    }

    fn output_wire(&self) -> WireId {
        self.output
    }
}

/// Ports of a NOT gate: one input wire and one output wire.
#[derive(Debug, Clone)]
pub struct NotGatePorts {
    pub input: WireId,
    pub output: WireId,
}

impl ComponentPorts for NotGatePorts {
    open spec fn spec_kind(&self) -> ComponentKind {
        ComponentKind::Not
    }

    open spec fn spec_inputs(&self) -> Seq<WireId> {
        seq![self.input]
    }

    open spec fn spec_output(&self) -> WireId {
        self.output
    }

    fn kind(&self) -> ComponentKind {
        ComponentKind::Not
    }

    fn input_wires(&self) -> (v: Vec<WireId>)
        ensures
            v@ == self.spec_inputs(),
    {
        let mut v: Vec<WireId> = Vec::new();
        v.push(self.input);
        proof {
            assert(v@ =~= seq![self.input]);
        }
        v
    }

    fn output_wire(&self) -> WireId {
        self.output
    }
}

/// Ports of a two's-complement negation: one input wire and one output wire.
#[derive(Debug, Clone)]
pub struct NegatePorts {
    pub input: WireId,
    pub output: WireId,
}

impl ComponentPorts for NegatePorts {
    open spec fn spec_kind(&self) -> ComponentKind {
        ComponentKind::Neg
    }

    open spec fn spec_inputs(&self) -> Seq<WireId> {
        seq![self.input]
    }

    open spec fn spec_output(&self) -> WireId {
        self.output
    }

    fn kind(&self) -> ComponentKind {
        ComponentKind::Neg
    }

    fn input_wires(&self) -> (v: Vec<WireId>)
        ensures
            v@ == self.spec_inputs(),
    {
        let mut v: Vec<WireId> = Vec::new();
        v.push(self.input);
        proof {
            assert(v@ =~= seq![self.input]);
        }
        v
    }

    fn output_wire(&self) -> WireId {
        self.output
    }
}

/// Ports of a tri-state buffer: the data input, the enable wire and the
/// output wire.
#[derive(Debug, Clone)]
pub struct BufferPorts {
    pub input: WireId,
    pub enable: WireId,
    pub output: WireId,
}

impl ComponentPorts for BufferPorts {
    open spec fn spec_kind(&self) -> ComponentKind {
        ComponentKind::Buffer
    }

    open spec fn spec_inputs(&self) -> Seq<WireId> {
        seq![self.input, self.enable]
    }

    open spec fn spec_output(&self) -> WireId {
        self.output
    }

    fn kind(&self) -> ComponentKind {
        ComponentKind::Buffer
    }

    fn input_wires(&self) -> (v: Vec<WireId>)
        ensures
            v@ == self.spec_inputs(),
    {
        let mut v: Vec<WireId> = Vec::new();
        v.push(self.input);
        v.push(self.enable);
        proof {
            assert(v@ =~= seq![self.input, self.enable]);
        }
        v
    }

    fn output_wire(&self) -> WireId {
        self.output
    }
}

/// Ports of a arithmetic or shift component of kind Add: the left and right input
/// wires and the output wire.
#[derive(Debug, Clone)]
pub struct AddPorts {
    pub input_lhs: WireId,
    pub input_rhs: WireId,
    pub output: WireId,
}

impl ComponentPorts for AddPorts {
    open spec fn spec_kind(&self) -> ComponentKind {
        ComponentKind::Add
    }

    open spec fn spec_inputs(&self) -> Seq<WireId> {
        seq![self.input_lhs, self.input_rhs]
    }

    open spec fn spec_output(&self) -> WireId {
        self.output
    }

    fn kind(&self) -> ComponentKind {
        ComponentKind::Add
    }

    fn input_wires(&self) -> (v: Vec<WireId>)
        ensures
            v@ == self.spec_inputs(),
    {
        let mut v: Vec<WireId> = Vec::new();
        v.push(self.input_lhs);
        v.push(self.input_rhs);
        proof {
            assert(v@ =~= seq![self.input_lhs, self.input_rhs]);
        }
        v
    }

    fn output_wire(&self) -> WireId {
        self.output
    }
}

/// Ports of a arithmetic or shift component of kind Sub: the left and right input
/// wires and the output wire.
#[derive(Debug, Clone)]
pub struct SubtractPorts {
    pub input_lhs: WireId,
    pub input_rhs: WireId,
    pub output: WireId,
}

impl ComponentPorts for SubtractPorts {
    open spec fn spec_kind(&self) -> ComponentKind {
        ComponentKind::Sub
    }

    open spec fn spec_inputs(&self) -> Seq<WireId> {
        seq![self.input_lhs, self.input_rhs]
    }

    open spec fn spec_output(&self) -> WireId {
        self.output
    }

    fn kind(&self) -> ComponentKind {
        ComponentKind::Sub
    }

    fn input_wires(&self) -> (v: Vec<WireId>)
        ensures
            v@ == self.spec_inputs(),
    {
        let mut v: Vec<WireId> = Vec::new();
        v.push(self.input_lhs);
        v.push(self.input_rhs);
        proof {
            assert(v@ =~= seq![self.input_lhs, self.input_rhs]);
        }
        v
    }

    fn output_wire(&self) -> WireId {
        self.output
    }
}

/// Ports of a arithmetic or shift component of kind Lsh: the left and right input
/// wires and the output wire.
#[derive(Debug, Clone)]
pub struct LeftShiftPorts {
    pub input_lhs: WireId,
    pub input_rhs: WireId,
    pub output: WireId,
}

impl ComponentPorts for LeftShiftPorts {
    open spec fn spec_kind(&self) -> ComponentKind {
        ComponentKind::Lsh
    }

    open spec fn spec_inputs(&self) -> Seq<WireId> {
        seq![self.input_lhs, self.input_rhs]
    }

    open spec fn spec_output(&self) -> WireId {
        self.output
    }

    fn kind(&self) -> ComponentKind {
        ComponentKind::Lsh
    }

    fn input_wires(&self) -> (v: Vec<WireId>)
        ensures
            v@ == self.spec_inputs(),
    {
        let mut v: Vec<WireId> = Vec::new();
        v.push(self.input_lhs);
        v.push(self.input_rhs);
        proof {
            assert(v@ =~= seq![self.input_lhs, self.input_rhs]);
        }
        v
    }

    fn output_wire(&self) -> WireId {
        self.output
    }
}

/// Ports of a arithmetic or shift component of kind LRsh: the left and right input
/// wires and the output wire.
#[derive(Debug, Clone)]
pub struct LogicalRightShiftPorts {
    pub input_lhs: WireId,
    pub input_rhs: WireId,
    pub output: WireId,
}

impl ComponentPorts for LogicalRightShiftPorts {
    open spec fn spec_kind(&self) -> ComponentKind {
        ComponentKind::LRsh
    }

    open spec fn spec_inputs(&self) -> Seq<WireId> {
        seq![self.input_lhs, self.input_rhs]
    }

    open spec fn spec_output(&self) -> WireId {
        self.output
    }

    fn kind(&self) -> ComponentKind {
        ComponentKind::LRsh
    }

    fn input_wires(&self) -> (v: Vec<WireId>)
        ensures
            v@ == self.spec_inputs(),
    {
        let mut v: Vec<WireId> = Vec::new();
        v.push(self.input_lhs);
        v.push(self.input_rhs);
        proof {
            assert(v@ =~= seq![self.input_lhs, self.input_rhs]);
        }
        v
    }

    fn output_wire(&self) -> WireId {
        self.output
    }
}

/// Ports of a arithmetic or shift component of kind ARsh: the left and right input
/// wires and the output wire.
#[derive(Debug, Clone)]
pub struct ArithmeticRightShiftPorts {
    pub input_lhs: WireId,
    pub input_rhs: WireId,
    pub output: WireId,
}

impl ComponentPorts for ArithmeticRightShiftPorts {
    open spec fn spec_kind(&self) -> ComponentKind {
        ComponentKind::ARsh
    }

    open spec fn spec_inputs(&self) -> Seq<WireId> {
        seq![self.input_lhs, self.input_rhs]
    }

    open spec fn spec_output(&self) -> WireId {
        self.output
    }

    fn kind(&self) -> ComponentKind {
        ComponentKind::ARsh
    }

    fn input_wires(&self) -> (v: Vec<WireId>)
        ensures
            v@ == self.spec_inputs(),
    {
        let mut v: Vec<WireId> = Vec::new();
        v.push(self.input_lhs);
        v.push(self.input_rhs);
        proof {
            assert(v@ =~= seq![self.input_lhs, self.input_rhs]);
        }
        v
    }

    fn output_wire(&self) -> WireId {
        self.output
    }
}

/// Ports of a comparison component of kind CmpEq: the left and right input
/// wires and the output wire.
#[derive(Debug, Clone)]
pub struct CompareEqual {
    pub input_lhs: WireId,
    pub input_rhs: WireId,
    pub output: WireId,
}

impl ComponentPorts for CompareEqual {
    open spec fn spec_kind(&self) -> ComponentKind {
        ComponentKind::CmpEq
    }

    open spec fn spec_inputs(&self) -> Seq<WireId> {
        seq![self.input_lhs, self.input_rhs]
    }

    open spec fn spec_output(&self) -> WireId {
        self.output
    }

    fn kind(&self) -> ComponentKind {
        ComponentKind::CmpEq
    }

    fn input_wires(&self) -> (v: Vec<WireId>)
        ensures
            v@ == self.spec_inputs(),
    {
        let mut v: Vec<WireId> = Vec::new();
        v.push(self.input_lhs);
        v.push(self.input_rhs);
        proof {
            assert(v@ =~= seq![self.input_lhs, self.input_rhs]);
        }
        v
    }

    fn output_wire(&self) -> WireId {
        self.output
    }
}

/// Ports of a comparison component of kind CmpNe: the left and right input
/// wires and the output wire.
#[derive(Debug, Clone)]
pub struct CompareNotEqual {
    pub input_lhs: WireId,
    pub input_rhs: WireId,
    pub output: WireId,
}

impl ComponentPorts for CompareNotEqual {
    open spec fn spec_kind(&self) -> ComponentKind {
        ComponentKind::CmpNe
    }

    open spec fn spec_inputs(&self) -> Seq<WireId> {
        seq![self.input_lhs, self.input_rhs]
    }

    open spec fn spec_output(&self) -> WireId {
        self.output
    }

    fn kind(&self) -> ComponentKind {
        ComponentKind::CmpNe
    }

    fn input_wires(&self) -> (v: Vec<WireId>)
        ensures
            v@ == self.spec_inputs(),
    {
        let mut v: Vec<WireId> = Vec::new();
        v.push(self.input_lhs);
        v.push(self.input_rhs);
        proof {
            assert(v@ =~= seq![self.input_lhs, self.input_rhs]);
        }
        v
    }

    fn output_wire(&self) -> WireId {
        self.output
    }
}

/// Ports of a comparison component of kind CmpUlt: the left and right input
/// wires and the output wire.
#[derive(Debug, Clone)]
pub struct CompareUnsignedLessThan {
    pub input_lhs: WireId,
    pub input_rhs: WireId,
    pub output: WireId,
}

impl ComponentPorts for CompareUnsignedLessThan {
    open spec fn spec_kind(&self) -> ComponentKind {
        ComponentKind::CmpUlt
    }

    open spec fn spec_inputs(&self) -> Seq<WireId> {
        seq![self.input_lhs, self.input_rhs]
    }

    open spec fn spec_output(&self) -> WireId {
        self.output
    }

    fn kind(&self) -> ComponentKind {
        ComponentKind::CmpUlt
    }

    fn input_wires(&self) -> (v: Vec<WireId>)
        ensures
            v@ == self.spec_inputs(),
    {
        let mut v: Vec<WireId> = Vec::new();
        v.push(self.input_lhs);
        v.push(self.input_rhs);
        proof {
            assert(v@ =~= seq![self.input_lhs, self.input_rhs]);
        }
        v
    }

    fn output_wire(&self) -> WireId {
        self.output
    }
}

/// Ports of a comparison component of kind CmpUgt: the left and right input
/// wires and the output wire.
#[derive(Debug, Clone)]
pub struct CompareUnsignedGreaterThan {
    pub input_lhs: WireId,
    pub input_rhs: WireId,
    pub output: WireId,
}

impl ComponentPorts for CompareUnsignedGreaterThan {
    open spec fn spec_kind(&self) -> ComponentKind {
        ComponentKind::CmpUgt
    }

    open spec fn spec_inputs(&self) -> Seq<WireId> {
        seq![self.input_lhs, self.input_rhs]
    }

    open spec fn spec_output(&self) -> WireId {
        self.output
    }

    fn kind(&self) -> ComponentKind {
        ComponentKind::CmpUgt
    }

    fn input_wires(&self) -> (v: Vec<WireId>)
        ensures
            v@ == self.spec_inputs(),
    {
        let mut v: Vec<WireId> = Vec::new();
        v.push(self.input_lhs);
        v.push(self.input_rhs);
        proof {
            assert(v@ =~= seq![self.input_lhs, self.input_rhs]);
        }
        v
    }

    fn output_wire(&self) -> WireId {
        self.output
    }
}

/// Ports of a comparison component of kind CmpUle: the left and right input
/// wires and the output wire.
#[derive(Debug, Clone)]
pub struct CompareUnsignedLessThanOrEqual {
    pub input_lhs: WireId,
    pub input_rhs: WireId,
    pub output: WireId,
}

impl ComponentPorts for CompareUnsignedLessThanOrEqual {
    open spec fn spec_kind(&self) -> ComponentKind {
        ComponentKind::CmpUle
    }

    open spec fn spec_inputs(&self) -> Seq<WireId> {
        seq![self.input_lhs, self.input_rhs]
    }

    open spec fn spec_output(&self) -> WireId {
        self.output
    }

    fn kind(&self) -> ComponentKind {
        ComponentKind::CmpUle
    }

    fn input_wires(&self) -> (v: Vec<WireId>)
        ensures
            v@ == self.spec_inputs(),
    {
        let mut v: Vec<WireId> = Vec::new();
        v.push(self.input_lhs);
        v.push(self.input_rhs);
        proof {
            assert(v@ =~= seq![self.input_lhs, self.input_rhs]);
        }
        v
    }

    fn output_wire(&self) -> WireId {
        self.output
    }
}

/// Ports of a comparison component of kind CmpUge: the left and right input
/// wires and the output wire.
#[derive(Debug, Clone)]
pub struct CompareUnsignedGreaterThanEqual {
    pub input_lhs: WireId,
    pub input_rhs: WireId,
    pub output: WireId,
}

impl ComponentPorts for CompareUnsignedGreaterThanEqual {
    open spec fn spec_kind(&self) -> ComponentKind {
        ComponentKind::CmpUge
    }

    open spec fn spec_inputs(&self) -> Seq<WireId> {
        seq![self.input_lhs, self.input_rhs]
    }

    open spec fn spec_output(&self) -> WireId {
        self.output
    }

    fn kind(&self) -> ComponentKind {
        ComponentKind::CmpUge
    }

    fn input_wires(&self) -> (v: Vec<WireId>)
        ensures
            v@ == self.spec_inputs(),
    {
        let mut v: Vec<WireId> = Vec::new();
        v.push(self.input_lhs);
        v.push(self.input_rhs);
        proof {
            assert(v@ =~= seq![self.input_lhs, self.input_rhs]);
        }
        v
    }

    fn output_wire(&self) -> WireId {
        self.output
    }
}

/// Ports of a comparison component of kind CmpSlt: the left and right input
/// wires and the output wire.
#[derive(Debug, Clone)]
pub struct CompareSignedLessThan {
    pub input_lhs: WireId,
    pub input_rhs: WireId,
    pub output: WireId,
}

impl ComponentPorts for CompareSignedLessThan {
    open spec fn spec_kind(&self) -> ComponentKind {
        ComponentKind::CmpSlt
    }

    open spec fn spec_inputs(&self) -> Seq<WireId> {
        seq![self.input_lhs, self.input_rhs]
    }

    open spec fn spec_output(&self) -> WireId {
        self.output
    }

    fn kind(&self) -> ComponentKind {
        ComponentKind::CmpSlt
    }

    fn input_wires(&self) -> (v: Vec<WireId>)
        ensures
            v@ == self.spec_inputs(),
    {
        let mut v: Vec<WireId> = Vec::new();
        v.push(self.input_lhs);
        v.push(self.input_rhs);
        proof {
            assert(v@ =~= seq![self.input_lhs, self.input_rhs]);
        }
        v
    }

    fn output_wire(&self) -> WireId {
        self.output
    }
}

/// Ports of a comparison component of kind CmpSgt: the left and right input
/// wires and the output wire.
#[derive(Debug, Clone)]
pub struct CompareSignedGreaterThan {
    pub input_lhs: WireId,
    pub input_rhs: WireId,
    pub output: WireId,
}

impl ComponentPorts for CompareSignedGreaterThan {
    open spec fn spec_kind(&self) -> ComponentKind {
        ComponentKind::CmpSgt
    }

    open spec fn spec_inputs(&self) -> Seq<WireId> {
        seq![self.input_lhs, self.input_rhs]
    }

    open spec fn spec_output(&self) -> WireId {
        self.output
    }

    fn kind(&self) -> ComponentKind {
        ComponentKind::CmpSgt
    }

    fn input_wires(&self) -> (v: Vec<WireId>)
        ensures
            v@ == self.spec_inputs(),
    {
        let mut v: Vec<WireId> = Vec::new();
        v.push(self.input_lhs);
        v.push(self.input_rhs);
        proof {
            assert(v@ =~= seq![self.input_lhs, self.input_rhs]);
        }
        v
    }

    fn output_wire(&self) -> WireId {
        self.output
    }
}

/// Ports of a comparison component of kind CmpSle: the left and right input
/// wires and the output wire.
#[derive(Debug, Clone)]
pub struct CompareSignedLessThanOrEqual {
    pub input_lhs: WireId,
    pub input_rhs: WireId,
    pub output: WireId,
}

impl ComponentPorts for CompareSignedLessThanOrEqual {
    open spec fn spec_kind(&self) -> ComponentKind {
        ComponentKind::CmpSle
    }

    open spec fn spec_inputs(&self) -> Seq<WireId> {
        seq![self.input_lhs, self.input_rhs]
    }

    open spec fn spec_output(&self) -> WireId {
        self.output
    }

    fn kind(&self) -> ComponentKind {
        ComponentKind::CmpSle
    }

    fn input_wires(&self) -> (v: Vec<WireId>)
        ensures
            v@ == self.spec_inputs(),
    {
        let mut v: Vec<WireId> = Vec::new();
        v.push(self.input_lhs);
        v.push(self.input_rhs);
        proof {
            assert(v@ =~= seq![self.input_lhs, self.input_rhs]);
        }
        v
    }

    fn output_wire(&self) -> WireId {
        self.output
    }
}

/// Ports of a comparison component of kind CmpSge: the left and right input
/// wires and the output wire.
#[derive(Debug, Clone)]
pub struct CompareSignedGreaterThanEqual {
    pub input_lhs: WireId,
    pub input_rhs: WireId,
    pub output: WireId,
}

impl ComponentPorts for CompareSignedGreaterThanEqual {
    open spec fn spec_kind(&self) -> ComponentKind {
        ComponentKind::CmpSge
    }

    open spec fn spec_inputs(&self) -> Seq<WireId> {
        seq![self.input_lhs, self.input_rhs]
    }

    open spec fn spec_output(&self) -> WireId {
        self.output
    }

    fn kind(&self) -> ComponentKind {
        ComponentKind::CmpSge
    }

    fn input_wires(&self) -> (v: Vec<WireId>)
        ensures
            v@ == self.spec_inputs(),
    {
        let mut v: Vec<WireId> = Vec::new();
        v.push(self.input_lhs);
        v.push(self.input_rhs);
        proof {
            assert(v@ =~= seq![self.input_lhs, self.input_rhs]);
        }
        v
    }

    fn output_wire(&self) -> WireId {
        self.output
    }
}

} // verus!
