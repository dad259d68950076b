//! The two compute kernels of the engine and the model they are specified
//! against: per wire, merging every driver into a new wire state with
//! conflict detection; per component, evaluating its operator onto its
//! output slice.

use crate::buffer::{Buffer, Finalized, LogicStateBuffer};
use crate::graph::{
    atoms_of_width, chain_sources, drivers_next_monotone, Component, ComponentInput,
    ComponentKind, ComponentOutput, ComponentOutputKind, OutputState, Wire, WireBaseDrive,
    WireDriver, WireState,
};
use crate::logic::{
    atom_bit, lbs_valid_bit, lemma_ls_bit_ext, ls_all_valid, ls_bit, ls_val, spec_lbs_from_bool,
    LogicBitState, LogicState, LogicStateAtom,
};
use crate::ops;
use vstd::arithmetic::power2::pow2;
use vstd::prelude::*;

verus! {

/// The state of a simulation: the contents of all nine flat buffers.
pub struct SimModel {
    pub wire_states: Seq<LogicStateAtom>,
    pub wire_drives: Seq<LogicStateAtom>,
    pub wire_drivers: Seq<WireDriver>,
    pub wires: Seq<Wire>,
    pub output_states: Seq<LogicStateAtom>,
    pub outputs: Seq<ComponentOutput>,
    pub inputs: Seq<ComponentInput>,
    pub memory: Seq<LogicStateAtom>,
    pub components: Seq<Component>,
}

/// The four-valued state of bit `j` of a slice of `count` atoms starting at
/// `offset`: high impedance outside the slice.
pub open spec fn slice_bit(atoms: Seq<LogicStateAtom>, offset: int, count: int, j: u32) -> (
    LogicBitState) {
    if j < 32 * count && 0 <= offset && offset + count <= atoms.len() {
        atom_bit(atoms[offset + j as int / 32], j % 32)
    } else {
        LogicBitState::HighZ
    }
}

/// Whether the logic state `s` is the slice of `count` atoms at `offset`
/// widened with high impedance.
pub open spec fn is_read_of(
    s: LogicState,
    atoms: Seq<LogicStateAtom>,
    offset: int,
    count: int,
) -> bool {
    forall|j: u32| j < 256 ==> ls_bit(s, j) == slice_bit(atoms, offset, count, j)
}

/// Two reads of the same slice are the same state.
pub proof fn lemma_read_unique(
    s1: LogicState,
    s2: LogicState,
    atoms: Seq<LogicStateAtom>,
    offset: int,
    count: int,
)
    requires
        is_read_of(s1, atoms, offset, count),
        is_read_of(s2, atoms, offset, count),
    ensures
        s1 == s2,
{
    lemma_ls_bit_ext(s1, s2);
}

/// One wire record is well formed against the buffer lengths.
pub open spec fn wire_wf(w: Wire, m: SimModel) -> bool {
    &&& 1 <= w.width <= 256
    &&& w.state_offset.value != u32::MAX
    &&& w.state_offset.value + atoms_of_width(w.width as int) <= m.wire_states.len()
    &&& w.drive_offset.value != u32::MAX
    &&& w.drive_offset.value + atoms_of_width(w.width as int) <= m.wire_drives.len()
    &&& (w.first_driver_offset.value != u32::MAX ==> w.first_driver_width <= 8
        && w.first_driver_offset.value + w.first_driver_width <= m.output_states.len())
    &&& (w.driver_list.value == u32::MAX || (w.driver_list.value as int) < m.wire_drivers.len())
    &&& (w.first_driver_offset.value == u32::MAX ==> w.driver_list.value == u32::MAX)
}

/// One driver node is well formed against the output-state buffer.
pub open spec fn driver_wf(d: WireDriver, m: SimModel) -> bool {
    &&& d.width <= 8
    &&& d.output_state_offset.value != u32::MAX
    &&& d.output_state_offset.value + d.width <= m.output_states.len()
}

/// One input record is well formed against the wire-state buffer.
pub open spec fn input_wf(inp: ComponentInput, m: SimModel) -> bool {
    &&& 1 <= inp.width <= 256
    &&& inp.wire_state_offset.value != u32::MAX
    &&& inp.wire_state_offset.value + atoms_of_width(inp.width as int) <= m.wire_states.len()
}

/// The smallest number of inputs a component of the given kind reads.
pub open spec fn min_inputs_of(kind: ComponentKind) -> int {
    match kind {
        ComponentKind::And => 0,
        ComponentKind::Or => 0,
        ComponentKind::Xor => 0,
        ComponentKind::Nand => 0,
        ComponentKind::Nor => 0,
        ComponentKind::Xnor => 0,
        ComponentKind::Not => 1,
        ComponentKind::Neg => 1,
        ComponentKind::HAnd => 1,
        ComponentKind::HOr => 1,
        ComponentKind::HXor => 1,
        ComponentKind::HNand => 1,
        ComponentKind::HNor => 1,
        ComponentKind::HXnor => 1,
        _ => 2,
    }
}

/// One component record is well formed: a single bounded output slice, and
/// a run of well-formed input records long enough for its kind.
pub open spec fn component_wf(c: Component, m: SimModel) -> bool {
    &&& (c.output matches ComponentOutputKind::Single(out) && c.output_count == 1 && 1 <= out.width
        <= 256 && out.state_offset.value != u32::MAX && out.state_offset.value + atoms_of_width(
        out.width as int,
    ) <= m.output_states.len())
    &&& c.input_count as int >= min_inputs_of(c.kind)
    &&& (c.input_count > 0 ==> c.first_input.value != u32::MAX && c.first_input.value
        + c.input_count <= m.inputs.len())
    &&& (forall|k: int|
        0 <= k < c.input_count ==> input_wf(#[trigger] m.inputs[c.first_input.value + k], m))
}

/// The single output slice of a well-formed component.
pub open spec fn comp_output(c: Component) -> ComponentOutput {
    c.output->Single_0
}

/// The whole model is well formed: every record in bounds, driver links
/// monotone, and the wire-state and output-state slices each allocated
/// back-to-back so that distinct owners never overlap.
pub open spec fn model_wf(m: SimModel) -> bool {
    &&& m.wires.len() <= u32::MAX
    &&& m.components.len() <= u32::MAX
    &&& m.wire_states.len() <= u32::MAX
    &&& m.wire_drives.len() <= u32::MAX
    &&& m.wire_drivers.len() <= u32::MAX
    &&& m.output_states.len() <= u32::MAX
    &&& m.inputs.len() <= u32::MAX
    &&& m.memory.len() <= u32::MAX
    &&& (forall|i: int| 0 <= i < m.wires.len() ==> wire_wf(#[trigger] m.wires[i], m))
    &&& (forall|i: int| 0 <= i < m.wire_drivers.len() ==> driver_wf(#[trigger] m.wire_drivers[i], m))
    &&& drivers_next_monotone(m.wire_drivers)
    &&& (forall|i: int| 0 <= i < m.components.len() ==> component_wf(#[trigger] m.components[i], m))
    &&& (forall|i: int, j: int|
        0 <= i < j < m.wires.len() ==> (#[trigger] m.wires[i]).state_offset.value + atoms_of_width(
            m.wires[i].width as int,
        ) <= (#[trigger] m.wires[j]).state_offset.value)
    &&& (forall|i: int, j: int|
        0 <= i < j < m.components.len() ==> comp_output(#[trigger] m.components[i]).state_offset.value
            + atoms_of_width(comp_output(m.components[i]).width as int) <= comp_output(
            #[trigger] m.components[j],
        ).state_offset.value)
}

/// The merge of two four-valued bits driven onto the same wire: high
/// impedance yields to anything, equal valid levels agree, and everything
/// else is undefined.
pub open spec fn merge_bit(a: LogicBitState, b: LogicBitState) -> LogicBitState {
    if a == LogicBitState::HighZ {
        b
    } else if b == LogicBitState::HighZ {
        a
    } else if a == b && a != LogicBitState::Undefined {
        a
    } else {
        LogicBitState::Undefined
    }
}

/// Whether two merged bits are a genuine bus conflict: both valid levels,
/// disagreeing.
pub open spec fn conflict_step(a: LogicBitState, b: LogicBitState) -> bool {
    lbs_valid_bit(a) && lbs_valid_bit(b) && a != b
}

/// The component-driver sources of a wire: the inline first driver, then
/// the nodes of its driver list, each as (width in atoms, offset).
pub open spec fn wire_sources(m: SimModel, w: Wire) -> Seq<(u32, u32)> {
    (if w.first_driver_offset.value != u32::MAX {
        seq![(w.first_driver_width, w.first_driver_offset.value)]
    } else {
        Seq::empty()
    }) + chain_sources(m.wire_drivers, w.driver_list.value as int)
}

/// Bit `j` of one driver source.
pub open spec fn source_bit(m: SimModel, src: (u32, u32), j: u32) -> LogicBitState {
    slice_bit(m.output_states, src.1 as int, src.0 as int, j)
}

/// Bit `j` of the wire's base drive.
pub open spec fn drive_bit(m: SimModel, w: Wire, j: u32) -> LogicBitState {
    slice_bit(m.wire_drives, w.drive_offset.value as int, atoms_of_width(w.width as int), j)
}

/// Bit `j` of the merge of the base drive and the first `n` driver sources.
pub open spec fn merged_bit(m: SimModel, w: Wire, n: int, j: u32) -> LogicBitState
    decreases n,
{
    if n <= 0 {
        drive_bit(m, w, j)
    } else {
        merge_bit(merged_bit(m, w, n - 1, j), source_bit(m, wire_sources(m, w)[n - 1], j))
    }
}

/// Whether merging the first `n` driver sources conflicts at bit `j`.
pub open spec fn merge_conflict_bit(m: SimModel, w: Wire, n: int, j: u32) -> bool
    decreases n,
{
    if n <= 0 {
        false
    } else {
        merge_conflict_bit(m, w, n - 1, j) || conflict_step(
            merged_bit(m, w, n - 1, j),
            source_bit(m, wire_sources(m, w)[n - 1], j),
        )
    }
}

/// Whether the wire has a bus conflict: two valid driver levels disagree at
/// some bit within its width.
pub open spec fn wire_conflict(m: SimModel, w: Wire) -> bool {
    exists|j: u32| j < w.width && merge_conflict_bit(m, w, wire_sources(m, w).len() as int, j)
}

fn exec_merge_bit(a: LogicBitState, b: LogicBitState) -> (r: LogicBitState)
    ensures
        r == merge_bit(a, b),
{
    match (a, b) {
        (LogicBitState::HighZ, _) => b,
        (_, LogicBitState::HighZ) => a,
        (LogicBitState::Logic0, LogicBitState::Logic0) => LogicBitState::Logic0,
        (LogicBitState::Logic1, LogicBitState::Logic1) => LogicBitState::Logic1,
        _ => LogicBitState::Undefined,
    }
}

fn exec_conflict_step(a: LogicBitState, b: LogicBitState) -> (r: bool)
    ensures
        r == conflict_step(a, b),
{
    let va = match a {
        LogicBitState::Logic0 | LogicBitState::Logic1 => true,
        _ => false,
    };
    let vb = match b {
        LogicBitState::Logic0 | LogicBitState::Logic1 => true,
        _ => false,
    };
    va && vb && a != b
}

/// Reads `count` atoms at `offset`, widened with high impedance.
pub fn read_state<Marker, S: crate::buffer::BufferState>(
    buf: &LogicStateBuffer<Marker, S>,
    offset: u32,
    count: u32,
) -> (r: LogicState)
    requires
        offset != u32::MAX,
        count <= 8,
        offset + count <= buf@.len(),
    ensures
        is_read_of(r, buf@, offset as int, count as int),
{
    let mut r = LogicState::high_z();
    let slice = match buf.get(crate::buffer::Offset { value: offset, marker: (
    core::marker::PhantomData) }, count) {
        Some(s) => s,
        None => {
            return r;
        },
    };
    let mut k: usize = 0;
    while k < count as usize
        invariant
            k <= count <= 8,
            slice@.len() == count,
            slice@ == buf@.subrange(offset as int, offset as int + count as int),
            forall|ai: int|
                0 <= ai < 8 ==> r.0[ai] == (if ai < k {
                    slice@[ai]
                } else {
                    crate::logic::spec_high_z_atom()
                }),
        decreases count - k,
    {
        r.0[k] = slice[k];
        k = k + 1;
    }
    proof {
        crate::logic::lemma_word_bit_consts();
        assert forall|j: u32| j < 256 implies ls_bit(r, j) == slice_bit(
            buf@,
            offset as int,
            count as int,
            j,
        ) by {
            let ai = (j / 32) as int;
            assert(0 <= ai < 8);
            if j < 32 * count {
                assert(ai < count) by (nonlinear_arith)
                    requires
                        j < 32 * count,
                        ai == j as int / 32,
                ;
                assert(r.0[ai] == buf@[offset + ai]);
            } else {
                assert(ai >= count) by (nonlinear_arith)
                    requires
                        j >= 32 * count,
                        ai == j as int / 32,
                ;
            }
        }
    }
    r
}

/// The first `count` atoms of a logic state, for writing a slice back.
pub fn ls_to_atoms(s: &LogicState, count: u32) -> (r: Vec<LogicStateAtom>)
    requires
        count <= 8,
    ensures
        r@.len() == count,
        forall|k: int| 0 <= k < count ==> r@[k] == s.0[k],
{
    let mut r: Vec<LogicStateAtom> = Vec::new();
    let mut k: usize = 0;
    while k < count as usize
        invariant
            k <= count <= 8,
            r@.len() == k,
            forall|q: int| 0 <= q < k ==> r@[q] == s.0[q],
        decreases count - k,
    {
        r.push(s.0[k]);
        k = k + 1;
    }
    r
}

/// Merges one driver source into the accumulator over all 256 bits, and
/// extends the conflict flag with any genuine conflict within `width` bits.
fn merge_source(acc: LogicState, conflict: bool, src: &LogicState, width: u32) -> (r: (
    LogicState,
    bool,
))
    requires
        width <= 256,
    ensures
        forall|j: u32| j < 256 ==> ls_bit(r.0, j) == merge_bit(ls_bit(acc, j), ls_bit(*src, j)),
        r.1 == (conflict || exists|j: u32|
            j < width && conflict_step(ls_bit(acc, j), ls_bit(*src, j))),
{
    let mut out = LogicState::high_z();
    let mut c = conflict;
    let mut j: u32 = 0;
    while j < 256
        invariant
            j <= 256,
            width <= 256,
            forall|q: u32| q < j ==> ls_bit(out, q) == merge_bit(ls_bit(acc, q), ls_bit(*src, q)),
            c == (conflict || exists|q: u32|
                q < j && q < width && conflict_step(ls_bit(acc, q), ls_bit(*src, q))),
        decreases 256 - j,
    {
        let a = acc.get_bit_state(j as u8);
        let b = src.get_bit_state(j as u8);
        out = out.with_bit(j, exec_merge_bit(a, b));
        if j < width && exec_conflict_step(a, b) {
            c = true;
        }
        j = j + 1;
    }
    (out, c)
}

/// Evaluates the wire kernel for one wire: the base drive merged with every
/// component driver, masked to the wire's width, together with the wire's
/// conflict flag.
pub fn compute_wire(
    wire: &Wire,
    wire_drives: &LogicStateBuffer<WireBaseDrive, Finalized>,
    wire_drivers: &Buffer<WireDriver, Finalized>,
    output_states: &LogicStateBuffer<OutputState, Finalized>,
    Ghost(m): Ghost<SimModel>,
) -> (r: (LogicState, bool))
    requires
        m.wire_drives == wire_drives@,
        m.wire_drivers == wire_drivers@,
        m.output_states == output_states@,
        wire_drives@.len() <= u32::MAX,
        output_states@.len() <= u32::MAX,
        wire_drivers@.len() <= u32::MAX,
        wire_wf(*wire, m),
        drivers_next_monotone(m.wire_drivers),
        forall|i: int| 0 <= i < m.wire_drivers.len() ==> driver_wf(#[trigger] m.wire_drivers[i], m),
    ensures
        forall|j: u32|
            j < 256 ==> ls_bit(r.0, j) == (if j < wire.width {
                merged_bit(m, *wire, wire_sources(m, *wire).len() as int, j)
            } else {
                LogicBitState::HighZ
            }),
        r.1 == wire_conflict(m, *wire),
{
    let ghost srcs = wire_sources(m, *wire);
    let atoms = (wire.width + 31) / 32;
    proof {
        assert(atoms as int == atoms_of_width(wire.width as int));
    }
    let mut acc = read_state(wire_drives, wire.drive_offset.value, atoms);
    let mut conflict = false;
    let ghost mut n: int = 0;
    proof {
        assert(forall|j: u32| j < 256 ==> ls_bit(acc, j) == merged_bit(m, *wire, 0, j));
    }
    if !wire.first_driver_offset.is_invalid() {
        let src = read_state(
            output_states,
            wire.first_driver_offset.value,
            wire.first_driver_width,
        );
        proof {
            assert(srcs[0] == (wire.first_driver_width, wire.first_driver_offset.value));
            assert(forall|j: u32| j < 256 ==> ls_bit(src, j) == source_bit(m, srcs[0], j));
        }
        let ghost pre_acc = acc;
        let merged = merge_source(acc, conflict, &src, wire.width);
        acc = merged.0;
        conflict = merged.1;
        proof {
            n = 1;
            assert(forall|j: u32| j < 256 ==> ls_bit(acc, j) == merged_bit(m, *wire, 1, j));
            assert(conflict == (exists|q: u32|
                q < wire.width && merge_conflict_bit(m, *wire, 1, q))) by {
                if conflict {
                    let q = choose|q: u32|
                        q < wire.width && #[trigger] conflict_step(
                            ls_bit(pre_acc, q),
                            ls_bit(src, q),
                        );
                    assert(merge_conflict_bit(m, *wire, 1, q));
                } else {
                    assert forall|q: u32| q < wire.width implies !merge_conflict_bit(
                        m,
                        *wire,
                        1,
                        q,
                    ) by {
                        assert(ls_bit(pre_acc, q) == merged_bit(m, *wire, 0, q));
                        assert(ls_bit(src, q) == source_bit(m, srcs[0], q));
                        assert(!merge_conflict_bit(m, *wire, 0, q));
                        assert(!conflict_step(ls_bit(pre_acc, q), ls_bit(src, q)));
                    }
                }
            }
        }
    }
    let mut idx: u32 = wire.driver_list.value;
    while idx != u32::MAX
        invariant
            m.wire_drives == wire_drives@,
            m.wire_drivers == wire_drivers@,
            m.output_states == output_states@,
            output_states@.len() <= u32::MAX,
            wire_drivers@.len() <= u32::MAX,
            wire_wf(*wire, m),
            drivers_next_monotone(m.wire_drivers),
            forall|i: int|
                0 <= i < m.wire_drivers.len() ==> driver_wf(#[trigger] m.wire_drivers[i], m),
            srcs == wire_sources(m, *wire),
            0 <= n <= srcs.len(),
            idx == u32::MAX || (idx as int) < m.wire_drivers.len(),
            chain_sources(m.wire_drivers, idx as int) == srcs.skip(n),
            forall|j: u32| j < 256 ==> ls_bit(acc, j) == merged_bit(m, *wire, n, j),
            conflict == (exists|q: u32| q < wire.width && merge_conflict_bit(m, *wire, n, q)),
        decreases (if idx == u32::MAX {
            0int
        } else {
            m.wire_drivers.len() - idx as int + 1
        }),
    {
        let node = match wire_drivers.get(crate::buffer::Index { value: idx, marker: (
        core::marker::PhantomData) }) {
            Some(node) => *node,
            None => {
                return (acc, conflict);
            },
        };
        proof {
            assert(node == m.wire_drivers[idx as int]);
            assert(driver_wf(node, m));
            if node.next_driver == u32::MAX {
                assert(chain_sources(m.wire_drivers, node.next_driver as int) =~= Seq::empty());
            }
            let tail = chain_sources(m.wire_drivers, node.next_driver as int);
            assert(chain_sources(m.wire_drivers, idx as int) == seq![
                (node.width, node.output_state_offset.value),
            ] + tail);
            assert(srcs.skip(n).len() > 0);
            assert(srcs.skip(n)[0] == srcs[n]);
            assert(srcs[n] == (node.width, node.output_state_offset.value));
            assert(tail =~= srcs.skip(n + 1)) by {
                assert(tail.len() == srcs.len() - n - 1);
                assert forall|i: int| 0 <= i < tail.len() implies tail[i] == srcs.skip(n + 1)[i] by {
                    assert(tail[i] == srcs.skip(n)[i + 1]);
                    assert(srcs.skip(n)[i + 1] == srcs[n + 1 + i]);
                    assert(srcs.skip(n + 1)[i] == srcs[n + 1 + i]);
                }
            }
        }
        let src = read_state(output_states, node.output_state_offset.value, node.width);
        proof {
            assert(forall|j: u32| j < 256 ==> ls_bit(src, j) == source_bit(m, srcs[n], j));
        }
        let ghost pre_acc = acc;
        let ghost pre_conflict = conflict;
        let merged = merge_source(acc, conflict, &src, wire.width);
        acc = merged.0;
        conflict = merged.1;
        proof {
            n = n + 1;
            assert(forall|j: u32| j < 256 ==> ls_bit(acc, j) == merged_bit(m, *wire, n, j));
            assert(conflict == (exists|q: u32|
                q < wire.width && merge_conflict_bit(m, *wire, n, q))) by {
                if conflict {
                    if pre_conflict {
                        let q = choose|q: u32|
                            q < wire.width && #[trigger] merge_conflict_bit(m, *wire, n - 1, q);
                        assert(merge_conflict_bit(m, *wire, n, q));
                    } else {
                        let q = choose|q: u32|
                            q < wire.width && #[trigger] conflict_step(
                                ls_bit(pre_acc, q),
                                ls_bit(src, q),
                            );
                        assert(merge_conflict_bit(m, *wire, n, q));
                    }
                } else {
                    assert forall|q: u32| q < wire.width implies !merge_conflict_bit(
                        m,
                        *wire,
                        n,
                        q,
                    ) by {
                        assert(ls_bit(pre_acc, q) == merged_bit(m, *wire, n - 1, q));
                        assert(ls_bit(src, q) == source_bit(m, srcs[n - 1], q));
                        assert(!conflict_step(ls_bit(pre_acc, q), ls_bit(src, q)));
                        assert(!merge_conflict_bit(m, *wire, n - 1, q));
                    }
                }
            }
        }
        idx = node.next_driver;
    }
    proof {
        assert(srcs.skip(n).len() == 0);
        assert(n == srcs.len());
    }
    let value = ops::mask_ls(acc, wire.width);
    (value, conflict)
}

/// The `k`-th input record of a component.
pub open spec fn input_rec(m: SimModel, c: Component, k: int) -> ComponentInput {
    m.inputs[c.first_input.value + k]
}

/// Whether `ins` are the widened reads of all of a component's inputs.
pub open spec fn inputs_read(m: SimModel, c: Component, ins: Seq<LogicState>) -> bool {
    &&& ins.len() == c.input_count
    &&& forall|k: int|
        0 <= k < ins.len() ==> is_read_of(
            #[trigger] ins[k],
            m.wire_states,
            input_rec(m, c, k).wire_state_offset.value as int,
            atoms_of_width(input_rec(m, c, k).width as int),
        )
}

/// Whether every bit of `s` from `width` up is high impedance.
pub open spec fn masked_above(s: LogicState, width: int) -> bool {
    forall|j: u32| width <= j < 256 ==> ls_bit(s, j) == LogicBitState::HighZ
}

/// Whether every bit of `s` below `width` is undefined: the result of an
/// operator whose operands were not all valid.
pub open spec fn all_undefined_below(s: LogicState, width: int) -> bool {
    forall|j: u32| j < width ==> ls_bit(s, j) == LogicBitState::Undefined
}

/// Whether `s` is the result of evaluating component `c` on the input
/// states `ins`, per the operator semantics of its kind.
pub open spec fn comp_result_matches(
    m: SimModel,
    c: Component,
    ins: Seq<LogicState>,
    s: LogicState,
) -> bool {
    let w = comp_output(c).width as int;
    let n = ins.len() as int;
    &&& masked_above(s, w)
    &&& match c.kind {
        ComponentKind::And | ComponentKind::Or | ComponentKind::Xor | ComponentKind::Nand
            | ComponentKind::Nor | ComponentKind::Xnor => {
            let op = gate_op_of(c.kind);
            let neg = gate_negated(c.kind);
            if n == 0 {
                all_undefined_below(s, w)
            } else {
                forall|j: u32|
                    j < w ==> ls_bit(s, j) == (if neg {
                        ops::invert_bit(ops::fold_gate_bit(op, ins, n, j))
                    } else {
                        ops::fold_gate_bit(op, ins, n, j)
                    })
            }
        },
        ComponentKind::Not => forall|j: u32|
            j < w ==> ls_bit(s, j) == ops::invert_bit(ls_bit(ins[0], j)),
        ComponentKind::Buffer => {
            let enable = ls_bit(ins[1], 0);
            if enable == LogicBitState::Logic1 {
                forall|j: u32| j < w ==> ls_bit(s, j) == ls_bit(ins[0], j)
            } else if enable == LogicBitState::Logic0 {
                forall|j: u32| j < w ==> ls_bit(s, j) == LogicBitState::HighZ
            } else {
                all_undefined_below(s, w)
            }
        },
        ComponentKind::Add => {
            if ls_all_valid(ins[0], w) && ls_all_valid(ins[1], w) {
                ls_all_valid(s, w) && ls_val(s, w) == (ls_val(ins[0], w) + ls_val(ins[1], w))
                    % pow2(w as nat)
            } else {
                all_undefined_below(s, w)
            }
        },
        ComponentKind::Sub => {
            if ls_all_valid(ins[0], w) && ls_all_valid(ins[1], w) {
                ls_all_valid(s, w) && ls_val(s, w) == (ls_val(ins[0], w) + pow2(w as nat) - ls_val(
                    ins[1],
                    w,
                )) % (pow2(w as nat) as int)
            } else {
                all_undefined_below(s, w)
            }
        },
        ComponentKind::Neg => {
            if ls_all_valid(ins[0], w) {
                ls_all_valid(s, w) && ls_val(s, w) == (pow2(w as nat) - ls_val(ins[0], w)) % (pow2(
                    w as nat,
                ) as int)
            } else {
                all_undefined_below(s, w)
            }
        },
        ComponentKind::Lsh | ComponentKind::LRsh | ComponentKind::ARsh => {
            let bw = input_rec(m, c, 1).width as int;
            if ls_all_valid(ins[1], bw) {
                let amt = ls_val(ins[1], bw);
                match c.kind {
                    ComponentKind::Lsh => forall|j: u32|
                        j < w ==> ls_bit(s, j) == (if j < amt {
                            LogicBitState::Logic0
                        } else {
                            ls_bit(ins[0], (j - amt) as u32)
                        }),
                    ComponentKind::LRsh => forall|j: u32|
                        j < w ==> ls_bit(s, j) == (if j + amt < w {
                            ls_bit(ins[0], (j + amt) as u32)
                        } else {
                            LogicBitState::Logic0
                        }),
                    _ => forall|j: u32|
                        j < w ==> ls_bit(s, j) == (if j + amt < w {
                            ls_bit(ins[0], (j + amt) as u32)
                        } else {
                            ls_bit(ins[0], (w - 1) as u32)
                        }),
                }
            } else {
                all_undefined_below(s, w)
            }
        },
        ComponentKind::HAnd | ComponentKind::HOr | ComponentKind::HXor | ComponentKind::HNand
            | ComponentKind::HNor | ComponentKind::HXnor => {
            let op = hgate_op_of(c.kind);
            let neg = hgate_negated(c.kind);
            let iw = input_rec(m, c, 0).width as int;
            &&& ls_bit(s, 0) == (if neg {
                ops::invert_bit(ops::hfold_bit(op, ins[0], iw))
            } else {
                ops::hfold_bit(op, ins[0], iw)
            })
            &&& forall|j: u32| 0 < j < w ==> ls_bit(s, j) == LogicBitState::Logic0
        },
        _ => {
            let op = compare_op_of(c.kind);
            let wa = input_rec(m, c, 0).width as int;
            let wb = input_rec(m, c, 1).width as int;
            let we = if wa >= wb {
                wa
            } else {
                wb
            };
            if ls_all_valid(ins[0], we) && ls_all_valid(ins[1], we) {
                &&& ls_bit(s, 0) == spec_lbs_from_bool(
                    ops::compare_spec(op, ins[0], ins[1], we),
                )
                &&& forall|j: u32| 0 < j < w ==> ls_bit(s, j) == LogicBitState::Logic0
            } else {
                all_undefined_below(s, w)
            }
        },
    }
}

/// The base operator of a wide gate kind.
pub open spec fn gate_op_of(kind: ComponentKind) -> ops::BinaryOp {
    match kind {
        ComponentKind::And | ComponentKind::Nand => ops::BinaryOp::And,
        ComponentKind::Or | ComponentKind::Nor => ops::BinaryOp::Or,
        _ => ops::BinaryOp::Xor,
    }
}

/// Whether a wide gate kind inverts its fold.
pub open spec fn gate_negated(kind: ComponentKind) -> bool {
    match kind {
        ComponentKind::Nand | ComponentKind::Nor | ComponentKind::Xnor => true,
        _ => false,
    }
}

/// The base operator of a horizontal gate kind.
pub open spec fn hgate_op_of(kind: ComponentKind) -> ops::BinaryOp {
    match kind {
        ComponentKind::HAnd | ComponentKind::HNand => ops::BinaryOp::And,
        ComponentKind::HOr | ComponentKind::HNor => ops::BinaryOp::Or,
        _ => ops::BinaryOp::Xor,
    }
}

/// Whether a horizontal gate kind inverts its fold.
pub open spec fn hgate_negated(kind: ComponentKind) -> bool {
    match kind {
        ComponentKind::HNand | ComponentKind::HNor | ComponentKind::HXnor => true,
        _ => false,
    }
}

/// The comparison operator of a comparison kind.
pub open spec fn compare_op_of(kind: ComponentKind) -> ops::CompareOp {
    match kind {
        ComponentKind::CmpEq => ops::CompareOp::Eq,
        ComponentKind::CmpNe => ops::CompareOp::Ne,
        ComponentKind::CmpUlt => ops::CompareOp::Ult,
        ComponentKind::CmpUgt => ops::CompareOp::Ugt,
        ComponentKind::CmpUle => ops::CompareOp::Ule,
        ComponentKind::CmpUge => ops::CompareOp::Uge,
        ComponentKind::CmpSlt => ops::CompareOp::Slt,
        ComponentKind::CmpSgt => ops::CompareOp::Sgt,
        ComponentKind::CmpSle => ops::CompareOp::Sle,
        _ => ops::CompareOp::Sge,
    }
}

/// Evaluates the component kernel for one component: every input read from
/// the wire states, the kind's operator applied, the result masked to the
/// output width.
#[verifier::rlimit(50)]
pub fn compute_component(
    c: &Component,
    wire_states: &LogicStateBuffer<WireState, Finalized>,
    inputs_buf: &Buffer<ComponentInput, Finalized>,
    Ghost(m): Ghost<SimModel>,
) -> (r: LogicState)
    requires
        m.wire_states == wire_states@,
        m.inputs == inputs_buf@,
        wire_states@.len() <= u32::MAX,
        inputs_buf@.len() <= u32::MAX,
        component_wf(*c, m),
    ensures
        forall|ins: Seq<LogicState>|
            inputs_read(m, *c, ins) ==> comp_result_matches(m, *c, ins, r),
{
    let width = match c.output {
        ComponentOutputKind::Single(out) => out.width,
        ComponentOutputKind::List(_, _) => 1,
    };
    let n = c.input_count as usize;
    let mut ins: Vec<LogicState> = Vec::new();
    let mut recs: Vec<ComponentInput> = Vec::new();
    let mut k: usize = 0;
    while k < n
        invariant
            k <= n == c.input_count,
            m.wire_states == wire_states@,
            m.inputs == inputs_buf@,
            wire_states@.len() <= u32::MAX,
            inputs_buf@.len() <= u32::MAX,
            component_wf(*c, m),
            ins@.len() == k,
            recs@.len() == k,
            forall|q: int| 0 <= q < k ==> recs@[q] == input_rec(m, *c, q),
            forall|q: int|
                0 <= q < k ==> is_read_of(
                    #[trigger] ins@[q],
                    m.wire_states,
                    input_rec(m, *c, q).wire_state_offset.value as int,
                    atoms_of_width(input_rec(m, *c, q).width as int),
                ),
        decreases n - k,
    {
        let rec = match inputs_buf.get(crate::buffer::Index { value: c.first_input.value + (
        k as u32), marker: core::marker::PhantomData }) {
            Some(rec) => *rec,
            None => ComponentInput { width: 1, wire_state_offset: (
            crate::buffer::Offset::invalid()) },
        };
        proof {
            assert(input_wf(input_rec(m, *c, k as int), m));
            assert(rec == input_rec(m, *c, k as int));
        }
        let atoms = (rec.width + 31) / 32;
        let state = read_state(wire_states, rec.wire_state_offset.value, atoms);
        ins.push(state);
        recs.push(rec);
        k = k + 1;
    }
    let ghost my_ins = ins@;
    let r = match c.kind {
        ComponentKind::And => ops::eval_wide_gate(ops::BinaryOp::And, false, &ins, width),
        ComponentKind::Or => ops::eval_wide_gate(ops::BinaryOp::Or, false, &ins, width),
        ComponentKind::Xor => ops::eval_wide_gate(ops::BinaryOp::Xor, false, &ins, width),
        ComponentKind::Nand => ops::eval_wide_gate(ops::BinaryOp::And, true, &ins, width),
        ComponentKind::Nor => ops::eval_wide_gate(ops::BinaryOp::Or, true, &ins, width),
        ComponentKind::Xnor => ops::eval_wide_gate(ops::BinaryOp::Xor, true, &ins, width),
        ComponentKind::Not => ops::eval_not(ins[0], width),
        ComponentKind::Buffer => {
            let enable = ins[1].get_bit_state(0);
            ops::eval_buffer(ins[0], enable, width)
        },
        ComponentKind::Add => ops::eval_add(ins[0], ins[1], width),
        ComponentKind::Sub => ops::eval_sub(ins[0], ins[1], width),
        ComponentKind::Neg => ops::eval_neg(ins[0], width),
        ComponentKind::Lsh => ops::eval_shift(ops::ShiftOp::Lsh, ins[0], ins[1], recs[1].width, (
        width)),
        ComponentKind::LRsh => ops::eval_shift(ops::ShiftOp::LRsh, ins[0], ins[1], recs[1].width, (
        width)),
        ComponentKind::ARsh => ops::eval_shift(ops::ShiftOp::ARsh, ins[0], ins[1], recs[1].width, (
        width)),
        ComponentKind::HAnd => ops::eval_horizontal(ops::BinaryOp::And, false, ins[0], (
        recs[0].width), width),
        ComponentKind::HOr => ops::eval_horizontal(ops::BinaryOp::Or, false, ins[0], (
        recs[0].width), width),
        ComponentKind::HXor => ops::eval_horizontal(ops::BinaryOp::Xor, false, ins[0], (
        recs[0].width), width),
        ComponentKind::HNand => ops::eval_horizontal(ops::BinaryOp::And, true, ins[0], (
        recs[0].width), width),
        ComponentKind::HNor => ops::eval_horizontal(ops::BinaryOp::Or, true, ins[0], (
        recs[0].width), width),
        ComponentKind::HXnor => ops::eval_horizontal(ops::BinaryOp::Xor, true, ins[0], (
        recs[0].width), width),
        ComponentKind::CmpEq => ops::eval_compare(ops::CompareOp::Eq, ins[0], recs[0].width, (
        ins[1]), recs[1].width, width),
        ComponentKind::CmpNe => ops::eval_compare(ops::CompareOp::Ne, ins[0], recs[0].width, (
        ins[1]), recs[1].width, width),
        ComponentKind::CmpUlt => ops::eval_compare(ops::CompareOp::Ult, ins[0], recs[0].width, (
        ins[1]), recs[1].width, width),
        ComponentKind::CmpUgt => ops::eval_compare(ops::CompareOp::Ugt, ins[0], recs[0].width, (
        ins[1]), recs[1].width, width),
        ComponentKind::CmpUle => ops::eval_compare(ops::CompareOp::Ule, ins[0], recs[0].width, (
        ins[1]), recs[1].width, width),
        ComponentKind::CmpUge => ops::eval_compare(ops::CompareOp::Uge, ins[0], recs[0].width, (
        ins[1]), recs[1].width, width),
        ComponentKind::CmpSlt => ops::eval_compare(ops::CompareOp::Slt, ins[0], recs[0].width, (
        ins[1]), recs[1].width, width),
        ComponentKind::CmpSgt => ops::eval_compare(ops::CompareOp::Sgt, ins[0], recs[0].width, (
        ins[1]), recs[1].width, width),
        ComponentKind::CmpSle => ops::eval_compare(ops::CompareOp::Sle, ins[0], recs[0].width, (
        ins[1]), recs[1].width, width),
        ComponentKind::CmpSge => ops::eval_compare(ops::CompareOp::Sge, ins[0], recs[0].width, (
        ins[1]), recs[1].width, width),
    };
    proof {
        assert forall|other: Seq<LogicState>| inputs_read(m, *c, other) implies (
        comp_result_matches(m, *c, other, r)) by {
            assert forall|q: int| 0 <= q < other.len() implies other[q] == my_ins[q] by {
                lemma_read_unique(
                    other[q],
                    my_ins[q],
                    m.wire_states,
                    input_rec(m, *c, q).wire_state_offset.value as int,
                    atoms_of_width(input_rec(m, *c, q).width as int),
                );
            }
            assert(other =~= my_ins);
        }
    }
    r
}

/// The value the wire kernel writes at bit `j` of a wire's slice: the merge
/// of all its drivers within the width, high impedance above it.
pub open spec fn wire_target_bit(m: SimModel, w: Wire, j: u32) -> LogicBitState {
    if j < w.width {
        merged_bit(m, w, wire_sources(m, w).len() as int, j)
    } else {
        LogicBitState::HighZ
    }
}

/// Whether the wire's slice in `m1` holds exactly what the wire kernel
/// computes from `m0`.
pub open spec fn wire_slice_ok(m0: SimModel, m1: SimModel, w: Wire) -> bool {
    forall|j: u32|
        j < 32 * atoms_of_width(w.width as int) ==> slice_bit(
            m1.wire_states,
            w.state_offset.value as int,
            atoms_of_width(w.width as int),
            j,
        ) == wire_target_bit(m0, w, j)
}

/// Whether position `p` of the wire-state buffer belongs to some wire.
pub open spec fn ws_covered(m: SimModel, p: int) -> bool {
    exists|i: int|
        0 <= i < m.wires.len() && (#[trigger] m.wires[i]).state_offset.value <= p
            < m.wires[i].state_offset.value + atoms_of_width(m.wires[i].width as int)
}

/// One full wire pass: every wire's slice freshly merged from `m0`, every
/// other position untouched, everything else equal.
pub open spec fn wire_pass_post(m0: SimModel, m1: SimModel) -> bool {
    &&& m1 == (SimModel { wire_states: m1.wire_states, ..m0 })
    &&& m1.wire_states.len() == m0.wire_states.len()
    &&& (forall|i: int| 0 <= i < m0.wires.len() ==> wire_slice_ok(m0, m1, #[trigger] m0.wires[i]))
    &&& (forall|p: int|
        0 <= p < m1.wire_states.len() && !ws_covered(m0, p) ==> m1.wire_states[p]
            == m0.wire_states[p])
}

/// The conflicting wires among the first `n`, in index order, capped at the
/// 256 slots of the conflict list.
pub open spec fn conflicts_upto(m: SimModel, n: int) -> Seq<u32>
    decreases n,
{
    if n <= 0 {
        Seq::empty()
    } else {
        let prev = conflicts_upto(m, n - 1);
        if wire_conflict(m, m.wires[n - 1]) && prev.len() < 256 {
            prev.push((n - 1) as u32)
        } else {
            prev
        }
    }
}

/// The conflict list one wire pass reports.
pub open spec fn conflict_list(m: SimModel) -> Seq<u32> {
    conflicts_upto(m, m.wires.len() as int)
}

/// Whether the outputs slice of `c` in `m1` holds a correct evaluation of
/// `c` on the wire states of `m0`.
pub open spec fn comp_slice_ok(m0: SimModel, m1: SimModel, c: Component) -> bool {
    forall|ins: Seq<LogicState>, s: LogicState|
        inputs_read(m0, c, ins) && #[trigger] is_read_of(
            s,
            m1.output_states,
            comp_output(c).state_offset.value as int,
            atoms_of_width(comp_output(c).width as int),
        ) ==> #[trigger] comp_result_matches(m0, c, ins, s)
}

/// Whether position `p` of the output-state buffer belongs to some
/// component output.
pub open spec fn os_covered(m: SimModel, p: int) -> bool {
    exists|i: int|
        0 <= i < m.components.len() && comp_output(#[trigger] m.components[i]).state_offset.value
            <= p < comp_output(m.components[i]).state_offset.value + atoms_of_width(
            comp_output(m.components[i]).width as int,
        )
}

/// One full component pass: every component's output slice freshly
/// evaluated on the wire states of `m0`, every other position untouched,
/// everything else equal.
pub open spec fn comp_pass_post(m0: SimModel, m1: SimModel) -> bool {
    &&& m1 == (SimModel { output_states: m1.output_states, ..m0 })
    &&& m1.output_states.len() == m0.output_states.len()
    &&& (forall|i: int|
        0 <= i < m0.components.len() ==> comp_slice_ok(m0, m1, #[trigger] m0.components[i]))
    &&& (forall|p: int|
        0 <= p < m1.output_states.len() && !os_covered(m0, p) ==> m1.output_states[p]
            == m0.output_states[p])
}

/// One inner sweep: a wire pass followed by a component pass, with the two
/// changed flags read off the state buffers.
pub open spec fn sweep_post(m0: SimModel, m2: SimModel, wc: bool, cc: bool) -> bool {
    exists|m1: SimModel|
        {
            &&& #[trigger] wire_pass_post(m0, m1)
            &&& comp_pass_post(m1, m2)
            &&& wc == (m1.wire_states != m0.wire_states)
            &&& cc == (m2.output_states != m1.output_states)
        }
}

/// The atom at `off + k` of a slice read, high impedance outside the slice.
pub open spec fn read_sel(atoms: Seq<LogicStateAtom>, off: int, cnt: int, k: int) -> (
    LogicStateAtom) {
    if 0 <= k < cnt && 0 <= off && off + cnt <= atoms.len() {
        atoms[off + k]
    } else {
        crate::logic::spec_high_z_atom()
    }
}

/// The logic state that reads the slice of `cnt` atoms at `off`.
pub open spec fn read_of(atoms: Seq<LogicStateAtom>, off: int, cnt: int) -> LogicState {
    LogicState(
        [
            read_sel(atoms, off, cnt, 0),
            read_sel(atoms, off, cnt, 1),
            read_sel(atoms, off, cnt, 2),
            read_sel(atoms, off, cnt, 3),
            read_sel(atoms, off, cnt, 4),
            read_sel(atoms, off, cnt, 5),
            read_sel(atoms, off, cnt, 6),
            read_sel(atoms, off, cnt, 7),
        ],
    )
}

/// `read_of` is a read of its slice: a witness that every slice can be read.
pub proof fn lemma_read_of_is_read(atoms: Seq<LogicStateAtom>, off: int, cnt: int)
    requires
        0 <= off,
        off + cnt <= atoms.len(),
        0 <= cnt <= 8,
    ensures
        is_read_of(read_of(atoms, off, cnt), atoms, off, cnt),
{
    let s = read_of(atoms, off, cnt);
    crate::logic::lemma_word_bit_consts();
    assert forall|j: u32| j < 256 implies ls_bit(s, j) == slice_bit(atoms, off, cnt, j) by {
        let ai = (j / 32) as int;
        assert(0 <= ai < 8);
        assert(s.0[ai] == read_sel(atoms, off, cnt, ai));
        if j < 32 * cnt {
            assert(ai < cnt) by (nonlinear_arith)
                requires
                    j < 32 * cnt,
                    ai == j as int / 32,
            ;
        } else {
            assert(ai >= cnt) by (nonlinear_arith)
                requires
                    j >= 32 * cnt,
                    ai == j as int / 32,
            ;
        }
    }
}

/// Slices whose bits agree are equal atom by atom.
pub proof fn lemma_slice_bits_pin_atoms(
    a1: Seq<LogicStateAtom>,
    a2: Seq<LogicStateAtom>,
    off: int,
    cnt: int,
)
    requires
        0 <= off,
        off + cnt <= a1.len(),
        off + cnt <= a2.len(),
        0 <= cnt <= 8,
        forall|j: u32|
            j < 32 * cnt ==> slice_bit(a1, off, cnt, j) == #[trigger] slice_bit(a2, off, cnt, j),
    ensures
        forall|k: int| 0 <= k < cnt ==> #[trigger] a1[off + k] == a2[off + k],
{
    assert forall|k: int| 0 <= k < cnt implies #[trigger] a1[off + k] == a2[off + k] by {
        assert forall|b: u32| b < 32 implies #[trigger] crate::logic::atom_bit(a1[off + k], b)
            == crate::logic::atom_bit(a2[off + k], b) by {
            let j = (32 * k + b) as u32;
            crate::logic::lemma_bit_index_split(k, b);
            assert(j < 32 * cnt);
            assert(slice_bit(a1, off, cnt, j) == crate::logic::atom_bit(a1[off + k], b));
            assert(slice_bit(a2, off, cnt, j) == crate::logic::atom_bit(a2[off + k], b));
        }
        crate::logic::lemma_atom_bit_ext(a1[off + k], a2[off + k]);
    }
}

/// Two correct evaluations of one component on the same inputs have the
/// same bits.
pub proof fn lemma_comp_result_unique(
    m: SimModel,
    c: Component,
    ins: Seq<LogicState>,
    s1: LogicState,
    s2: LogicState,
)
    requires
        component_wf(c, m),
        inputs_read(m, c, ins),
        comp_result_matches(m, c, ins, s1),
        comp_result_matches(m, c, ins, s2),
    ensures
        s1 == s2,
{
    let w = comp_output(c).width as int;
    assert forall|j: u32| j < 256 implies ls_bit(s1, j) == ls_bit(s2, j) by {
        if j >= w {
            assert(ls_bit(s1, j) == LogicBitState::HighZ);
            assert(ls_bit(s2, j) == LogicBitState::HighZ);
        } else {
            match c.kind {
                ComponentKind::Add | ComponentKind::Sub | ComponentKind::Neg => {
                    let valid = match c.kind {
                        ComponentKind::Neg => ls_all_valid(ins[0], w),
                        _ => ls_all_valid(ins[0], w) && ls_all_valid(ins[1], w),
                    };
                    if valid {
                        ops::lemma_ls_val_determines_bits(s1, s2, w);
                    }
                },
                _ => {},
            }
        }
    }
    crate::logic::lemma_ls_bit_ext(s1, s2);
}

/// The inputs of a well-formed component can always be read.
pub proof fn lemma_inputs_exist(m: SimModel, c: Component) -> (ins: Seq<LogicState>)
    requires
        component_wf(c, m),
    ensures
        inputs_read(m, c, ins),
{
    let ins = Seq::new(
        c.input_count as nat,
        |k: int|
            read_of(
                m.wire_states,
                input_rec(m, c, k).wire_state_offset.value as int,
                atoms_of_width(input_rec(m, c, k).width as int),
            ),
    );
    assert forall|k: int| 0 <= k < ins.len() implies is_read_of(
        #[trigger] ins[k],
        m.wire_states,
        input_rec(m, c, k).wire_state_offset.value as int,
        atoms_of_width(input_rec(m, c, k).width as int),
    ) by {
        assert(input_wf(input_rec(m, c, k), m));
        lemma_read_of_is_read(
            m.wire_states,
            input_rec(m, c, k).wire_state_offset.value as int,
            atoms_of_width(input_rec(m, c, k).width as int),
        );
    }
    ins
}

/// The wire pass is a function: two runs from the same model agree.
pub proof fn lemma_wire_pass_unique(m0: SimModel, a: SimModel, b: SimModel)
    requires
        model_wf(m0),
        wire_pass_post(m0, a),
        wire_pass_post(m0, b),
    ensures
        a == b,
{
    assert forall|p: int| 0 <= p < a.wire_states.len() implies a.wire_states[p]
        == b.wire_states[p] by {
        if ws_covered(m0, p) {
            let i = choose|i: int|
                0 <= i < m0.wires.len() && (#[trigger] m0.wires[i]).state_offset.value <= p
                    < m0.wires[i].state_offset.value + atoms_of_width(m0.wires[i].width as int);
            let w = m0.wires[i];
            let off = w.state_offset.value as int;
            let cnt = atoms_of_width(w.width as int);
            assert(wire_wf(w, m0));
            assert(wire_slice_ok(m0, a, w));
            assert(wire_slice_ok(m0, b, w));
            assert forall|j: u32| j < 32 * cnt implies slice_bit(a.wire_states, off, cnt, j)
                == #[trigger] slice_bit(b.wire_states, off, cnt, j) by {
                assert(slice_bit(a.wire_states, off, cnt, j) == wire_target_bit(m0, w, j));
                assert(slice_bit(b.wire_states, off, cnt, j) == wire_target_bit(m0, w, j));
            }
            lemma_slice_bits_pin_atoms(a.wire_states, b.wire_states, off, cnt);
            assert(off <= p < off + cnt);
            assert(a.wire_states[off + (p - off)] == b.wire_states[off + (p - off)]);
        }
    }
    assert(a.wire_states =~= b.wire_states);
}

/// The component pass is a function: two runs from the same model agree.
pub proof fn lemma_comp_pass_unique(m0: SimModel, a: SimModel, b: SimModel)
    requires
        model_wf(m0),
        comp_pass_post(m0, a),
        comp_pass_post(m0, b),
    ensures
        a == b,
{
    assert forall|p: int| 0 <= p < a.output_states.len() implies a.output_states[p]
        == b.output_states[p] by {
        if os_covered(m0, p) {
            let i = choose|i: int|
                0 <= i < m0.components.len() && comp_output(
                    #[trigger] m0.components[i],
                ).state_offset.value <= p < comp_output(m0.components[i]).state_offset.value
                    + atoms_of_width(comp_output(m0.components[i]).width as int);
            let c = m0.components[i];
            let off = comp_output(c).state_offset.value as int;
            let cnt = atoms_of_width(comp_output(c).width as int);
            assert(component_wf(c, m0));
            assert(comp_slice_ok(m0, a, c));
            assert(comp_slice_ok(m0, b, c));
            let ins = lemma_inputs_exist(m0, c);
            lemma_read_of_is_read(a.output_states, off, cnt);
            lemma_read_of_is_read(b.output_states, off, cnt);
            let sa = read_of(a.output_states, off, cnt);
            let sb = read_of(b.output_states, off, cnt);
            assert(comp_result_matches(m0, c, ins, sa));
            assert(comp_result_matches(m0, c, ins, sb));
            lemma_comp_result_unique(m0, c, ins, sa, sb);
            assert forall|j: u32| j < 32 * cnt implies slice_bit(a.output_states, off, cnt, j)
                == #[trigger] slice_bit(b.output_states, off, cnt, j) by {
                assert(slice_bit(a.output_states, off, cnt, j) == ls_bit(sa, j));
                assert(slice_bit(b.output_states, off, cnt, j) == ls_bit(sb, j));
            }
            lemma_slice_bits_pin_atoms(a.output_states, b.output_states, off, cnt);
            assert(off <= p < off + cnt);
            assert(a.output_states[off + (p - off)] == b.output_states[off + (p - off)]);
        }
    }
    assert(a.output_states =~= b.output_states);
}

/// One sweep is a function: its result state and flags are determined by
/// the state it starts from.
pub proof fn lemma_sweep_unique(
    m0: SimModel,
    a: SimModel,
    wca: bool,
    cca: bool,
    b: SimModel,
    wcb: bool,
    ccb: bool,
)
    requires
        model_wf(m0),
        sweep_post(m0, a, wca, cca),
        sweep_post(m0, b, wcb, ccb),
    ensures
        a == b,
        wca == wcb,
        cca == ccb,
{
    let m1a = choose|m1: SimModel|
        {
            &&& #[trigger] wire_pass_post(m0, m1)
            &&& comp_pass_post(m1, a)
            &&& wca == (m1.wire_states != m0.wire_states)
            &&& cca == (a.output_states != m1.output_states)
        };
    let m1b = choose|m1: SimModel|
        {
            &&& #[trigger] wire_pass_post(m0, m1)
            &&& comp_pass_post(m1, b)
            &&& wcb == (m1.wire_states != m0.wire_states)
            &&& ccb == (b.output_states != m1.output_states)
        };
    lemma_wire_pass_unique(m0, m1a, m1b);
    lemma_wf_pass(m0, m1a);
    lemma_comp_pass_unique(m1a, a, b);
}

/// A wire pass keeps the model well formed.
pub proof fn lemma_wf_pass(m0: SimModel, m1: SimModel)
    requires
        model_wf(m0),
        wire_pass_post(m0, m1) || comp_pass_post(m0, m1),
    ensures
        model_wf(m1),
{
    assert forall|i: int| 0 <= i < m1.wires.len() implies wire_wf(#[trigger] m1.wires[i], m1) by {
        assert(wire_wf(m0.wires[i], m0));
    }
    assert forall|i: int| 0 <= i < m1.wire_drivers.len() implies driver_wf(
        #[trigger] m1.wire_drivers[i],
        m1,
    ) by {
        assert(driver_wf(m0.wire_drivers[i], m0));
    }
    assert forall|i: int| 0 <= i < m1.components.len() implies component_wf(
        #[trigger] m1.components[i],
        m1,
    ) by {
        assert(component_wf(m0.components[i], m0));
        assert forall|k: int| 0 <= k < m1.components[i].input_count implies input_wf(
            #[trigger] m1.inputs[m1.components[i].first_input.value + k],
            m1,
        ) by {
            assert(input_wf(m0.inputs[m0.components[i].first_input.value + k], m0));
        }
    }
}

/// Width masking: after a wire pass, every stored wire-state bit beyond its
/// wire's width is high impedance with both lanes zero, so bits past the
/// width never carry information into later passes or observations.
pub proof fn lemma_wire_pass_masks(m0: SimModel, m1: SimModel)
    requires
        model_wf(m0),
        wire_pass_post(m0, m1),
    ensures
        forall|i: int, j: u32|
            0 <= i < m0.wires.len() && m0.wires[i].width <= j < 32 * atoms_of_width(
                m0.wires[i].width as int,
            ) ==> #[trigger] slice_bit(
                m1.wire_states,
                m0.wires[i].state_offset.value as int,
                atoms_of_width(m0.wires[i].width as int),
                j,
            ) == LogicBitState::HighZ,
{
    assert forall|i: int, j: u32|
        0 <= i < m0.wires.len() && m0.wires[i].width <= j < 32 * atoms_of_width(
            m0.wires[i].width as int,
        ) implies #[trigger] slice_bit(
        m1.wire_states,
        m0.wires[i].state_offset.value as int,
        atoms_of_width(m0.wires[i].width as int),
        j,
    ) == LogicBitState::HighZ by {
        assert(wire_slice_ok(m0, m1, m0.wires[i]));
        assert(wire_target_bit(m0, m0.wires[i], j) == LogicBitState::HighZ);
    }
}

/// Width masking: after a component pass, every stored output bit beyond
/// its output's width is high impedance.
pub proof fn lemma_comp_pass_masks(m0: SimModel, m1: SimModel)
    requires
        model_wf(m0),
        comp_pass_post(m0, m1),
    ensures
        forall|i: int, j: u32|
            0 <= i < m0.components.len() && comp_output(m0.components[i]).width <= j < 32
                * atoms_of_width(comp_output(m0.components[i]).width as int) ==> #[trigger] slice_bit(
                m1.output_states,
                comp_output(m0.components[i]).state_offset.value as int,
                atoms_of_width(comp_output(m0.components[i]).width as int),
                j,
            ) == LogicBitState::HighZ,
{
    assert forall|i: int, j: u32|
        0 <= i < m0.components.len() && comp_output(m0.components[i]).width <= j < 32
            * atoms_of_width(comp_output(m0.components[i]).width as int) implies #[trigger] slice_bit(
        m1.output_states,
        comp_output(m0.components[i]).state_offset.value as int,
        atoms_of_width(comp_output(m0.components[i]).width as int),
        j,
    ) == LogicBitState::HighZ by {
        let c = m0.components[i];
        let off = comp_output(c).state_offset.value as int;
        let cnt = atoms_of_width(comp_output(c).width as int);
        assert(component_wf(c, m0));
        assert(comp_slice_ok(m0, m1, c));
        let ins = lemma_inputs_exist(m0, c);
        lemma_read_of_is_read(m1.output_states, off, cnt);
        let s = read_of(m1.output_states, off, cnt);
        assert(comp_result_matches(m0, c, ins, s));
        assert(masked_above(s, comp_output(c).width as int));
        assert(ls_bit(s, j) == slice_bit(m1.output_states, off, cnt, j));
        assert(j < 256) by (nonlinear_arith)
            requires
                j < 32 * cnt,
                cnt == ((comp_output(c).width as int) + 31) / 32,
                1 <= comp_output(c).width <= 256,
        ;
    }
}

/// The bit each merge participant contributes: index 0 is the base drive,
/// index `k + 1` is driver source `k`.
pub open spec fn participant_bit(m: SimModel, w: Wire, k: int, j: u32) -> LogicBitState {
    if k == 0 {
        drive_bit(m, w, j)
    } else {
        source_bit(m, wire_sources(m, w)[k - 1], j)
    }
}

/// A conflict never goes away as more drivers merge.
proof fn lemma_conflict_monotone(m: SimModel, w: Wire, n1: int, n2: int, j: u32)
    requires
        0 <= n1 <= n2,
        merge_conflict_bit(m, w, n1, j),
    ensures
        merge_conflict_bit(m, w, n2, j),
    decreases n2 - n1,
{
    if n2 > n1 {
        lemma_conflict_monotone(m, w, n1, n2 - 1, j);
    }
}

/// Under X-free participants, the conflict-free merge of the first `n`
/// sources is high impedance or the common value of every valid
/// participant.
proof fn lemma_merge_shape(m: SimModel, w: Wire, n: int, j: u32)
    requires
        0 <= n <= wire_sources(m, w).len(),
        forall|k: int| 0 <= k <= n ==> #[trigger] participant_bit(m, w, k, j)
            != LogicBitState::Undefined,
        !merge_conflict_bit(m, w, n, j),
    ensures
        merged_bit(m, w, n, j) != LogicBitState::Undefined,
        forall|k: int|
            0 <= k <= n && lbs_valid_bit(#[trigger] participant_bit(m, w, k, j))
                ==> participant_bit(m, w, k, j) == merged_bit(m, w, n, j),
    decreases n,
{
    if n == 0 {
        assert(merged_bit(m, w, 0, j) == participant_bit(m, w, 0, j));
    } else {
        lemma_merge_shape(m, w, n - 1, j);
        let prev = merged_bit(m, w, n - 1, j);
        let b = participant_bit(m, w, n, j);
        assert(b == source_bit(m, wire_sources(m, w)[n - 1], j));
        assert(!conflict_step(prev, b));
        assert forall|k: int|
            0 <= k <= n && lbs_valid_bit(#[trigger] participant_bit(m, w, k, j)) implies (
        participant_bit(m, w, k, j) == merged_bit(m, w, n, j)) by {
            if k < n {
                assert(participant_bit(m, w, k, j) == prev);
            }
        }
    }
}

/// Conflict detection, exactly: when no participant bit is undefined, a
/// wire conflicts exactly when two participants drive valid, differing
/// levels onto the same bit within the width.
pub proof fn lemma_conflict_detection(m: SimModel, w: Wire)
    requires
        forall|k: int, j: u32|
            0 <= k <= wire_sources(m, w).len() && j < w.width ==> #[trigger] participant_bit(
                m,
                w,
                k,
                j,
            ) != LogicBitState::Undefined,
    ensures
        wire_conflict(m, w) <==> exists|j: u32, k1: int, k2: int|
            {
                &&& j < w.width
                &&& 0 <= k1 < k2 <= wire_sources(m, w).len()
                &&& lbs_valid_bit(#[trigger] participant_bit(m, w, k1, j))
                &&& lbs_valid_bit(#[trigger] participant_bit(m, w, k2, j))
                &&& participant_bit(m, w, k1, j) != participant_bit(m, w, k2, j)
            },
{
    let n = wire_sources(m, w).len() as int;
    if wire_conflict(m, w) {
        let j = choose|j: u32| j < w.width && #[trigger] merge_conflict_bit(m, w, n, j);
        lemma_conflict_witnesses(m, w, n, j);
    }
    if exists|j: u32, k1: int, k2: int|
        {
            &&& j < w.width
            &&& 0 <= k1 < k2 <= wire_sources(m, w).len()
            &&& lbs_valid_bit(#[trigger] participant_bit(m, w, k1, j))
            &&& lbs_valid_bit(#[trigger] participant_bit(m, w, k2, j))
            &&& participant_bit(m, w, k1, j) != participant_bit(m, w, k2, j)
        } {
        let (j, k1, k2) = choose|j: u32, k1: int, k2: int|
            {
                &&& j < w.width
                &&& 0 <= k1 < k2 <= wire_sources(m, w).len()
                &&& lbs_valid_bit(#[trigger] participant_bit(m, w, k1, j))
                &&& lbs_valid_bit(#[trigger] participant_bit(m, w, k2, j))
                &&& participant_bit(m, w, k1, j) != participant_bit(m, w, k2, j)
            };
        if !merge_conflict_bit(m, w, k2, j) {
            lemma_merge_shape(m, w, k2 - 1, j);
            assert(participant_bit(m, w, k1, j) == merged_bit(m, w, k2 - 1, j));
            assert(conflict_step(merged_bit(m, w, k2 - 1, j), participant_bit(m, w, k2, j)));
            assert(merge_conflict_bit(m, w, k2, j));
        }
        lemma_conflict_monotone(m, w, k2, n, j);
        assert(wire_conflict(m, w));
    }
}

/// A detected conflict comes from two valid, differing participants.
proof fn lemma_conflict_witnesses(m: SimModel, w: Wire, n: int, j: u32)
    requires
        0 <= n <= wire_sources(m, w).len(),
        j < w.width,
        merge_conflict_bit(m, w, n, j),
        forall|k: int, q: u32|
            0 <= k <= wire_sources(m, w).len() && q < w.width ==> #[trigger] participant_bit(
                m,
                w,
                k,
                q,
            ) != LogicBitState::Undefined,
    ensures
        exists|q: u32, k1: int, k2: int|
            {
                &&& q < w.width
                &&& 0 <= k1 < k2 <= wire_sources(m, w).len()
                &&& lbs_valid_bit(#[trigger] participant_bit(m, w, k1, q))
                &&& lbs_valid_bit(#[trigger] participant_bit(m, w, k2, q))
                &&& participant_bit(m, w, k1, q) != participant_bit(m, w, k2, q)
            },
    decreases n,
{
    if merge_conflict_bit(m, w, n - 1, j) {
        lemma_conflict_witnesses(m, w, n - 1, j);
    } else {
        let prev = merged_bit(m, w, n - 1, j);
        let b = participant_bit(m, w, n, j);
        assert(conflict_step(prev, b));
        lemma_merge_shape(m, w, n - 1, j);
        let k1 = choose|k: int|
            0 <= k <= n - 1 && lbs_valid_bit(#[trigger] participant_bit(m, w, k, j))
                && participant_bit(m, w, k, j) == prev;
        assert(exists|k: int|
            0 <= k <= n - 1 && lbs_valid_bit(#[trigger] participant_bit(m, w, k, j))
                && participant_bit(m, w, k, j) == prev) by {
            lemma_merge_exists_valid(m, w, n - 1, j);
        }
        let k1b = choose|k: int|
            0 <= k <= n - 1 && lbs_valid_bit(#[trigger] participant_bit(m, w, k, j))
                && participant_bit(m, w, k, j) == prev;
        assert(participant_bit(m, w, k1b, j) != participant_bit(m, w, n, j));
        assert(lbs_valid_bit(participant_bit(m, w, n, j)));
    }
}

/// A valid conflict-free merge value is some participant's bit.
proof fn lemma_merge_exists_valid(m: SimModel, w: Wire, n: int, j: u32)
    requires
        0 <= n <= wire_sources(m, w).len(),
        !merge_conflict_bit(m, w, n, j),
        lbs_valid_bit(merged_bit(m, w, n, j)),
    ensures
        exists|k: int|
            0 <= k <= n && lbs_valid_bit(#[trigger] participant_bit(m, w, k, j))
                && participant_bit(m, w, k, j) == merged_bit(m, w, n, j),
    decreases n,
{
    if n == 0 {
        assert(participant_bit(m, w, 0, j) == merged_bit(m, w, 0, j));
    } else {
        let prev = merged_bit(m, w, n - 1, j);
        let b = participant_bit(m, w, n, j);
        if merged_bit(m, w, n, j) == b && lbs_valid_bit(b) {
            assert(0 <= n <= n && lbs_valid_bit(participant_bit(m, w, n, j)) && participant_bit(
                m,
                w,
                n,
                j,
            ) == merged_bit(m, w, n, j));
        } else {
            assert(merged_bit(m, w, n, j) == prev || merged_bit(m, w, n, j)
                == LogicBitState::Undefined || merged_bit(m, w, n, j) == b);
            lemma_merge_exists_valid(m, w, n - 1, j);
            let k = choose|k: int|
                0 <= k <= n - 1 && lbs_valid_bit(#[trigger] participant_bit(m, w, k, j))
                    && participant_bit(m, w, k, j) == prev;
            assert(participant_bit(m, w, k, j) == merged_bit(m, w, n, j));
        }
    }
}

/// The conflict list is exact: strictly increasing wire indices (so no wire
/// is reported twice), each a conflicting wire; and when it is not full it
/// lists every conflicting wire.
pub proof fn lemma_conflict_list_exact(m: SimModel, n: int)
    requires
        0 <= n <= m.wires.len(),
        m.wires.len() <= u32::MAX,
    ensures
        forall|a: int, b: int|
            0 <= a < b < conflicts_upto(m, n).len() ==> conflicts_upto(m, n)[a] < conflicts_upto(
                m,
                n,
            )[b],
        forall|a: int|
            0 <= a < conflicts_upto(m, n).len() ==> (#[trigger] conflicts_upto(m, n)[a]) < n
                && wire_conflict(m, m.wires[conflicts_upto(m, n)[a] as int]),
        conflicts_upto(m, n).len() < 256 ==> forall|i: int|
            0 <= i < n && wire_conflict(m, #[trigger] m.wires[i]) ==> conflicts_upto(
                m,
                n,
            ).contains(i as u32),
    decreases n,
{
    if n > 0 {
        lemma_conflict_list_exact(m, n - 1);
        let prev = conflicts_upto(m, n - 1);
        let cur = conflicts_upto(m, n);
        if wire_conflict(m, m.wires[n - 1]) && prev.len() < 256 {
            assert(cur == prev.push((n - 1) as u32));
            assert forall|a: int, b: int| 0 <= a < b < cur.len() implies cur[a] < cur[b] by {
                if b < prev.len() {
                    assert(cur[a] == prev[a] && cur[b] == prev[b]);
                } else {
                    assert(cur[b] == (n - 1) as u32);
                    assert(cur[a] == prev[a]);
                    assert(prev[a] < n - 1);
                }
            }
            assert forall|a: int| 0 <= a < cur.len() implies (#[trigger] cur[a]) < n
                && wire_conflict(m, m.wires[cur[a] as int]) by {
                if a < prev.len() {
                    assert(cur[a] == prev[a]);
                } else {
                    assert(cur[a] == (n - 1) as u32);
                }
            }
            assert forall|i: int|
                cur.len() < 256 && 0 <= i < n && wire_conflict(m, #[trigger] m.wires[i]) implies (
            cur.contains(i as u32)) by {
                if i < n - 1 {
                    assert(prev.contains(i as u32));
                    let q = choose|q: int| 0 <= q < prev.len() && prev[q] == i as u32;
                    assert(cur[q] == i as u32);
                } else {
                    assert(cur[cur.len() - 1] == i as u32);
                }
            }
        } else {
            assert(cur == prev);
            if cur.len() < 256 {
                assert(!(wire_conflict(m, m.wires[n - 1]) && prev.len() < 256));
                assert(!wire_conflict(m, m.wires[n - 1]));
                assert forall|i: int|
                    0 <= i < n && wire_conflict(m, #[trigger] m.wires[i]) implies cur.contains(
                    i as u32,
                ) by {
                    assert(i < n - 1);
                    assert(prev.contains(i as u32));
                }
            }
        }
    }
}

/// The conflict list length never shrinks as more wires are scanned.
proof fn lemma_conflicts_upto_monotone(m: SimModel, n1: int, n2: int)
    requires
        0 <= n1 <= n2,
    ensures
        conflicts_upto(m, n1).len() <= conflicts_upto(m, n2).len(),
    decreases n2 - n1,
{
    if n2 > n1 {
        lemma_conflicts_upto_monotone(m, n1, n2 - 1);
    }
}

/// The conflict list is empty exactly when no wire conflicts: a conflict is
/// reported if and only if one exists.
pub proof fn lemma_conflict_list_nonempty(m: SimModel)
    requires
        m.wires.len() <= u32::MAX,
    ensures
        conflict_list(m).len() > 0 <==> exists|i: int|
            0 <= i < m.wires.len() && wire_conflict(m, #[trigger] m.wires[i]),
{
    let n = m.wires.len() as int;
    if conflict_list(m).len() > 0 {
        lemma_conflict_list_exact(m, n);
        let id = conflict_list(m)[0];
        assert(0 <= id < m.wires.len() && wire_conflict(m, m.wires[id as int]));
    }
    if exists|i: int| 0 <= i < m.wires.len() && wire_conflict(m, #[trigger] m.wires[i]) {
        let i = choose|i: int| 0 <= i < m.wires.len() && wire_conflict(m, #[trigger] m.wires[i]);
        assert(conflicts_upto(m, i + 1).len() > 0);
        lemma_conflicts_upto_monotone(m, i + 1, n);
    }
}

} // verus!
