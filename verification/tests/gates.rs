use gsim2::logic::{LogicBitState, LogicState};
use gsim2::{
    ArithmeticRightShiftPorts, BufferPorts, CompareEqual, CompareSignedLessThan,
    LogicalRightShiftPorts, NandGatePorts, NorGatePorts, SimulationRunResult, SimulatorBuilder,
    XnorGatePorts,
};

fn run_binary_gate<F>(add_gate: F, width: u32, a_drive: &LogicState, b_drive: &LogicState) -> String
where
    F: FnOnce(&mut SimulatorBuilder, gsim2::WireId, gsim2::WireId, gsim2::WireId),
{
    let mut builder = SimulatorBuilder::new();
    let a = builder.add_wire(width).unwrap();
    let b = builder.add_wire(width).unwrap();
    let out = builder.add_wire(width).unwrap();
    add_gate(&mut builder, a, b, out);
    let mut sim = builder.build().unwrap();
    sim.set_wire_drive(a, a_drive).unwrap();
    sim.set_wire_drive(b, b_drive).unwrap();
    assert!(matches!(sim.run(5), SimulationRunResult::Settled));
    sim.get_wire_state(out).unwrap().to_string(width)
}

#[test]
fn nand_gate_truth_table() {
    let out = run_binary_gate(
        |builder, a, b, out| {
            builder
                .add_component(NandGatePorts {
                    inputs: &[a, b],
                    output: out,
                })
                .unwrap();
        },
        4,
        &LogicState::from_int(0b0011),
        &LogicState::from_int(0b0101),
    );
    assert_eq!(out, "1110");
}

#[test]
fn nor_gate_truth_table() {
    let out = run_binary_gate(
        |builder, a, b, out| {
            builder
                .add_component(NorGatePorts {
                    inputs: &[a, b],
                    output: out,
                })
                .unwrap();
        },
        4,
        &LogicState::from_int(0b0011),
        &LogicState::from_int(0b0101),
    );
    assert_eq!(out, "1000");
}

#[test]
fn xnor_gate_truth_table() {
    let out = run_binary_gate(
        |builder, a, b, out| {
            builder
                .add_component(XnorGatePorts {
                    inputs: &[a, b],
                    output: out,
                })
                .unwrap();
        },
        4,
        &LogicState::from_int(0b0011),
        &LogicState::from_int(0b0101),
    );
    assert_eq!(out, "1001");
}

#[test]
fn wide_gate_folds_three_inputs() {
    let mut builder = SimulatorBuilder::new();
    let a = builder.add_wire(2).unwrap();
    let b = builder.add_wire(2).unwrap();
    let c = builder.add_wire(2).unwrap();
    let out = builder.add_wire(2).unwrap();
    builder
        .add_component(gsim2::AndGatePorts {
            inputs: &[a, b, c],
            output: out,
        })
        .unwrap();
    let mut sim = builder.build().unwrap();
    sim.set_wire_drive(a, &LogicState::from_int(0b11)).unwrap();
    sim.set_wire_drive(b, &LogicState::from_int(0b01)).unwrap();
    sim.set_wire_drive(c, &LogicState::from_int(0b11)).unwrap();
    assert!(matches!(sim.run(4), SimulationRunResult::Settled));
    assert_eq!(sim.get_wire_state(out).unwrap().to_string(2), "01");
}

#[test]
fn wide_addition_carries_across_atoms() {
    let mut builder = SimulatorBuilder::new();
    let a = builder.add_wire(64).unwrap();
    let b = builder.add_wire(64).unwrap();
    let out = builder.add_wire(64).unwrap();
    builder
        .add_component(gsim2::AddPorts {
            input_lhs: a,
            input_rhs: b,
            output: out,
        })
        .unwrap();
    let mut sim = builder.build().unwrap();
    // 0x00000000_FFFFFFFF + 1 carries into the second atom.
    sim.set_wire_drive(a, &LogicState::from_big_int(&[0xFFFF_FFFF, 0]).unwrap()).unwrap();
    sim.set_wire_drive(b, &LogicState::from_big_int(&[1, 0]).unwrap()).unwrap();
    assert!(matches!(sim.run(4), SimulationRunResult::Settled));
    let out_state = sim.get_wire_state(out).unwrap();
    assert_eq!(out_state.to_big_int(64), Ok(vec![0, 1]));
}

#[test]
fn logical_and_arithmetic_right_shift() {
    let mut builder = SimulatorBuilder::new();
    let a = builder.add_wire(8).unwrap();
    let amount = builder.add_wire(3).unwrap();
    let lrsh_out = builder.add_wire(8).unwrap();
    let arsh_out = builder.add_wire(8).unwrap();
    builder
        .add_component(LogicalRightShiftPorts {
            input_lhs: a,
            input_rhs: amount,
            output: lrsh_out,
        })
        .unwrap();
    builder
        .add_component(ArithmeticRightShiftPorts {
            input_lhs: a,
            input_rhs: amount,
            output: arsh_out,
        })
        .unwrap();
    let mut sim = builder.build().unwrap();
    sim.set_wire_drive(a, &LogicState::from_int(0b1001_0000)).unwrap();
    sim.set_wire_drive(amount, &LogicState::from_int(2)).unwrap();
    assert!(matches!(sim.run(4), SimulationRunResult::Settled));
    assert_eq!(sim.get_wire_state(lrsh_out).unwrap().to_string(8), "00100100");
    assert_eq!(sim.get_wire_state(arsh_out).unwrap().to_string(8), "11100100");
}

#[test]
fn equality_and_signed_comparison() {
    let mut builder = SimulatorBuilder::new();
    let a = builder.add_wire(4).unwrap();
    let b = builder.add_wire(4).unwrap();
    let eq_out = builder.add_wire(1).unwrap();
    let slt_out = builder.add_wire(1).unwrap();
    builder
        .add_component(CompareEqual {
            input_lhs: a,
            input_rhs: b,
            output: eq_out,
        })
        .unwrap();
    builder
        .add_component(CompareSignedLessThan {
            input_lhs: a,
            input_rhs: b,
            output: slt_out,
        })
        .unwrap();
    let mut sim = builder.build().unwrap();
    // 0b1111 is -1 in 4-bit two's complement, 0b0001 is 1.
    sim.set_wire_drive(a, &LogicState::from_int(0b1111)).unwrap();
    sim.set_wire_drive(b, &LogicState::from_int(0b0001)).unwrap();
    assert!(matches!(sim.run(4), SimulationRunResult::Settled));
    assert_eq!(sim.get_wire_state(eq_out).unwrap().to_bool(), Some(false));
    assert_eq!(sim.get_wire_state(slt_out).unwrap().to_bool(), Some(true));
}

#[test]
fn three_drivers_walk_the_list() {
    let mut builder = SimulatorBuilder::new();
    let shared = builder.add_wire(1).unwrap();
    let mut enables = Vec::new();
    for _ in 0..3 {
        let input = builder.add_wire(1).unwrap();
        let enable = builder.add_wire(1).unwrap();
        builder
            .add_component(BufferPorts {
                input,
                enable,
                output: shared,
            })
            .unwrap();
        enables.push((input, enable));
    }
    let mut sim = builder.build().unwrap();
    // Only the third driver is enabled; the first two float.
    for (k, (input, enable)) in enables.iter().enumerate() {
        sim.set_wire_drive(*input, &LogicState::from_bool(true)).unwrap();
        sim.set_wire_drive(*enable, &LogicState::from_bool(k == 2)).unwrap();
    }
    assert!(matches!(sim.run(5), SimulationRunResult::Settled));
    assert_eq!(sim.get_wire_state(shared).unwrap().get_bit_state(0), LogicBitState::Logic1);
}

#[test]
fn bits_past_the_width_stay_masked() {
    let mut builder = SimulatorBuilder::new();
    let w = builder.add_wire(1).unwrap();
    let mut sim = builder.build().unwrap();
    // The raw drive keeps its upper bits, but the computed state is masked
    // to the wire's width.
    sim.set_wire_drive(w, &LogicState::from_int(0b11)).unwrap();
    assert!(matches!(sim.run(2), SimulationRunResult::Settled));
    assert_eq!(sim.get_wire_drive(w).unwrap().get_bit_state(1), LogicBitState::Logic1);
    let state = sim.get_wire_state(w).unwrap();
    assert_eq!(state.get_bit_state(0), LogicBitState::Logic1);
    assert_eq!(state.get_bit_state(1), LogicBitState::HighZ);
}
