use gsim2::logic::{LogicBitState, LogicState};
use gsim2::{
    AddPorts, AndGatePorts, BufferPorts, CompareUnsignedLessThan, HorizontalAndGatePorts,
    HorizontalOrGatePorts, LeftShiftPorts, NegatePorts, NotGatePorts, OrGatePorts,
    SimulationRunResult, SimulatorBuilder, SubtractPorts, XorGatePorts,
};

#[test]
fn run() {
    let mut builder = SimulatorBuilder::new();
    let input_a = builder.add_wire(1).unwrap();
    let input_b = builder.add_wire(1).unwrap();
    let output = builder.add_wire(1).unwrap();
    let _gate = builder
        .add_component(AndGatePorts {
            inputs: &[input_a, input_b],
            output,
        })
        .unwrap();

    let mut sim = builder.build().unwrap();
    sim.set_wire_drive(input_a, &LogicState::from_bool(false)).unwrap();
    sim.set_wire_drive(input_b, &LogicState::from_bool(true)).unwrap();
    let result = sim.run(3);
    assert!(matches!(result, SimulationRunResult::Settled));

    let input_a_state = sim.get_wire_state(input_a).unwrap();
    let input_b_state = sim.get_wire_state(input_b).unwrap();
    let output_state = sim.get_wire_state(output).unwrap();

    assert!(input_a_state.eq(&LogicState::from_bool(false), 1));
    assert!(input_b_state.eq(&LogicState::from_bool(true), 1));
    assert!(output_state.eq(&LogicState::from_bool(false), 1));
}

#[test]
fn undefined_propagates_through_xor() {
    let mut builder = SimulatorBuilder::new();
    let input_a = builder.add_wire(1).unwrap();
    let input_b = builder.add_wire(1).unwrap();
    let output = builder.add_wire(1).unwrap();
    builder
        .add_component(XorGatePorts {
            inputs: &[input_a, input_b],
            output,
        })
        .unwrap();

    let mut sim = builder.build().unwrap();
    sim.set_wire_drive(input_a, &LogicState::undefined()).unwrap();
    sim.set_wire_drive(input_b, &LogicState::from_bool(false)).unwrap();
    assert!(matches!(sim.run(3), SimulationRunResult::Settled));
    let out = sim.get_wire_state(output).unwrap();
    assert_eq!(out.get_bit_state(0), LogicBitState::Undefined);
}

#[test]
fn tri_state_merge_without_conflict() {
    let mut builder = SimulatorBuilder::new();
    let in_a = builder.add_wire(1).unwrap();
    let en_a = builder.add_wire(1).unwrap();
    let in_b = builder.add_wire(1).unwrap();
    let en_b = builder.add_wire(1).unwrap();
    let shared = builder.add_wire(1).unwrap();
    builder
        .add_component(BufferPorts {
            input: in_a,
            enable: en_a,
            output: shared,
        })
        .unwrap();
    builder
        .add_component(BufferPorts {
            input: in_b,
            enable: en_b,
            output: shared,
        })
        .unwrap();

    let mut sim = builder.build().unwrap();
    sim.set_wire_drive(in_a, &LogicState::from_bool(true)).unwrap();
    sim.set_wire_drive(en_a, &LogicState::from_bool(true)).unwrap();
    sim.set_wire_drive(in_b, &LogicState::from_bool(false)).unwrap();
    sim.set_wire_drive(en_b, &LogicState::from_bool(false)).unwrap();
    assert!(matches!(sim.run(4), SimulationRunResult::Settled));
    let out = sim.get_wire_state(shared).unwrap();
    assert_eq!(out.get_bit_state(0), LogicBitState::Logic1);
}

#[test]
fn conflicting_buffers_report_the_wire_once() {
    let mut builder = SimulatorBuilder::new();
    let in_a = builder.add_wire(1).unwrap();
    let en_a = builder.add_wire(1).unwrap();
    let in_b = builder.add_wire(1).unwrap();
    let en_b = builder.add_wire(1).unwrap();
    let shared = builder.add_wire(1).unwrap();
    builder
        .add_component(BufferPorts {
            input: in_a,
            enable: en_a,
            output: shared,
        })
        .unwrap();
    builder
        .add_component(BufferPorts {
            input: in_b,
            enable: en_b,
            output: shared,
        })
        .unwrap();

    let mut sim = builder.build().unwrap();
    sim.set_wire_drive(in_a, &LogicState::from_bool(false)).unwrap();
    sim.set_wire_drive(en_a, &LogicState::from_bool(true)).unwrap();
    sim.set_wire_drive(in_b, &LogicState::from_bool(true)).unwrap();
    sim.set_wire_drive(en_b, &LogicState::from_bool(true)).unwrap();
    match sim.run(10) {
        SimulationRunResult::Conflict { conflicting_wires } => {
            assert_eq!(conflicting_wires.len(), 1);
            assert_eq!(conflicting_wires[0].0.value, shared.0.value);
        }
        other => panic!("expected a conflict, got {other:?}"),
    }
}

#[test]
fn eight_bit_addition_wraps() {
    let mut builder = SimulatorBuilder::new();
    let a = builder.add_wire(8).unwrap();
    let b = builder.add_wire(8).unwrap();
    let out = builder.add_wire(8).unwrap();
    builder
        .add_component(AddPorts {
            input_lhs: a,
            input_rhs: b,
            output: out,
        })
        .unwrap();

    let mut sim = builder.build().unwrap();
    sim.set_wire_drive(a, &LogicState::from_int(200)).unwrap();
    sim.set_wire_drive(b, &LogicState::from_int(100)).unwrap();
    assert!(matches!(sim.run(3), SimulationRunResult::Settled));
    let out_state = sim.get_wire_state(out).unwrap();
    assert!(out_state.eq(&LogicState::from_int(44), 8));
}

#[test]
fn oscillator_exhausts_the_step_budget() {
    let mut builder = SimulatorBuilder::new();
    let w = builder.add_wire(1).unwrap();
    builder.add_component(NotGatePorts { input: w, output: w }).unwrap();

    let mut sim = builder.build().unwrap();
    assert!(matches!(sim.run(10), SimulationRunResult::MaxStepsReached));
}

#[test]
fn rerun_after_settling_changes_nothing() {
    let mut builder = SimulatorBuilder::new();
    let a = builder.add_wire(4).unwrap();
    let b = builder.add_wire(4).unwrap();
    let out = builder.add_wire(4).unwrap();
    builder
        .add_component(OrGatePorts {
            inputs: &[a, b],
            output: out,
        })
        .unwrap();

    let mut sim = builder.build().unwrap();
    sim.set_wire_drive(a, &LogicState::from_int(0b1010)).unwrap();
    sim.set_wire_drive(b, &LogicState::from_int(0b0110)).unwrap();
    assert!(matches!(sim.run(5), SimulationRunResult::Settled));
    let first = sim.get_wire_state(out).unwrap();
    assert!(matches!(sim.run(5), SimulationRunResult::Settled));
    let second = sim.get_wire_state(out).unwrap();
    assert!(first.eq(&second, 4));
    assert!(first.eq(&LogicState::from_int(0b1110), 4));
}

#[test]
fn identical_builds_run_identically() {
    let mut outputs = Vec::new();
    for _ in 0..2 {
        let mut builder = SimulatorBuilder::new();
        let a = builder.add_wire(8).unwrap();
        let b = builder.add_wire(8).unwrap();
        let out = builder.add_wire(8).unwrap();
        builder
            .add_component(SubtractPorts {
                input_lhs: a,
                input_rhs: b,
                output: out,
            })
            .unwrap();
        let mut sim = builder.build().unwrap();
        sim.set_wire_drive(a, &LogicState::from_int(5)).unwrap();
        sim.set_wire_drive(b, &LogicState::from_int(200)).unwrap();
        assert!(matches!(sim.run(4), SimulationRunResult::Settled));
        outputs.push(sim.get_wire_state(out).unwrap().to_string(8));
    }
    assert_eq!(outputs[0], outputs[1]);
    // 5 - 200 wraps modulo 256.
    assert_eq!(outputs[0], LogicState::from_int(61).to_string(8));
}

#[test]
fn reset_is_idempotent() {
    let mut builder = SimulatorBuilder::new();
    let a = builder.add_wire(2).unwrap();
    let out = builder.add_wire(2).unwrap();
    builder.add_component(NotGatePorts { input: a, output: out }).unwrap();

    let mut sim = builder.build().unwrap();
    sim.set_wire_drive(a, &LogicState::from_int(0b01)).unwrap();
    assert!(matches!(sim.run(4), SimulationRunResult::Settled));

    sim.reset();
    let once_out = sim.get_wire_state(out).unwrap().to_string(2);
    let once_drive = sim.get_wire_drive(a).unwrap().to_string(2);
    sim.reset();
    sim.reset();
    let twice_out = sim.get_wire_state(out).unwrap().to_string(2);
    let twice_drive = sim.get_wire_drive(a).unwrap().to_string(2);
    assert_eq!(once_out, twice_out);
    assert_eq!(once_drive, twice_drive);
    // The drives persist across resets; the states float again.
    assert_eq!(once_drive, "01");
    assert_eq!(once_out, "ZZ");
}

#[test]
fn negation_is_twos_complement() {
    let mut builder = SimulatorBuilder::new();
    let a = builder.add_wire(8).unwrap();
    let out = builder.add_wire(8).unwrap();
    builder.add_component(NegatePorts { input: a, output: out }).unwrap();

    let mut sim = builder.build().unwrap();
    sim.set_wire_drive(a, &LogicState::from_int(5)).unwrap();
    assert!(matches!(sim.run(3), SimulationRunResult::Settled));
    assert!(sim.get_wire_state(out).unwrap().eq(&LogicState::from_int(251), 8));
}

#[test]
fn left_shift_moves_bits_up() {
    let mut builder = SimulatorBuilder::new();
    let a = builder.add_wire(8).unwrap();
    let amount = builder.add_wire(3).unwrap();
    let out = builder.add_wire(8).unwrap();
    builder
        .add_component(LeftShiftPorts {
            input_lhs: a,
            input_rhs: amount,
            output: out,
        })
        .unwrap();

    let mut sim = builder.build().unwrap();
    sim.set_wire_drive(a, &LogicState::from_int(5)).unwrap();
    sim.set_wire_drive(amount, &LogicState::from_int(2)).unwrap();
    assert!(matches!(sim.run(3), SimulationRunResult::Settled));
    assert!(sim.get_wire_state(out).unwrap().eq(&LogicState::from_int(20), 8));
}

#[test]
fn horizontal_reductions() {
    let mut builder = SimulatorBuilder::new();
    let all_ones = builder.add_wire(4).unwrap();
    let zeros = builder.add_wire(4).unwrap();
    let and_out = builder.add_wire(1).unwrap();
    let or_out = builder.add_wire(1).unwrap();
    builder
        .add_component(HorizontalAndGatePorts {
            input: all_ones,
            output: and_out,
        })
        .unwrap();
    builder
        .add_component(HorizontalOrGatePorts {
            input: zeros,
            output: or_out,
        })
        .unwrap();

    let mut sim = builder.build().unwrap();
    sim.set_wire_drive(all_ones, &LogicState::from_int(0xF)).unwrap();
    sim.set_wire_drive(zeros, &LogicState::from_int(0)).unwrap();
    assert!(matches!(sim.run(4), SimulationRunResult::Settled));
    assert_eq!(sim.get_wire_state(and_out).unwrap().to_bool(), Some(true));
    assert_eq!(sim.get_wire_state(or_out).unwrap().to_bool(), Some(false));
}

#[test]
fn unsigned_comparison() {
    let mut builder = SimulatorBuilder::new();
    let a = builder.add_wire(4).unwrap();
    let b = builder.add_wire(4).unwrap();
    let out = builder.add_wire(1).unwrap();
    builder
        .add_component(CompareUnsignedLessThan {
            input_lhs: a,
            input_rhs: b,
            output: out,
        })
        .unwrap();

    let mut sim = builder.build().unwrap();
    sim.set_wire_drive(a, &LogicState::from_int(3)).unwrap();
    sim.set_wire_drive(b, &LogicState::from_int(5)).unwrap();
    assert!(matches!(sim.run(3), SimulationRunResult::Settled));
    assert_eq!(sim.get_wire_state(out).unwrap().to_bool(), Some(true));
}

#[test]
fn undriven_wire_keeps_its_base_drive() {
    let mut builder = SimulatorBuilder::new();
    let w = builder.add_wire(2).unwrap();
    let mut sim = builder.build().unwrap();
    assert!(matches!(sim.run(2), SimulationRunResult::Settled));
    assert_eq!(sim.get_wire_state(w).unwrap().to_string(2), "ZZ");
    sim.set_wire_drive(w, &LogicState::from_int(0b10)).unwrap();
    assert!(matches!(sim.run(2), SimulationRunResult::Settled));
    assert_eq!(sim.get_wire_state(w).unwrap().to_string(2), "10");
}

#[test]
fn builder_errors() {
    let mut builder = SimulatorBuilder::new();
    assert!(builder.add_wire(0).is_err());
    assert!(builder.add_wire(257).is_err());
    let w = builder.add_wire(1).unwrap();
    let bogus = gsim2::WireId(gsim2::buffer::Index::invalid());
    assert!(builder.set_wire_drive(bogus, &LogicState::from_bool(true)).is_err());
    assert!(builder.get_wire_drive(bogus).is_err());
    let r = builder.add_component(NotGatePorts { input: bogus, output: w });
    assert!(r.is_err());
    let r = builder.add_component(NotGatePorts { input: w, output: bogus });
    assert!(r.is_err());
}

#[test]
fn too_many_inputs_is_rejected() {
    let mut builder = SimulatorBuilder::new();
    let out = builder.add_wire(1).unwrap();
    let w = builder.add_wire(1).unwrap();
    let inputs = vec![w; 256];
    let r = builder.add_component(AndGatePorts {
        inputs: &inputs,
        output: out,
    });
    assert!(matches!(r, Err(gsim2::AddComponentError::TooManyInputs)));
}

#[test]
fn wire_drive_round_trip() {
    let mut builder = SimulatorBuilder::new();
    let w = builder.add_wire(4).unwrap();
    let drive = LogicState::parse("1X0Z").unwrap();
    builder.set_wire_drive(w, &drive).unwrap();
    let back = builder.get_wire_drive(w).unwrap();
    assert_eq!(back.to_string(4), "1X0Z");
}

#[test]
fn conflict_list_caps_at_256_wires() {
    let mut builder = SimulatorBuilder::new();
    let zero = builder.add_wire(1).unwrap();
    let one = builder.add_wire(1).unwrap();
    let enable = builder.add_wire(1).unwrap();
    let mut shared_wires = Vec::new();
    for _ in 0..300 {
        let shared = builder.add_wire(1).unwrap();
        builder
            .add_component(BufferPorts {
                input: zero,
                enable,
                output: shared,
            })
            .unwrap();
        builder
            .add_component(BufferPorts {
                input: one,
                enable,
                output: shared,
            })
            .unwrap();
        shared_wires.push(shared);
    }
    let mut sim = builder.build().unwrap();
    sim.set_wire_drive(zero, &LogicState::from_bool(false)).unwrap();
    sim.set_wire_drive(one, &LogicState::from_bool(true)).unwrap();
    sim.set_wire_drive(enable, &LogicState::from_bool(true)).unwrap();
    match sim.run(10) {
        SimulationRunResult::Conflict { conflicting_wires } => {
            // The diagnostic list is capped; each reported wire appears once.
            assert_eq!(conflicting_wires.len(), 256);
            for pair in conflicting_wires.windows(2) {
                assert!(pair[0].0.value < pair[1].0.value);
            }
        }
        other => panic!("expected a conflict, got {other:?}"),
    }
}
