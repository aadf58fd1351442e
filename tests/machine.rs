use hdl::graph::{
    create_subchip, ChipInput, ChipOutput, ChipOutputType, ChipOutputWrapper, Circuit, Input, Nand, Peer,
    UserInput,
};
use hdl::machine::{Machine, Output};
use hdl::structured::NandInputs;

fn cells(c: &mut Circuit, n: usize) -> (Vec<Input>, Vec<usize>) {
    let mut wires = Vec::new();
    let mut idx = Vec::new();
    for _ in 0..n {
        let x = UserInput::new(c);
        if let Input::UserInput(k) = x {
            idx.push(k);
        }
        wires.push(x);
    }
    (wires, idx)
}

/// A chip with one NAND of its two inputs as its output.
fn testchip(c: &mut Circuit, in1: Input, in2: Input) -> usize {
    let chip = c.new_chip("Testchip");
    let a = ChipInput::new(c, in1, "in1");
    let b = ChipInput::new(c, in2, "in2");
    let nand = Nand::new(c, Input::ChipInput(a), Input::ChipInput(b));
    let o = ChipOutput::new(c, ChipOutputType::NandOutput(nand));
    ChipOutputWrapper::new(c, o, chip)
}

#[test]
fn when_a_chip_is_defined_it_can_be_processed_via_machine() {
    let mut c = Circuit::new();
    let (w, idx) = cells(&mut c, 2);
    let out = testchip(&mut c, w[0], w[1]);
    let mut machine = Machine::new(c, idx, vec![out]);
    assert_eq!(machine.process(vec![true, false]), vec![true]);
    assert_eq!(machine.process(vec![true, true]), vec![false]);
}

#[test]
fn when_a_chip_is_defined_with_vector_inputs_it_can_be_processed_via_machine() {
    // inputs: num1: [T; 2], num2: [T; 2], bit: T
    let mut c = Circuit::new();
    let (w, idx) = cells(&mut c, 5);
    let chip = c.new_chip("Testchip");
    let p: Vec<Input> = ["num1", "num1", "num2", "num2", "bit"]
        .iter()
        .zip(w.iter())
        .map(|(l, x)| Input::ChipInput(ChipInput::new(&mut c, *x, l)))
        .collect();
    let bitwise_nand = [Nand::new(&mut c, p[0], p[2]), Nand::new(&mut c, p[1], p[3])];
    let outs: Vec<usize> = bitwise_nand
        .iter()
        .map(|n| {
            let m = Nand::new(&mut c, p[4], Input::NandInput(*n));
            let o = ChipOutput::new(&mut c, ChipOutputType::NandOutput(m));
            ChipOutputWrapper::new(&mut c, o, chip)
        })
        .collect();
    let mut machine = Machine::new(c, idx, outs);
    assert_eq!(machine.process(vec![true, true, true, false, true]), vec![true, false]);
    assert_eq!(machine.process(vec![true, true, true, false, false]), vec![true, true]);
}

#[test]
fn when_a_nested_chip_is_defined_it_can_be_processed_via_machine() {
    let mut c = Circuit::new();
    let (w, idx) = cells(&mut c, 2);
    let chip = c.new_chip("Testchip2");
    let a = Input::ChipInput(ChipInput::new(&mut c, w[0], "in1"));
    let b = ChipInput::new(&mut c, w[1], "in2");
    let inner = testchip(&mut c, a, Input::ChipInput(b));
    let nand = Nand::new(&mut c, a, Input::ChipOutput(inner));
    let o1 = ChipOutput::new(&mut c, ChipOutputType::NandOutput(nand));
    let o2 = ChipOutput::new(&mut c, ChipOutputType::ChipInput(b));
    let out1 = ChipOutputWrapper::new(&mut c, o1, chip);
    let out2 = ChipOutputWrapper::new(&mut c, o2, chip);
    let mut machine = Machine::new(c, idx, vec![out1, out2]);
    assert_eq!(machine.process(vec![true, false]), vec![false, false]);
    assert_eq!(machine.process(vec![true, true]), vec![true, true]);
}

#[test]
fn nand_truth_table_through_evaluate() {
    for (a, b) in [(false, false), (false, true), (true, false), (true, true)] {
        let mut c = Circuit::new();
        let x = UserInput::from(&mut c, a);
        let y = UserInput::from(&mut c, b);
        let n = Nand::new(&mut c, x, y);
        assert_eq!(c.evaluate(Input::NandInput(n), 1), !(a && b));
    }
}

#[test]
fn a_node_with_fan_out_is_computed_once_per_tick() {
    // a NAND feeding two other NANDs, both read by a fourth
    let mut c = Circuit::new();
    let x = UserInput::from(&mut c, true);
    let y = UserInput::from(&mut c, true);
    let shared = Nand::new(&mut c, x, y);
    let left = Nand::new(&mut c, Input::NandInput(shared), x);
    let right = Nand::new(&mut c, Input::NandInput(shared), y);
    let top = Nand::new(&mut c, Input::NandInput(left), Input::NandInput(right));
    assert_eq!(c.evaluate(Input::NandInput(top), 1), false);
    assert_eq!(c.nands[shared].iteration, 1);
    assert_eq!(c.nands[shared].value, false);
    // a stamped node answers from its cache: changing an input within the
    // same tick is not seen
    c.user_inputs[0].value = false;
    assert_eq!(c.evaluate(Input::NandInput(shared), 1), false);
    // at the next tick it is recomputed
    assert_eq!(c.evaluate(Input::NandInput(shared), 2), true);
    assert_eq!(c.nands[shared].iteration, 2);
}

#[test]
fn process_advances_the_tick_by_one() {
    let mut c = Circuit::new();
    let (w, idx) = cells(&mut c, 2);
    let out = testchip(&mut c, w[0], w[1]);
    let mut machine = Machine::new(c, idx, vec![out]);
    assert_eq!(machine.iteration, 0);
    machine.process(vec![false, false]);
    assert_eq!(machine.iteration, 1);
    machine.process(vec![false, false]);
    assert_eq!(machine.iteration, 2);
    assert_eq!(machine.outputs[0].identifier, 0);
    assert_eq!(machine.outputs[0].output, out);
}

#[test]
fn cross_coupled_gates_settle_in_one_tick() {
    // active-low set and reset; every valid pair settles in one call and holds
    for (s, r) in [(false, true), (true, false), (true, true)] {
        let mut c = Circuit::new();
        let (w, idx) = cells(&mut c, 2);
        let (q, nq) = create_subchip(
            &mut c,
            NandInputs { in1: Peer::Wire(w[0]), in2: Peer::Other },
            NandInputs { in1: Peer::Wire(w[1]), in2: Peer::Other },
        );
        assert_eq!(Nand::get_inputs(&c, q), [w[0], Input::NandInput(nq)]);
        assert_eq!(Nand::get_inputs(&c, nq), [w[1], Input::NandInput(q)]);
        let chip = c.new_chip("Latch");
        let oq = ChipOutput::new(&mut c, ChipOutputType::NandOutput(q));
        let onq = ChipOutput::new(&mut c, ChipOutputType::NandOutput(nq));
        let wq = ChipOutputWrapper::new(&mut c, oq, chip);
        let wnq = ChipOutputWrapper::new(&mut c, onq, chip);
        let mut machine = Machine::new(c, idx, vec![wq, wnq]);
        let first = machine.process(vec![s, r]);
        let second = machine.process(vec![s, r]);
        let third = machine.process(vec![s, r]);
        assert_eq!(first[0], second[0]);
        assert_eq!(second, third);
        if !s {
            assert_eq!(first[0], true);
        }
        if !r {
            assert_eq!(first[0], false);
        }
    }
}

#[test]
fn late_bound_output_is_read_after_binding() {
    let mut c = Circuit::new();
    let x = UserInput::from(&mut c, true);
    let chip = c.new_chip("Late");
    let o = ChipOutput::new_from_option(&mut c, None);
    let n = Nand::new(&mut c, x, x);
    ChipOutput::set_out(&mut c, o, ChipOutputType::NandOutput(n));
    assert_eq!(ChipOutput::get_out(&c, o), ChipOutputType::NandOutput(n));
    let w = ChipOutputWrapper::new(&mut c, o, chip);
    assert_eq!(c.evaluate(Input::ChipOutput(w), 1), false);
}

#[test]
fn unbound_gate_is_bound_by_set_inputs() {
    let mut c = Circuit::new();
    let x = UserInput::from(&mut c, false);
    let n = Nand::new_unbound(&mut c);
    assert_eq!(c.nands[n].in1, None);
    Nand::set_inputs(&mut c, n, NandInputs { in1: x, in2: x });
    assert_eq!(Nand::get_inputs(&c, n), [x, x]);
    assert_eq!(c.evaluate(Input::NandInput(n), 1), true);
}

#[test]
fn ids_follow_allocation_order() {
    let mut c = Circuit::new();
    let a = UserInput::new(&mut c);
    let b = UserInput::new(&mut c);
    assert_eq!(a, Input::UserInput(0));
    assert_eq!(b, Input::UserInput(1));
    assert_eq!(c.user_inputs[1].id, 1);
    let n0 = Nand::new(&mut c, a, b);
    let n1 = Nand::new(&mut c, a, b);
    assert_eq!((n0, n1), (0, 1));
    assert_eq!(c.nands[1].identifier, 1);
    let first = Output::new(3, &vec![]);
    assert_eq!((first.output, first.identifier), (3, 0));
    let second = Output::new(5, &vec![Output::new(3, &vec![]), Output { output: 4, identifier: 6 }]);
    assert_eq!((second.output, second.identifier), (5, 7));
}
