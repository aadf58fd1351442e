use hdl::gates::{self, AluControl};
use hdl::graph::{Circuit, Input, UserInput};
use hdl::machine::Machine;

/// A 16-bit two's complement number as bits, most significant first.
fn ntb(in_: i16) -> Vec<bool> {
    let n = in_ as u16;
    (0..16).rev().map(|k| (n >> k) & 1 == 1).collect()
}

fn cat(parts: &[Vec<bool>]) -> Vec<bool> {
    parts.concat()
}

fn sl(i: &Vec<Input>, a: usize, b: usize) -> Vec<Input> {
    i[a..b].to_vec()
}

/// A machine over `n` fresh input cells and the chip that `build` makes of them.
fn machine_for(n: usize, build: impl FnOnce(&mut Circuit, &Vec<Input>) -> Vec<usize>) -> Machine {
    let mut c = Circuit::new();
    let mut wires = Vec::new();
    let mut cells = Vec::new();
    for _ in 0..n {
        let x = UserInput::new(&mut c);
        if let Input::UserInput(k) = x {
            cells.push(k);
        }
        wires.push(x);
    }
    let outs = build(&mut c, &wires);
    Machine::new(c, cells, outs)
}

#[test]
fn register16_has_correct_truth_table() {
    let mut machine = machine_for(18, |c, i| gates::register16(c, &sl(i, 0, 16), i[16], i[17]));
    let res = machine.process(cat(&[ntb(4321), vec![true], vec![true]])); // initial state
    assert_eq!(res[0..16].to_vec(), ntb(0));
    let res = machine.process(cat(&[ntb(0), vec![true], vec![false]])); // tock
    assert_eq!(res[0..16].to_vec(), ntb(4321));
}

#[test]
fn bit_has_correct_truth_table() {
    let mut machine = machine_for(3, |c, i| vec![gates::bit(c, i[0], i[1], i[2])]);
    let res = machine.process(cat(&[vec![true], vec![true], vec![true]])); // initial state
    assert_eq!(res[0], false);
    let res = machine.process(cat(&[vec![true], vec![true], vec![false]])); // tock
    assert_eq!(res[0], true);
    let res = machine.process(cat(&[vec![true], vec![true], vec![false]])); // same tock
    assert_eq!(res[0], true);
    let res = machine.process(cat(&[vec![false], vec![false], vec![true]])); // tick
    assert_eq!(res[0], true);
    let res = machine.process(cat(&[vec![false], vec![false], vec![false]])); // tock
    assert_eq!(res[0], true);
    let res = machine.process(cat(&[vec![false], vec![true], vec![true]])); // tick
    assert_eq!(res[0], true);
    let res = machine.process(cat(&[vec![false], vec![true], vec![false]])); // tock
    assert_eq!(res[0], false);
}

#[test]
fn dflipflop_has_correct_truth_table() {
    let mut machine = machine_for(2, |c, i| { let (q, nq) = gates::dflipflop(c, i[0], i[1]); vec![q, nq] });
    let res = machine.process(cat(&[vec![true], vec![true]]));
    assert_eq!(res[0], false, "q should not transition until a clock tick ");
    let res = machine.process(cat(&[vec![false], vec![false]]));
    assert_eq!(res[0], true, "data should transition on a clock tick");
    let res = machine.process(cat(&[vec![false], vec![false]]));
    assert_eq!(res[0], true, "data should not transition until a clock tick");
    let res = machine.process(cat(&[vec![false], vec![true]]));
    assert_eq!(
        res[0], true,
        "data should not transition until a clock tick after it was changed"
    );
    let res = machine.process(cat(&[vec![false], vec![false]]));
    assert_eq!(res[0], false, "data should transition on a clock tick");
    let res = machine.process(cat(&[vec![false], vec![false]]));
    assert_eq!(
        res[0], false,
        "data should not transition until a clock tick"
    );
}

#[test]
fn dlatch_has_correct_truth_table() {
    let mut machine = machine_for(2, |c, i| { let (q, nq) = gates::dlatch(c, i[0], i[1]); vec![q, nq] });
    let res = machine.process(cat(&[vec![true], vec![true]]));
    assert_eq!(res[0], true);
    let res = machine.process(cat(&[vec![false], vec![false]]));
    assert_eq!(res[0], true);
    let res = machine.process(cat(&[vec![false], vec![true]]));
    assert_eq!(res[0], false);
}

#[test]
fn srlatch_has_correct_truth_table() {
    let mut machine = machine_for(2, |c, i| { let (q, nq) = gates::srlatch(c, i[0], i[1]); vec![q, nq] });
    let res1 = machine.process(cat(&[vec![false], vec![true]]));
    assert_eq!(res1[0], true);
    let res2 = machine.process(cat(&[vec![true], vec![true]]));
    assert_eq!(res2[0], true);
    let res3 = machine.process(cat(&[vec![true], vec![false]]));
    assert_eq!(res3[0], false);
    let res4 = machine.process(cat(&[vec![true], vec![true]]));
    assert_eq!(res4[0], false);
}

#[test]
fn srlatch_has_stable_output_if_input_is_valid() {
    let mut machine = machine_for(2, |c, i| { let (q, nq) = gates::srlatch(c, i[0], i[1]); vec![q, nq] });
    let res1 = machine.process(cat(&[vec![false], vec![true]]));
    assert_eq!(res1[0], true);
    let res2 = machine.process(cat(&[vec![true], vec![true]]));
    assert_eq!(res2[0], true);
    let res4 = machine.process(cat(&[vec![true], vec![true]]));
    assert_eq!(res4[0], true);
}

#[test]
fn alu_chip_has_correct_truth_table() {
    let mut machine = machine_for(38, |c, i| { let ctl = AluControl { zx: i[32], zy: i[33], nx: i[34], ny: i[35], f: i[36], no: i[37] }; let r = gates::alu(c, &sl(i, 0, 16), &sl(i, 16, 32), ctl); let mut v = r.out; v.push(r.zr); v.push(r.ng); v });

    // addition works
    let res = machine.process(cat(&[ntb(1), ntb(1), vec![false], vec![false], vec![false], vec![false], vec![true], vec![false]]));
    assert_eq!(
        res,
        cat(&[ntb(2), vec![false], vec![false]])
    );

    // zx works
    let res = machine.process(cat(&[ntb(1), ntb(2), vec![true], vec![false], vec![false], vec![false], vec![true], vec![false]]));
    assert_eq!(
        res,
        cat(&[ntb(2), vec![false], vec![false]])
    );

    // zy works
    let res = machine.process(cat(&[ntb(1), ntb(2), vec![false], vec![true], vec![false], vec![false], vec![true], vec![false]]));
    assert_eq!(
        res,
        cat(&[ntb(1), vec![false], vec![false]])
    );

    // nx works
    let res = machine.process(cat(&[vec![false; 16], vec![true; 16], vec![false], vec![false], vec![true], vec![false], vec![true], vec![false]]));
    assert_eq!(
        res,
        cat(&[ntb(-2), vec![false], vec![true]])
    );

    // ny works
    let res = machine.process(cat(&[ntb(-1), ntb(0), vec![false], vec![false], vec![false], vec![true], vec![true], vec![false]]));
    assert_eq!(
        res,
        cat(&[ntb(-2), vec![false], vec![true]])
    );

    // no works
    let res = machine.process(cat(&[ntb(-1), ntb(-1), vec![false], vec![false], vec![false], vec![false], vec![true], vec![true]]));
    assert_eq!(
        res,
        cat(&[ntb(1), vec![false], vec![false]])
    );

    // and works
    let res = machine.process(cat(&[ntb(-1), ntb(-1), vec![false], vec![false], vec![false], vec![false], vec![false], vec![false]]));
    assert_eq!(
        res,
        cat(&[ntb(-1), vec![false], vec![true]])
    );

    // now I'll just put in the rest of the truth table as per the book
    // 0
    let res = machine.process(cat(&[ntb(-1), ntb(-1), vec![true], vec![true], vec![false], vec![false], vec![true], vec![false]]));
    assert_eq!(
        res,
        cat(&[ntb(0), vec![true], vec![false]])
    );

    // 1
    let res = machine.process(cat(&[ntb(-1), ntb(-1), vec![true], vec![true], vec![true], vec![true], vec![true], vec![true]]));
    assert_eq!(
        res,
        cat(&[ntb(1), vec![false], vec![false]])
    );

    // -1
    let res = machine.process(cat(&[ntb(132), ntb(876), vec![true], vec![true], vec![true], vec![false], vec![true], vec![false]]));
    assert_eq!(
        res,
        cat(&[ntb(-1), vec![false], vec![true]])
    );

    // x
    let res = machine.process(cat(&[ntb(452), ntb(671), vec![false], vec![true], vec![false], vec![true], vec![false], vec![false]]));
    assert_eq!(
        res,
        cat(&[ntb(452), vec![false], vec![false]])
    );

    // y
    let res = machine.process(cat(&[ntb(452), ntb(671), vec![true], vec![false], vec![true], vec![false], vec![false], vec![false]]));
    assert_eq!(
        res,
        cat(&[ntb(671), vec![false], vec![false]])
    );

    // !x
    let res = machine.process(cat(&[ntb(452), ntb(671), vec![false], vec![true], vec![false], vec![true], vec![false], vec![true]]));
    assert_eq!(
        res,
        cat(&[ntb(!452), vec![false], vec![true]])
    );

    // !y
    let res = machine.process(cat(&[ntb(452), ntb(671), vec![true], vec![false], vec![true], vec![false], vec![false], vec![true]]));
    assert_eq!(
        res,
        cat(&[ntb(!671), vec![false], vec![true]])
    );

    // x+1
    let res = machine.process(cat(&[ntb(452), ntb(671), vec![false], vec![true], vec![true], vec![true], vec![true], vec![true]]));
    assert_eq!(
        res,
        cat(&[ntb(452 + 1), vec![false], vec![false]])
    );

    // y+1
    let res = machine.process(cat(&[ntb(452), ntb(671), vec![true], vec![false], vec![true], vec![true], vec![true], vec![true]]));
    assert_eq!(
        res,
        cat(&[ntb(671 + 1), vec![false], vec![false]])
    );

    // x-1
    let res = machine.process(cat(&[ntb(452), ntb(671), vec![false], vec![true], vec![false], vec![true], vec![true], vec![false]]));
    assert_eq!(
        res,
        cat(&[ntb(452 - 1), vec![false], vec![false]])
    );

    // y-1
    let res = machine.process(cat(&[ntb(452), ntb(671), vec![true], vec![false], vec![true], vec![false], vec![true], vec![false]]));
    assert_eq!(
        res,
        cat(&[ntb(671 - 1), vec![false], vec![false]])
    );

    // x+y
    let res = machine.process(cat(&[ntb(452), ntb(671), vec![false], vec![false], vec![false], vec![false], vec![true], vec![false]]));
    assert_eq!(
        res,
        cat(&[ntb(452 + 671), vec![false], vec![false]])
    );

    // x-y
    let res = machine.process(cat(&[ntb(452), ntb(671), vec![false], vec![false], vec![true], vec![false], vec![true], vec![true]]));
    assert_eq!(
        res,
        cat(&[ntb(452 - 671), vec![false], vec![true]])
    );

    // y-x
    let res = machine.process(cat(&[ntb(452), ntb(671), vec![false], vec![false], vec![false], vec![true], vec![true], vec![true]]));
    assert_eq!(
        res,
        cat(&[ntb(671 - 452), vec![false], vec![false]])
    );

    // x|y
    let res = machine.process(cat(&[ntb(452), ntb(671), vec![false], vec![false], vec![true], vec![true], vec![false], vec![true]]));
    assert_eq!(
        res,
        cat(&[ntb(452 | 671), vec![false], vec![false]])
    );
}

#[test]
fn not_gate_has_correct_truth_table() {
    let mut machine = machine_for(1, |c, i| vec![gates::not(c, i[0])]);
    assert_eq!(
        machine.process(cat(&[vec![true]])),
        cat(&[vec![false]])
    );
    assert_eq!(
        machine.process(cat(&[vec![false]])),
        cat(&[vec![true]])
    );
}

#[test]
fn and_gate_has_correct_truth_table() {
    let mut machine = machine_for(2, |c, i| vec![gates::and(c, i[0], i[1])]);
    assert_eq!(
        machine.process(cat(&[vec![true], vec![true]])),
        cat(&[vec![true]])
    );
    assert_eq!(
        machine.process(cat(&[vec![true], vec![false]])),
        cat(&[vec![false]])
    );
    assert_eq!(
        machine.process(cat(&[vec![false], vec![true]])),
        cat(&[vec![false]])
    );
    assert_eq!(
        machine.process(cat(&[vec![false], vec![false]])),
        cat(&[vec![false]])
    );
}

#[test]
fn or_gate_has_correct_truth_table() {
    let mut machine = machine_for(2, |c, i| vec![gates::or(c, i[0], i[1])]);
    assert_eq!(
        machine.process(cat(&[vec![true], vec![true]])),
        cat(&[vec![true]])
    );
    assert_eq!(
        machine.process(cat(&[vec![true], vec![false]])),
        cat(&[vec![true]])
    );
    assert_eq!(
        machine.process(cat(&[vec![false], vec![true]])),
        cat(&[vec![true]])
    );
    assert_eq!(
        machine.process(cat(&[vec![false], vec![false]])),
        cat(&[vec![false]])
    );
}

#[test]
fn xor_gate_has_correct_truth_table() {
    let mut machine = machine_for(2, |c, i| vec![gates::xor(c, i[0], i[1])]);
    assert_eq!(
        machine.process(cat(&[vec![true], vec![true]])),
        cat(&[vec![false]])
    );
    assert_eq!(
        machine.process(cat(&[vec![true], vec![false]])),
        cat(&[vec![true]])
    );
    assert_eq!(
        machine.process(cat(&[vec![false], vec![true]])),
        cat(&[vec![true]])
    );
    assert_eq!(
        machine.process(cat(&[vec![false], vec![false]])),
        cat(&[vec![false]])
    );
}

#[test]
fn mux_gate_has_correct_truth_table() {
    let mut machine = machine_for(3, |c, i| vec![gates::mux(c, i[0], i[1], i[2])]);
    assert_eq!(
        machine.process(cat(&[vec![true], vec![true], vec![true]])),
        cat(&[vec![true]])
    );
    assert_eq!(
        machine.process(cat(&[vec![true], vec![false], vec![true]])),
        cat(&[vec![false]])
    );
    assert_eq!(
        machine.process(cat(&[vec![true], vec![true], vec![false]])),
        cat(&[vec![true]])
    );
    assert_eq!(
        machine.process(cat(&[vec![false], vec![true], vec![true]])),
        cat(&[vec![true]])
    );
    assert_eq!(
        machine.process(cat(&[vec![true], vec![false], vec![false]])),
        cat(&[vec![true]])
    );
    assert_eq!(
        machine.process(cat(&[vec![false], vec![true], vec![false]])),
        cat(&[vec![false]])
    );
    assert_eq!(
        machine.process(cat(&[vec![false], vec![false], vec![false]])),
        cat(&[vec![false]])
    );
    assert_eq!(
        machine.process(cat(&[vec![false], vec![false], vec![true]])),
        cat(&[vec![false]])
    );
}

#[test]
fn demux_gate_has_correct_truth_table() {
    let mut machine = machine_for(2, |c, i| { let (a, b) = gates::demux(c, i[0], i[1]); vec![a, b] });
    assert_eq!(
        machine.process(cat(&[vec![true], vec![true]])),
        cat(&[vec![false], vec![true]])
    );
    assert_eq!(
        machine.process(cat(&[vec![true], vec![false]])),
        cat(&[vec![true], vec![false]])
    );
    assert_eq!(
        machine.process(cat(&[vec![false], vec![true]])),
        cat(&[vec![false], vec![false]])
    );
    assert_eq!(
        machine.process(cat(&[vec![false], vec![false]])),
        cat(&[vec![false], vec![false]])
    );
}

#[test]
fn not16_gate_has_correct_truth_table() {
    let mut machine = machine_for(16, |c, i| gates::not16(c, &sl(i, 0, 16)));
    assert_eq!(
        machine.process(cat(&[vec![true; 16]])),
        cat(&[vec![false; 16]])
    );
    assert_eq!(
        machine.process(cat(&[vec![false; 16]])),
        cat(&[vec![true; 16]])
    );
}

#[test]
fn and16_gate_has_correct_truth_table() {
    let mut machine = machine_for(32, |c, i| gates::and16(c, &sl(i, 0, 16), &sl(i, 16, 32)));
    assert_eq!(
        machine.process(cat(&[vec![true; 16], vec![true; 16]])),
        cat(&[vec![true; 16]])
    );
    assert_eq!(
        machine.process(cat(&[ntb(i16::MAX), ntb(-1)])),
        cat(&[ntb(i16::MAX)])
    );
    assert_eq!(
        machine.process(cat(&[ntb(-5), ntb(-1)])),
        cat(&[ntb(-5)])
    );
    assert_eq!(
        machine.process(cat(&[ntb(-1), ntb(i16::MAX)])),
        cat(&[ntb(i16::MAX)])
    );
    assert_eq!(
        machine.process(cat(&[ntb(-1), ntb(-765)])),
        cat(&[ntb(-765)])
    );
    // ...
    assert_eq!(
        machine.process(cat(&[ntb(0), ntb(0)])),
        cat(&[ntb(0)])
    );
}

#[test]
fn or2_gate_has_correct_truth_table() {
    let mut machine = machine_for(4, |c, i| gates::or2(c, &sl(i, 0, 2), &sl(i, 2, 4)));
    assert_eq!(
        machine.process(cat(&[vec![true, true], vec![true, true]])),
        cat(&[vec![true, true]])
    );
    assert_eq!(
        machine.process(cat(&[vec![false, true], vec![true, true]])),
        cat(&[vec![true, true]])
    );
    assert_eq!(
        machine.process(cat(&[vec![true, false], vec![true, true]])),
        cat(&[vec![true, true]])
    );
    assert_eq!(
        machine.process(cat(&[vec![true, true], vec![false, true]])),
        cat(&[vec![true, true]])
    );
    assert_eq!(
        machine.process(cat(&[vec![true, true], vec![true, false]])),
        cat(&[vec![true, true]])
    );
    // ...
    assert_eq!(
        machine.process(cat(&[vec![false, true], vec![false, false]])),
        cat(&[vec![false, true]])
    );
    assert_eq!(
        machine.process(cat(&[vec![false, false], vec![false, false]])),
        cat(&[vec![false, false]])
    );
}

#[test]
fn mux16_gate_has_correct_truth_table() {
    let mut machine = machine_for(33, |c, i| gates::mux16(c, &sl(i, 0, 16), &sl(i, 16, 32), i[32]));
    assert_eq!(
        machine.process(cat(&[vec![true; 16], vec![false; 16], vec![true]])),
        cat(&[vec![false; 16]])
    );
    assert_eq!(
        machine.process(cat(&[vec![true; 16], vec![false; 16], vec![false]])),
        cat(&[vec![true; 16]])
    );
    // ...
}

#[test]
fn demux16_gate_has_correct_truth_table() {
    let mut machine = machine_for(17, |c, i| { let (a, b) = gates::demux16(c, &sl(i, 0, 16), i[16]); [a, b].concat() });
    assert_eq!(
        machine.process(cat(&[vec![true; 16], vec![true]])),
        cat(&[vec![false; 16], vec![true; 16]])
    );
    assert_eq!(
        machine.process(cat(&[vec![true; 16], vec![false]])),
        cat(&[vec![true; 16], vec![false; 16]])
    );
    // ...
}

#[test]
fn mux16x8_gate_has_correct_truth_table() {
    let mut machine = machine_for(131, |c, i| gates::mux16x8(c, &sl(i, 0, 16), &sl(i, 16, 32), &sl(i, 32, 48), &sl(i, 48, 64), &sl(i, 64, 80), &sl(i, 80, 96), &sl(i, 96, 112), &sl(i, 112, 128), &sl(i, 128, 131)));
    let out = machine.process(cat(&[vec![true; 16], vec![false; 16], vec![false; 16], vec![false; 16], vec![false; 16], vec![false; 16], vec![false; 16], vec![false; 16], vec![false, false, false]]));
    assert_eq!(out[0..16].to_vec(), vec![true; 16]);

    let out = machine.process(cat(&[vec![true; 16], vec![false; 16], vec![false; 16], vec![false; 16], vec![false; 16], vec![false; 16], vec![false; 16], vec![false; 16], vec![true, true, true]]));
    assert_eq!(out[0..16].to_vec(), vec![false; 16]);

    let out = machine.process(cat(&[vec![false; 16], vec![false; 16], vec![false; 16], vec![false; 16], vec![true; 16], vec![false; 16], vec![false; 16], vec![false; 16], vec![true, false, false]]));
    assert_eq!(out[0..16].to_vec(), vec![true; 16]);

    let out = machine.process(cat(&[vec![false; 16], vec![false; 16], vec![false; 16], vec![false; 16], vec![true; 16], vec![false; 16], vec![false; 16], vec![false; 16], vec![true, true, false]]));
    assert_eq!(out[0..16].to_vec(), vec![false; 16]);

    // ...
}

#[test]
fn demux16x8_gate_has_correct_truth_table() {
    let mut machine = machine_for(19, |c, i| gates::demux16x8(c, &sl(i, 0, 16), &sl(i, 16, 19)).concat());
    let out = machine.process(cat(&[vec![true; 16], vec![true, true, true]]));
    assert_eq!(out[112..128].to_vec(), vec![true; 16]);
    assert_eq!(out[96..112].to_vec(), vec![false; 16]);
    assert_eq!(out[0..16].to_vec(), vec![false; 16]);

    let out = machine.process(cat(&[vec![true; 16], vec![false, true, true]]));

    assert_eq!(out[48..64].to_vec(), vec![true; 16]);
    assert_eq!(out[112..128].to_vec(), vec![false; 16]);
    assert_eq!(out[32..48].to_vec(), vec![false; 16]);

    let out = machine.process(cat(&[vec![true; 16], vec![false, false, false]]));

    assert_eq!(out[0..16].to_vec(), vec![true; 16]);
    assert_eq!(out[112..128].to_vec(), vec![false; 16]);
    // ...
}

#[test]
fn andmult4_gate_has_correct_truth_table() {
    let mut machine = machine_for(4, |c, i| vec![gates::andmult4(c, &sl(i, 0, 4))]);
    assert_eq!(
        machine.process(cat(&[vec![true, true, true, true]])),
        cat(&[vec![true]])
    );
    assert_eq!(
        machine.process(cat(&[vec![false, true, true, true]])),
        cat(&[vec![false]])
    );
    assert_eq!(
        machine.process(cat(&[vec![true, false, true, true]])),
        cat(&[vec![false]])
    );
    assert_eq!(
        machine.process(cat(&[vec![true, true, false, true]])),
        cat(&[vec![false]])
    );
    assert_eq!(
        machine.process(cat(&[vec![true, true, true, false]])),
        cat(&[vec![false]])
    );
    // ...
}

#[test]
fn halfadder_chip_has_correct_truth_table() {
    let mut machine = machine_for(2, |c, i| { let (s, k) = gates::halfadder(c, i[0], i[1]); vec![s, k] });
    assert_eq!(
        machine.process(cat(&[vec![false], vec![false]])),
        cat(&[vec![false], vec![false]])
    );
    assert_eq!(
        machine.process(cat(&[vec![false], vec![true]])),
        cat(&[vec![true], vec![false]])
    );
    assert_eq!(
        machine.process(cat(&[vec![true], vec![false]])),
        cat(&[vec![true], vec![false]])
    );
    assert_eq!(
        machine.process(cat(&[vec![true], vec![true]])),
        cat(&[vec![false], vec![true]])
    );
}

#[test]
fn fulladder_chip_has_correct_truth_table() {
    let mut machine = machine_for(3, |c, i| { let (s, k) = gates::fulladder(c, i[0], i[1], i[2]); vec![s, k] });

    assert_eq!(
        machine.process(cat(&[vec![false], vec![false], vec![false]])),
        cat(&[vec![false], vec![false]])
    );
    assert_eq!(
        machine.process(cat(&[vec![false], vec![false], vec![true]])),
        cat(&[vec![true], vec![false]])
    );
    assert_eq!(
        machine.process(cat(&[vec![false], vec![true], vec![false]])),
        cat(&[vec![true], vec![false]])
    );
    assert_eq!(
        machine.process(cat(&[vec![true], vec![false], vec![false]])),
        cat(&[vec![true], vec![false]])
    );
    assert_eq!(
        machine.process(cat(&[vec![false], vec![true], vec![true]])),
        cat(&[vec![false], vec![true]])
    );
    assert_eq!(
        machine.process(cat(&[vec![true], vec![false], vec![true]])),
        cat(&[vec![false], vec![true]])
    );
    assert_eq!(
        machine.process(cat(&[vec![true], vec![true], vec![false]])),
        cat(&[vec![false], vec![true]])
    );
    assert_eq!(
        machine.process(cat(&[vec![true], vec![true], vec![true]])),
        cat(&[vec![true], vec![true]])
    );
}

#[test]
fn adder16_chip_has_correct_partial_truth_table() {
    let mut machine = machine_for(32, |c, i| gates::adder16(c, &sl(i, 0, 16), &sl(i, 16, 32)));

    assert_eq!(
        machine.process(cat(&[ntb(0), ntb(0)])),
        cat(&[ntb(0)])
    );

    // check LSB and MSB values are represented
    assert_eq!(
        machine.process(cat(&[ntb(1), ntb(-i16::MAX)])),
        cat(&[ntb(-i16::MAX + 1)])
    );

    // check halfadder carry
    assert_eq!(
        machine.process(cat(&[ntb(1), ntb(1)])),
        cat(&[ntb(2)])
    );

    // check fulladder carry
    assert_eq!(
        machine.process(cat(&[ntb(3), ntb(3)])),
        cat(&[ntb(6)])
    );

    // check overflow over at MSB
    assert_eq!(
        machine.process(cat(&[ntb(-1), ntb(1)])),
        cat(&[ntb(0)])
    );
}

#[test]
fn incrementer16_adds_just_one_to_input() {
    let mut machine = machine_for(16, |c, i| gates::incrementer16(c, &sl(i, 0, 16)));

    assert_eq!(
        machine.process(cat(&[ntb(1)])),
        cat(&[ntb(2)])
    );
}
