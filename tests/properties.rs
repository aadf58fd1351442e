use hdl::gates::{self, AluControl};
use hdl::graph::{Circuit, Input, UserInput};
use hdl::machine::Machine;

fn bits(n: i16) -> Vec<bool> {
    let u = n as u16;
    (0..16).rev().map(|k| (u >> k) & 1 == 1).collect()
}

fn num(b: &[bool]) -> i16 {
    b.iter().fold(0u16, |acc, x| (acc << 1) | (*x as u16)) as i16
}

fn machine_over(n: usize, build: impl FnOnce(&mut Circuit, &Vec<Input>) -> Vec<usize>) -> Machine {
    let mut c = Circuit::new();
    let mut wires = Vec::new();
    let mut cells = Vec::new();
    for _ in 0..n {
        let x = UserInput::new(&mut c);
        if let Input::UserInput(k) = x {
            cells.push(k);
        }
        wires.push(x);
    }
    let outs = build(&mut c, &wires);
    Machine::new(c, cells, outs)
}

fn adder() -> Machine {
    machine_over(32, |c, i| gates::adder16(c, &i[0..16].to_vec(), &i[16..32].to_vec()))
}

fn add(m: &mut Machine, a: i16, b: i16) -> i16 {
    num(&m.process([bits(a), bits(b)].concat()))
}

#[test]
fn adder16_examples() {
    let mut m = adder();
    assert_eq!(add(&mut m, 0x0001, 0x7FFF) as u16, 0x8000);
    assert_eq!(add(&mut m, -1, 0x0001), 0);
    assert_eq!(add(&mut m, 1234, 4321), 5555);
    assert_eq!(add(&mut m, -300, 100), -200);
}

#[test]
fn incrementer16_agrees_with_adding_one() {
    let mut inc = machine_over(16, |c, i| gates::incrementer16(c, i));
    let mut m = adder();
    let mut x: i32 = i16::MIN as i32;
    while x <= i16::MAX as i32 {
        let v = x as i16;
        let got = num(&inc.process(bits(v)));
        assert_eq!(got, add(&mut m, v, 1));
        assert_eq!(got, v.wrapping_add(1));
        x += 251;
    }
    for v in [i16::MIN, -1, 0, 1, i16::MAX] {
        assert_eq!(num(&inc.process(bits(v))), v.wrapping_add(1));
    }
}

/// Runs the ALU; the control bits are given as zx, nx, zy, ny, f, no.
fn alu(m: &mut Machine, x: i16, y: i16, c: [bool; 6]) -> (i16, bool, bool) {
    let [zx, nx, zy, ny, f, no] = c;
    let r = m.process([bits(x), bits(y), vec![zx, zy, nx, ny, f, no]].concat());
    (num(&r[0..16]), r[16], r[17])
}

#[test]
fn alu_matches_its_opcode_table() {
    let mut m = machine_over(38, |c, i| {
        let ctl = AluControl { zx: i[32], zy: i[33], nx: i[34], ny: i[35], f: i[36], no: i[37] };
        let r = gates::alu(c, &i[0..16].to_vec(), &i[16..32].to_vec(), ctl);
        let mut v = r.out;
        v.push(r.zr);
        v.push(r.ng);
        v
    });
    let (t, f) = (true, false);
    for (x, y) in [(17i16, 5i16), (-3, 9), (0, 0), (1234, -1234)] {
        let table: [([bool; 6], i16); 18] = [
            ([t, f, t, f, t, f], 0),
            ([t, t, t, t, t, t], 1),
            ([t, t, t, f, t, f], -1),
            ([f, f, t, t, f, f], x),
            ([t, t, f, f, f, f], y),
            ([f, f, t, t, f, t], !x),
            ([t, t, f, f, f, t], !y),
            ([f, f, t, t, t, t], x.wrapping_neg()),
            ([t, t, f, f, t, t], y.wrapping_neg()),
            ([f, t, t, t, t, t], x.wrapping_add(1)),
            ([t, t, f, t, t, t], y.wrapping_add(1)),
            ([f, f, t, t, t, f], x.wrapping_sub(1)),
            ([t, t, f, f, t, f], y.wrapping_sub(1)),
            ([f, f, f, f, t, f], x.wrapping_add(y)),
            ([f, t, f, f, t, t], x.wrapping_sub(y)),
            ([f, f, f, t, t, t], y.wrapping_sub(x)),
            ([f, f, f, f, f, f], x & y),
            ([f, t, f, t, f, t], x | y),
        ];
        for (ctl, want) in table {
            let (out, zr, ng) = alu(&mut m, x, y, ctl);
            assert_eq!(out, want, "x={} y={} ctl={:?}", x, y, ctl);
            assert_eq!(zr, want == 0);
            assert_eq!(ng, want < 0);
        }
    }
}

#[test]
fn srlatch_settles_after_one_call_and_holds() {
    // active-low inputs: (false, true) sets, (true, false) resets, (true, true) holds
    let sequences: [&[(bool, bool)]; 4] = [
        &[(false, true), (true, true)],
        &[(true, false), (true, true)],
        &[(false, true), (true, false), (false, true)],
        &[(true, false), (false, true), (true, true), (true, false)],
    ];
    for seq in sequences {
        let mut m = machine_over(2, |c, i| {
            let (q, nq) = gates::srlatch(c, i[0], i[1]);
            vec![q, nq]
        });
        let mut q = None;
        for &(s, r) in seq {
            let first = m.process(vec![s, r]);
            if !s {
                assert!(first[0]);
            }
            if !r {
                assert!(!first[0]);
            }
            if s && r {
                assert_eq!(Some(first[0]), q);
            }
            for _ in 0..3 {
                assert_eq!(m.process(vec![s, r])[0], first[0]);
            }
            q = Some(first[0]);
        }
    }
}

#[test]
fn dflipflop_needs_both_clock_phases() {
    let mut m = machine_over(2, |c, i| {
        let (q, nq) = gates::dflipflop(c, i[0], i[1]);
        vec![q, nq]
    });
    // one call with the clock high does not propagate
    assert_eq!(m.process(vec![true, true])[0], false);
    // the second phase does
    assert_eq!(m.process(vec![true, false])[0], true);
    // new data with the clock low is not taken
    assert_eq!(m.process(vec![false, false])[0], true);
    // clock high: still not propagated
    assert_eq!(m.process(vec![false, true])[0], true);
    // clock low again: propagated
    assert_eq!(m.process(vec![false, false])[0], false);
}

#[test]
fn demux_and_mux_truth_tables() {
    let (t, f) = (true, false);
    let mut mux = machine_over(3, |c, i| vec![gates::mux(c, i[0], i[1], i[2])]);
    for a in [f, t] {
        for b in [f, t] {
            for s in [f, t] {
                assert_eq!(mux.process(vec![a, b, s]), vec![if s { b } else { a }]);
            }
        }
    }
    let mut demux = machine_over(2, |c, i| {
        let (a, b) = gates::demux(c, i[0], i[1]);
        vec![a, b]
    });
    for a in [f, t] {
        for s in [f, t] {
            assert_eq!(demux.process(vec![a, s]), vec![a && !s, a && s]);
        }
    }
    assert_eq!(mux.process(vec![f, t, t]), vec![t]);
}

#[test]
fn sixteen_way_gates_work_bitwise() {
    let mut m = machine_over(33, |c, i| gates::mux16(c, &i[0..16].to_vec(), &i[16..32].to_vec(), i[32]));
    assert_eq!(num(&m.process([bits(1234), bits(-77), vec![false]].concat())), 1234);
    assert_eq!(num(&m.process([bits(1234), bits(-77), vec![true]].concat())), -77);
    let mut n = machine_over(32, |c, i| gates::and16(c, &i[0..16].to_vec(), &i[16..32].to_vec()));
    assert_eq!(num(&n.process([bits(0x0F0F), bits(0x00FF)].concat())), 0x000F);
    let mut o = machine_over(16, |c, i| vec![gates::ormult16(c, i)]);
    assert_eq!(o.process(bits(0)), vec![false]);
    assert_eq!(o.process(bits(0x0100)), vec![true]);
    let mut x = machine_over(2, |c, i| vec![gates::xor(c, i[0], i[1])]);
    for (a, b) in [(false, false), (false, true), (true, false), (true, true)] {
        assert_eq!(x.process(vec![a, b]), vec![a != b]);
    }
}
