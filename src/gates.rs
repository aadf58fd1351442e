//! Chips built from NAND gates: logic gates, adders, the ALU and latches.
//!
//! Each constructor registers a chip instance, gives it an input port per
//! incoming wire, builds its internals and exposes its outputs. The result is
//! the wrapper index of each output, in declared order.
use vstd::prelude::*;
use crate::structured::NandInputs;
use crate::logic::{
    has_value, has_values, lemma_value_chip_input, lemma_value_grow, lemma_value_nand, lemma_value_output, lemma_value_unique,
    lemma_value_user, lemma_vals, one16, ripple_carry, ripple_sum, vals, value_is, values_are, outputs_are, lemma_values_grow,
    lemma_outputs_grow, lemma_values_of, lemma_vals_are, lemma_outputs_push, not_bits, and_bits, or_bits, val,
    zero_bits, negate_bits, lemma_outputs_as_wires, wired_like, lemma_grows_trans, lemma_rewires_split, ripple_bits, fold_bits, alu_bits, rewires, lemma_rewires_steps, route, select3, lemma_rewires_self,
};
use crate::eval::{eval, eval_fuel, lemma_stale_update, nand_stamps, output_stamps, potential, unstamped};
use crate::graph::{Graph, adds_bound, create_subchip, grown, Peer, ChipInput, ChipOutput, ChipOutputType, ChipOutputWrapper, Circuit, Input, Nand};

verus! {

/// `new` is `old` with nodes added after the existing ones, still well formed,
/// and complete if `old` was.
pub open spec fn builds(old: &Circuit, new: &Circuit) -> bool {
    &&& new.inv()
    &&& grown(old, new)
    &&& adds_bound(old@, new@)
    &&& old@.complete() ==> new@.complete()
}

/// Every wire of `xs` names an existing node.
pub open spec fn all_valid(c: &Circuit, xs: Seq<Input>) -> bool {
    forall|i: int| 0 <= i < xs.len() ==> c@.valid_input(#[trigger] xs[i])
}

/// Every index of `ws` names an existing output wrapper.
pub open spec fn all_wrappers(c: &Circuit, ws: Seq<usize>) -> bool {
    forall|i: int| 0 <= i < ws.len() ==> #[trigger] ws[i] < c@.wrappers.len()
}

/// Every index of `ws` names an output wrapper added after those of `old`.
pub open spec fn all_fresh(old: &Circuit, ws: Seq<usize>) -> bool {
    forall|i: int| 0 <= i < ws.len() ==> old@.wrappers.len() <= #[trigger] ws[i]
}

/// Each wrapper index as the wire that reads it.
pub fn ainto(ws: &Vec<usize>) -> (r: Vec<Input>)
    ensures
        r.len() == ws.len(),
        forall|i: int| 0 <= i < ws.len() ==> #[trigger] r@[i] == Input::ChipOutput(ws@[i]),
{
    let mut r: Vec<Input> = Vec::new();
    let mut i: usize = 0;
    while i < ws.len()
        invariant
            i <= ws.len(),
            r.len() == i,
            forall|j: int| 0 <= j < i ==> #[trigger] r@[j] == Input::ChipOutput(ws@[j]),
        decreases ws.len() - i,
    {
        r.push(Input::ChipOutput(ws[i]));
        i = i + 1;
    }
    r
}

/// A wrapper index list is a valid wire list.
proof fn lemma_ainto_valid(c: &Circuit, ws: Seq<usize>, r: Seq<Input>)
    requires
        all_wrappers(c, ws),
        r.len() == ws.len(),
        forall|i: int| 0 <= i < ws.len() ==> #[trigger] r[i] == Input::ChipOutput(ws[i]),
    ensures
        all_valid(c, r),
{
    assert forall|i: int| 0 <= i < r.len() implies c@.valid_input(#[trigger] r[i]) by {
        assert(ws[i] < c@.wrappers.len());
    }
}

/// An input port bound to `x`, as a wire.
fn port(alloc: &mut Circuit, x: Input, label: &'static str) -> (r: Input)
    requires
        old(alloc).inv(),
        old(alloc)@.valid_input(x),
    ensures
        builds(old(alloc), final(alloc)),
        final(alloc).chips@ == old(alloc).chips@,
        final(alloc)@.valid_input(r),
        r is ChipInput,
        final(alloc)@.chip_inputs[r->ChipInput_0 as int] == x,
        forall|g: Graph, v: bool|
            #![trigger value_is(g, x, v), rewires(old(alloc)@, final(alloc)@, g)]
            g.wf() && rewires(old(alloc)@, final(alloc)@, g) && value_is(g, x, v) ==> value_is(g, r, v),
        forall|v: bool| #[trigger] value_is(old(alloc)@, x, v) ==> value_is(final(alloc)@, r, v),
{
    let p = ChipInput::new(alloc, x, label);
    proof {
        assert forall|g: Graph, v: bool| g.wf() && rewires(old(alloc)@, alloc@, g) && value_is(g, x, v) implies value_is(
            g,
            Input::ChipInput(p),
            v,
        ) by {
            assert(g.chip_inputs[p as int] == alloc@.chip_inputs[p as int]);
            lemma_value_chip_input(g, p, v);
        }
        assert forall|v: bool| #[trigger] value_is(old(alloc)@, x, v) implies value_is(alloc@, Input::ChipInput(p), v) by {
            lemma_value_grow(old(alloc)@, alloc@, x, v);
            lemma_value_chip_input(alloc@, p, v);
        }
    }
    Input::ChipInput(p)
}

/// An output of chip `chip` forwarding `src`, as a wrapper index.
fn expose(alloc: &mut Circuit, chip: usize, src: Input) -> (r: usize)
    requires
        old(alloc).inv(),
        old(alloc)@.valid_input(src),
        chip < old(alloc).chips.len(),
    ensures
        builds(old(alloc), final(alloc)),
        final(alloc).chips@ == old(alloc).chips@,
        r < final(alloc)@.wrappers.len(),
        old(alloc)@.wrappers.len() <= r,
        final(alloc)@.wrappers[r as int] < final(alloc)@.outputs.len(),
        src is ChipOutput ==> final(alloc)@.outputs[final(alloc)@.wrappers[r as int] as int].out == Some(
            ChipOutputType::ChipOutput(src->ChipOutput_0),
        ),
        src is NandInput ==> final(alloc)@.outputs[final(alloc)@.wrappers[r as int] as int].out == Some(
            ChipOutputType::NandOutput(src->NandInput_0),
        ),
        old(alloc)@.outputs.len() <= final(alloc)@.wrappers[r as int],
        forall|g: Graph, v: bool|
            #![trigger value_is(g, src, v), rewires(old(alloc)@, final(alloc)@, g)]
            g.wf() && rewires(old(alloc)@, final(alloc)@, g) && value_is(g, src, v) ==> value_is(
                g,
                Input::ChipOutput(r),
                v,
            ),
        forall|v: bool| #[trigger] value_is(old(alloc)@, src, v) ==> value_is(final(alloc)@, Input::ChipOutput(r), v),
{
    let t = match src {
        Input::ChipOutput(w) => ChipOutputType::ChipOutput(w),
        Input::NandInput(n) => ChipOutputType::NandOutput(n),
        Input::ChipInput(i) => ChipOutputType::ChipInput(i),
        Input::UserInput(i) => {
            let p = ChipInput::new(alloc, src, "out");
            ChipOutputType::ChipInput(p)
        },
    };
    let ghost g1 = alloc@;
    let o = ChipOutput::new(alloc, t);
    let w = ChipOutputWrapper::new(alloc, o, chip);
    proof {
        if src is UserInput {
            assert(alloc@.chip_inputs[t->ChipInput_0 as int] == src);
        } else {
            assert(t.spec_as_input() == src);
        }
        assert forall|g: Graph, v: bool| g.wf() && rewires(old(alloc)@, alloc@, g) && value_is(g, src, v) implies value_is(
            g,
            Input::ChipOutput(w),
            v,
        ) by {
            if src is UserInput {
                assert(g.chip_inputs[t->ChipInput_0 as int] == alloc@.chip_inputs[t->ChipInput_0 as int]);
                lemma_value_chip_input(g, t->ChipInput_0, v);
            }
            assert(g.wrappers[w as int] == alloc@.wrappers[w as int]);
            assert(g.outputs[o as int].out == alloc@.outputs[o as int].out);
            lemma_value_output(g, w, t, v);
        }
        assert forall|v: bool| #[trigger] value_is(old(alloc)@, src, v) implies value_is(alloc@, Input::ChipOutput(w), v) by {
            lemma_rewires_self(old(alloc)@, alloc@);
            lemma_value_grow(old(alloc)@, alloc@, src, v);
        }
    }
    w
}

/// NOT: one NAND with both inputs tied together.
pub fn not(alloc: &mut Circuit, in_: Input) -> (r: usize)
    requires
        old(alloc).inv(),
        old(alloc)@.valid_input(in_),
    ensures
        builds(old(alloc), final(alloc)),
        r < final(alloc)@.wrappers.len(),
        old(alloc)@.wrappers.len() <= r,
        forall|g: Graph, v: bool|
            #![trigger rewires(old(alloc)@, final(alloc)@, g), value_is(g, in_, v)]
            g.wf() && rewires(old(alloc)@, final(alloc)@, g) && value_is(g, in_, v) ==> value_is(g, Input::ChipOutput(r), !v),
        forall|v: bool|
            #![trigger value_is(old(alloc)@, in_, v)]
            value_is(old(alloc)@, in_, v) ==> value_is(final(alloc)@, Input::ChipOutput(r), !v),
{
    let chip = alloc.new_chip("Not");
    let ghost g0 = alloc@;
    let a = port(alloc, in_, "in_");
    let ghost g1 = alloc@;
    let n = Nand::new(alloc, a, a);
    let ghost g2 = alloc@;
    let r = expose(alloc, chip, Input::NandInput(n));
    proof {
        assert forall|g: Graph, v: bool| g.wf() && rewires(old(alloc)@, alloc@, g) && value_is(g, in_, v) implies value_is(g, Input::ChipOutput(r), !v) by {
            lemma_rewires_steps(seq![old(alloc)@, g0, g1, g2, alloc@], g);
            assert(rewires(old(alloc)@, g0, g));
            assert(rewires(g0, g1, g));
            assert(rewires(g1, g2, g));
            assert(rewires(g2, alloc@, g));
            assert(value_is(g, a, v));
            assert(g.nands[n as int] .in1 == g2.nands[n as int].in1 && g.nands[n as int].in2 == g2.nands[n as int].in2);
            lemma_value_nand(g, n, a, a, v, v);
        }
    }
    proof {
        assert forall|v: bool| value_is(old(alloc)@, in_, v) implies value_is(alloc@, Input::ChipOutput(r), !v) by {
            lemma_rewires_self(old(alloc)@, alloc@);
            lemma_value_grow(old(alloc)@, alloc@, in_, v);
        }
    }
    r
}

/// AND: NOT of NAND.
pub fn and(alloc: &mut Circuit, in1: Input, in2: Input) -> (r: usize)
    requires
        old(alloc).inv(),
        old(alloc)@.valid_input(in1),
        old(alloc)@.valid_input(in2),
    ensures
        builds(old(alloc), final(alloc)),
        r < final(alloc)@.wrappers.len(),
        old(alloc)@.wrappers.len() <= r,
        forall|g: Graph, va: bool, vb: bool|
            #![trigger rewires(old(alloc)@, final(alloc)@, g), value_is(g, in1, va), value_is(g, in2, vb)]
            g.wf() && rewires(old(alloc)@, final(alloc)@, g) && value_is(g, in1, va) && value_is(g, in2, vb) ==> value_is(g, Input::ChipOutput(r), va && vb),
        forall|va: bool, vb: bool|
            #![trigger value_is(old(alloc)@, in1, va), value_is(old(alloc)@, in2, vb)]
            value_is(old(alloc)@, in1, va) && value_is(old(alloc)@, in2, vb) ==> value_is(final(alloc)@, Input::ChipOutput(r), va && vb),
{
    let chip = alloc.new_chip("And");
    let ghost g0 = alloc@;
    let a = port(alloc, in1, "in1");
    let ghost g1 = alloc@;
    let b = port(alloc, in2, "in2");
    let ghost g2 = alloc@;
    let n = Nand::new(alloc, a, b);
    let ghost g3 = alloc@;
    let o = not(alloc, Input::NandInput(n));
    let ghost g4 = alloc@;
    let r = expose(alloc, chip, Input::ChipOutput(o));
    proof {
        assert forall|g: Graph, va: bool, vb: bool| g.wf() && rewires(old(alloc)@, alloc@, g) && value_is(g, in1, va) && value_is(g, in2, vb) implies value_is(g, Input::ChipOutput(r), va && vb) by {
            lemma_rewires_steps(seq![old(alloc)@, g0, g1, g2, g3, g4, alloc@], g);
            assert(rewires(old(alloc)@, g0, g));
            assert(rewires(g0, g1, g));
            assert(rewires(g1, g2, g));
            assert(rewires(g2, g3, g));
            assert(rewires(g3, g4, g));
            assert(rewires(g4, alloc@, g));
            assert(value_is(g, a, va));
            assert(value_is(g, b, vb));
            assert(g.nands[n as int].in1 == g3.nands[n as int].in1 && g.nands[n as int].in2 == g3.nands[n as int].in2);
            lemma_value_nand(g, n, a, b, va, vb);
            assert(value_is(g, Input::ChipOutput(o), !!(va && vb)));
        }
    }
    proof {
        assert forall|va: bool, vb: bool| value_is(old(alloc)@, in1, va) && value_is(old(alloc)@, in2, vb) implies value_is(alloc@, Input::ChipOutput(r), va && vb) by {
            lemma_rewires_self(old(alloc)@, alloc@);
            lemma_value_grow(old(alloc)@, alloc@, in1, va);
            lemma_value_grow(old(alloc)@, alloc@, in2, vb);
        }
    }
    r
}


/// OR: NAND of the two negations.
pub fn or(alloc: &mut Circuit, in1: Input, in2: Input) -> (r: usize)
    requires
        old(alloc).inv(),
        old(alloc)@.valid_input(in1),
        old(alloc)@.valid_input(in2),
    ensures
        builds(old(alloc), final(alloc)),
        r < final(alloc)@.wrappers.len(),
        old(alloc)@.wrappers.len() <= r,
        forall|g: Graph, va: bool, vb: bool|
            #![trigger rewires(old(alloc)@, final(alloc)@, g), value_is(g, in1, va), value_is(g, in2, vb)]
            g.wf() && rewires(old(alloc)@, final(alloc)@, g) && value_is(g, in1, va) && value_is(g, in2, vb) ==> value_is(g, Input::ChipOutput(r), va || vb),
        forall|va: bool, vb: bool|
            #![trigger value_is(old(alloc)@, in1, va), value_is(old(alloc)@, in2, vb)]
            value_is(old(alloc)@, in1, va) && value_is(old(alloc)@, in2, vb) ==> value_is(final(alloc)@, Input::ChipOutput(r), va || vb),
{
    let chip = alloc.new_chip("Or");
    let ghost g0 = alloc@;
    let a = port(alloc, in1, "in1");
    let ghost g1 = alloc@;
    let b = port(alloc, in2, "in2");
    let ghost g2 = alloc@;
    let n1 = not(alloc, a);
    let ghost g3 = alloc@;
    let n2 = not(alloc, b);
    let ghost g4 = alloc@;
    let n = Nand::new(alloc, Input::ChipOutput(n1), Input::ChipOutput(n2));
    let ghost g5 = alloc@;
    let r = expose(alloc, chip, Input::NandInput(n));
    proof {
        assert forall|g: Graph, va: bool, vb: bool| g.wf() && rewires(old(alloc)@, alloc@, g) && value_is(g, in1, va) && value_is(g, in2, vb) implies value_is(g, Input::ChipOutput(r), va || vb) by {
            lemma_rewires_steps(seq![old(alloc)@, g0, g1, g2, g3, g4, g5, alloc@], g);
            assert(rewires(old(alloc)@, g0, g));
            assert(rewires(g0, g1, g));
            assert(rewires(g1, g2, g));
            assert(rewires(g2, g3, g));
            assert(rewires(g3, g4, g));
            assert(rewires(g4, g5, g));
            assert(rewires(g5, alloc@, g));
            assert(value_is(g, a, va));
            assert(value_is(g, b, vb));
            assert(value_is(g, Input::ChipOutput(n1), !va));
            assert(value_is(g, Input::ChipOutput(n2), !vb));
            assert(g.nands[n as int].in1 == g5.nands[n as int].in1 && g.nands[n as int].in2 == g5.nands[n as int].in2);
            lemma_value_nand(g, n, Input::ChipOutput(n1), Input::ChipOutput(n2), !va, !vb);
        }
    }
    proof {
        assert forall|va: bool, vb: bool| value_is(old(alloc)@, in1, va) && value_is(old(alloc)@, in2, vb) implies value_is(alloc@, Input::ChipOutput(r), va || vb) by {
            lemma_rewires_self(old(alloc)@, alloc@);
            lemma_value_grow(old(alloc)@, alloc@, in1, va);
            lemma_value_grow(old(alloc)@, alloc@, in2, vb);
        }
    }
    r
}

/// XOR: AND of NAND and OR.
pub fn xor(alloc: &mut Circuit, in1: Input, in2: Input) -> (r: usize)
    requires
        old(alloc).inv(),
        old(alloc)@.valid_input(in1),
        old(alloc)@.valid_input(in2),
    ensures
        builds(old(alloc), final(alloc)),
        r < final(alloc)@.wrappers.len(),
        old(alloc)@.wrappers.len() <= r,
        forall|g: Graph, va: bool, vb: bool|
            #![trigger rewires(old(alloc)@, final(alloc)@, g), value_is(g, in1, va), value_is(g, in2, vb)]
            g.wf() && rewires(old(alloc)@, final(alloc)@, g) && value_is(g, in1, va) && value_is(g, in2, vb) ==> value_is(g, Input::ChipOutput(r), va != vb),
        forall|va: bool, vb: bool|
            #![trigger value_is(old(alloc)@, in1, va), value_is(old(alloc)@, in2, vb)]
            value_is(old(alloc)@, in1, va) && value_is(old(alloc)@, in2, vb) ==> value_is(final(alloc)@, Input::ChipOutput(r), va != vb),
{
    let chip = alloc.new_chip("Xor");
    let ghost g0 = alloc@;
    let a = port(alloc, in1, "in1");
    let ghost g1 = alloc@;
    let b = port(alloc, in2, "in2");
    let ghost g2 = alloc@;
    let both = and(alloc, a, b);
    let ghost g3 = alloc@;
    let not_both = not(alloc, Input::ChipOutput(both));
    let ghost g4 = alloc@;
    let either = or(alloc, a, b);
    let ghost g5 = alloc@;
    let out = and(alloc, Input::ChipOutput(not_both), Input::ChipOutput(either));
    let ghost g6 = alloc@;
    let r = expose(alloc, chip, Input::ChipOutput(out));
    proof {
        assert forall|g: Graph, va: bool, vb: bool| g.wf() && rewires(old(alloc)@, alloc@, g) && value_is(g, in1, va) && value_is(g, in2, vb) implies value_is(g, Input::ChipOutput(r), va != vb) by {
            lemma_rewires_steps(seq![old(alloc)@, g0, g1, g2, g3, g4, g5, g6, alloc@], g);
            assert(rewires(old(alloc)@, g0, g));
            assert(rewires(g0, g1, g));
            assert(rewires(g1, g2, g));
            assert(rewires(g2, g3, g));
            assert(rewires(g3, g4, g));
            assert(rewires(g4, g5, g));
            assert(rewires(g5, g6, g));
            assert(rewires(g6, alloc@, g));
            assert(value_is(g, a, va));
            assert(value_is(g, b, vb));
            assert(value_is(g, Input::ChipOutput(both), va && vb));
            assert(value_is(g, Input::ChipOutput(not_both), !(va && vb)));
            assert(value_is(g, Input::ChipOutput(either), va || vb));
            assert(value_is(g, Input::ChipOutput(out), !(va && vb) && (va || vb)));
        }
    }
    proof {
        assert forall|va: bool, vb: bool| value_is(old(alloc)@, in1, va) && value_is(old(alloc)@, in2, vb) implies value_is(alloc@, Input::ChipOutput(r), va != vb) by {
            lemma_rewires_self(old(alloc)@, alloc@);
            lemma_value_grow(old(alloc)@, alloc@, in1, va);
            lemma_value_grow(old(alloc)@, alloc@, in2, vb);
        }
    }
    r
}

/// MUX: `in1` when `sel` is low, `in2` when it is high.
pub fn mux(alloc: &mut Circuit, in1: Input, in2: Input, sel: Input) -> (r: usize)
    requires
        old(alloc).inv(),
        old(alloc)@.valid_input(in1),
        old(alloc)@.valid_input(in2),
        old(alloc)@.valid_input(sel),
    ensures
        builds(old(alloc), final(alloc)),
        r < final(alloc)@.wrappers.len(),
        old(alloc)@.wrappers.len() <= r,
        forall|g: Graph, va: bool, vb: bool, vs: bool|
            #![trigger rewires(old(alloc)@, final(alloc)@, g), value_is(g, in1, va), value_is(g, in2, vb), value_is(g, sel, vs)]
            g.wf() && rewires(old(alloc)@, final(alloc)@, g) && value_is(g, in1, va) && value_is(g, in2, vb) && value_is(g, sel, vs) ==> value_is(g, Input::ChipOutput(r), if vs { vb } else { va }),
        forall|va: bool, vb: bool, vs: bool|
            #![trigger value_is(old(alloc)@, in1, va), value_is(old(alloc)@, in2, vb), value_is(old(alloc)@, sel, vs)]
            value_is(old(alloc)@, in1, va) && value_is(old(alloc)@, in2, vb) && value_is(old(alloc)@, sel, vs) ==> value_is(final(alloc)@, Input::ChipOutput(r), if vs { vb } else { va }),
{
    let chip = alloc.new_chip("Mux");
    let ghost g0 = alloc@;
    let a = port(alloc, in1, "in1");
    let ghost g1 = alloc@;
    let b = port(alloc, in2, "in2");
    let ghost g2 = alloc@;
    let s = port(alloc, sel, "sel");
    let ghost g3 = alloc@;
    let and1 = and(alloc, b, s);
    let ghost g4 = alloc@;
    let not_s = not(alloc, s);
    let ghost g5 = alloc@;
    let and2 = and(alloc, a, Input::ChipOutput(not_s));
    let ghost g6 = alloc@;
    let out = or(alloc, Input::ChipOutput(and1), Input::ChipOutput(and2));
    let ghost g7 = alloc@;
    let r = expose(alloc, chip, Input::ChipOutput(out));
    proof {
        assert forall|g: Graph, va: bool, vb: bool, vs: bool| g.wf() && rewires(old(alloc)@, alloc@, g) && value_is(g, in1, va) && value_is(g, in2, vb) && value_is(g, sel, vs) implies value_is(g, Input::ChipOutput(r), if vs { vb } else { va }) by {
            lemma_rewires_steps(seq![old(alloc)@, g0, g1, g2, g3, g4, g5, g6, g7, alloc@], g);
            assert(rewires(old(alloc)@, g0, g));
            assert(rewires(g0, g1, g));
            assert(rewires(g1, g2, g));
            assert(rewires(g2, g3, g));
            assert(rewires(g3, g4, g));
            assert(rewires(g4, g5, g));
            assert(rewires(g5, g6, g));
            assert(rewires(g6, g7, g));
            assert(rewires(g7, alloc@, g));
            assert(value_is(g, a, va));
            assert(value_is(g, b, vb));
            assert(value_is(g, s, vs));
            assert(value_is(g, Input::ChipOutput(and1), vb && vs));
            assert(value_is(g, Input::ChipOutput(not_s), !vs));
            assert(value_is(g, Input::ChipOutput(and2), va && !vs));
            assert(value_is(g, Input::ChipOutput(out), (vb && vs) || (va && !vs)));
        }
    }
    proof {
        assert forall|va: bool, vb: bool, vs: bool| value_is(old(alloc)@, in1, va) && value_is(old(alloc)@, in2, vb) && value_is(old(alloc)@, sel, vs) implies value_is(alloc@, Input::ChipOutput(r), if vs { vb } else { va }) by {
            lemma_rewires_self(old(alloc)@, alloc@);
            lemma_value_grow(old(alloc)@, alloc@, in1, va);
            lemma_value_grow(old(alloc)@, alloc@, in2, vb);
            lemma_value_grow(old(alloc)@, alloc@, sel, vs);
        }
    }
    r
}

/// DEMUX: routes `in_` to the first output when `sel` is low, to the second
/// when it is high; the other output is low.
pub fn demux(alloc: &mut Circuit, in_: Input, sel: Input) -> (r: (usize, usize))
    requires
        old(alloc).inv(),
        old(alloc)@.valid_input(in_),
        old(alloc)@.valid_input(sel),
    ensures
        builds(old(alloc), final(alloc)),
        r.0 < final(alloc)@.wrappers.len(),
        old(alloc)@.wrappers.len() <= r.0,
        r.1 < final(alloc)@.wrappers.len(),
        old(alloc)@.wrappers.len() <= r.1,
        forall|g: Graph, va: bool, vs: bool|
            #![trigger rewires(old(alloc)@, final(alloc)@, g), value_is(g, in_, va), value_is(g, sel, vs)]
            g.wf() && rewires(old(alloc)@, final(alloc)@, g) && value_is(g, in_, va) && value_is(g, sel, vs) ==> value_is(g, Input::ChipOutput(r.0), va && !vs) && value_is(g, Input::ChipOutput(r.1), va && vs),
        forall|va: bool, vs: bool|
            #![trigger value_is(old(alloc)@, in_, va), value_is(old(alloc)@, sel, vs)]
            value_is(old(alloc)@, in_, va) && value_is(old(alloc)@, sel, vs) ==> value_is(final(alloc)@, Input::ChipOutput(r.0), va && !vs) && value_is(final(alloc)@, Input::ChipOutput(r.1), va && vs),
{
    let chip = alloc.new_chip("Demux");
    let ghost g0 = alloc@;
    let a = port(alloc, in_, "in_");
    let ghost g1 = alloc@;
    let s = port(alloc, sel, "sel");
    let ghost g2 = alloc@;
    let and1 = and(alloc, a, s);
    let ghost g3 = alloc@;
    let not_s = not(alloc, s);
    let ghost g4 = alloc@;
    let and2 = and(alloc, a, Input::ChipOutput(not_s));
    let ghost g5 = alloc@;
    let out1 = expose(alloc, chip, Input::ChipOutput(and2));
    let ghost g6 = alloc@;
    let out2 = expose(alloc, chip, Input::ChipOutput(and1));
    proof {
        assert forall|g: Graph, va: bool, vs: bool| g.wf() && rewires(old(alloc)@, alloc@, g) && value_is(g, in_, va) && value_is(g, sel, vs) implies value_is(g, Input::ChipOutput(out1), va && !vs) && value_is(g, Input::ChipOutput(out2), va && vs) by {
            lemma_rewires_steps(seq![old(alloc)@, g0, g1, g2, g3, g4, g5, g6, alloc@], g);
            assert(rewires(old(alloc)@, g0, g));
            assert(rewires(g0, g1, g));
            assert(rewires(g1, g2, g));
            assert(rewires(g2, g3, g));
            assert(rewires(g3, g4, g));
            assert(rewires(g4, g5, g));
            assert(rewires(g5, g6, g));
            assert(rewires(g6, alloc@, g));
            assert(value_is(g, a, va));
            assert(value_is(g, s, vs));
            assert(value_is(g, Input::ChipOutput(and1), va && vs));
            assert(value_is(g, Input::ChipOutput(not_s), !vs));
            assert(value_is(g, Input::ChipOutput(and2), va && !vs));
            assert(value_is(g, Input::ChipOutput(out1), va && !vs));
        }
    }
    proof {
        assert forall|va: bool, vs: bool| value_is(old(alloc)@, in_, va) && value_is(old(alloc)@, sel, vs) implies value_is(alloc@, Input::ChipOutput(out1), va && !vs) && value_is(alloc@, Input::ChipOutput(out2), va && vs) by {
            lemma_rewires_self(old(alloc)@, alloc@);
            lemma_value_grow(old(alloc)@, alloc@, in_, va);
            lemma_value_grow(old(alloc)@, alloc@, sel, vs);
        }
    }
    (out1, out2)
}

/// Values carried from one list of wires to another, index by index.
proof fn lemma_carry_values(a: crate::graph::Graph, b: crate::graph::Graph, xs: Seq<Input>, r: Seq<Input>, vs: Seq<bool>)
    requires
        r.len() == xs.len(),
        values_are(a, xs, vs),
        forall|i: int, v: bool| 0 <= i < xs.len() && #[trigger] value_is(a, xs[i], v) ==> value_is(b, r[i], v),
    ensures
        values_are(b, r, vs),
{
    assert forall|i: int| 0 <= i < r.len() implies #[trigger] value_is(b, r[i], vs[i]) by {
        assert(value_is(a, xs[i], vs[i]));
    }
}

/// Output values carried from one list of wrappers to another, index by index.
proof fn lemma_carry_outputs(a: crate::graph::Graph, b: crate::graph::Graph, ws: Seq<usize>, r: Seq<usize>, vs: Seq<bool>)
    requires
        r.len() == ws.len(),
        outputs_are(a, ws, vs),
        forall|i: int, v: bool|
            0 <= i < ws.len() && #[trigger] value_is(a, Input::ChipOutput(ws[i]), v) ==> value_is(b, Input::ChipOutput(r[i]), v),
    ensures
        outputs_are(b, r, vs),
{
    assert forall|i: int| 0 <= i < r.len() implies #[trigger] value_is(b, Input::ChipOutput(r[i]), vs[i]) by {
        assert(value_is(a, Input::ChipOutput(ws[i]), vs[i]));
    }
}

/// Ports bound to wires of known values carry those values.
proof fn lemma_ports_values(g: Graph, fin: Graph, xs: Seq<Input>, r: Seq<Input>, vs: Seq<bool>)
    requires
        g.wf(),
        wired_like(fin, g),
        r.len() == xs.len(),
        forall|i: int|
            0 <= i < r.len() ==> (#[trigger] r[i]) is ChipInput && (r[i]->ChipInput_0 as int) < fin.chip_inputs.len()
                && fin.chip_inputs[r[i]->ChipInput_0 as int] == xs[i],
        values_are(g, xs, vs),
    ensures
        values_are(g, r, vs),
{
    assert forall|i: int| 0 <= i < r.len() implies #[trigger] value_is(g, r[i], vs[i]) by {
        let p = r[i]->ChipInput_0;
        assert(g.chip_inputs[p as int] == fin.chip_inputs[p as int]);
        assert(value_is(g, xs[i], vs[i]));
        lemma_value_chip_input(g, p, vs[i]);
    }
}

/// Outputs forwarding outputs of known values carry those values.
proof fn lemma_exposed_values(g: Graph, fin: Graph, ws: Seq<usize>, r: Seq<usize>, vs: Seq<bool>)
    requires
        g.wf(),
        wired_like(fin, g),
        r.len() == ws.len(),
        forall|i: int|
            0 <= i < r.len() ==> (#[trigger] r[i]) < fin.wrappers.len() && fin.wrappers[r[i] as int] < fin.outputs.len()
                && fin.outputs[fin.wrappers[r[i] as int] as int].out == Some(ChipOutputType::ChipOutput(ws[i])),
        outputs_are(g, ws, vs),
    ensures
        outputs_are(g, r, vs),
{
    assert forall|i: int| 0 <= i < r.len() implies #[trigger] value_is(g, Input::ChipOutput(r[i]), vs[i]) by {
        let o = fin.wrappers[r[i] as int];
        assert(g.wrappers[r[i] as int] == o);
        assert(g.outputs[o as int].out == fin.outputs[o as int].out);
        assert(value_is(g, Input::ChipOutput(ws[i]), vs[i]));
        lemma_value_output(g, r[i], ChipOutputType::ChipOutput(ws[i]), vs[i]);
    }
}

/// Input ports for each wire of `xs`, as wires.
fn ports(alloc: &mut Circuit, xs: &Vec<Input>, label: &'static str) -> (r: Vec<Input>)
    requires
        old(alloc).inv(),
        all_valid(old(alloc), xs@),
    ensures
        builds(old(alloc), final(alloc)),
        final(alloc).chips@ == old(alloc).chips@,
        r.len() == xs.len(),
        all_valid(final(alloc), r@),
        forall|i: int|
            0 <= i < r.len() ==> (#[trigger] r@[i]) is ChipInput && (r@[i]->ChipInput_0 as int) < final(alloc)@.chip_inputs.len()
                && final(alloc)@.chip_inputs[r@[i]->ChipInput_0 as int] == xs@[i],
        forall|g: Graph, vs: Seq<bool>|
            #![trigger rewires(old(alloc)@, final(alloc)@, g), values_are(g, xs@, vs)]
            g.wf() && rewires(old(alloc)@, final(alloc)@, g) && values_are(g, xs@, vs) ==> values_are(g, r@, vs),
        forall|i: int, v: bool|
            0 <= i < xs.len() && #[trigger] value_is(old(alloc)@, xs@[i], v) ==> value_is(final(alloc)@, r@[i], v),
{
    let mut r: Vec<Input> = Vec::new();
    let mut i: usize = 0;
    while i < xs.len()
        invariant
            i <= xs.len(),
            builds(old(alloc), alloc),
            alloc.chips@ == old(alloc).chips@,
            all_valid(old(alloc), xs@),
            old(alloc).inv(),
            r.len() == i,
            all_valid(alloc, r@),
            forall|j: int|
                0 <= j < i ==> (#[trigger] r@[j]) is ChipInput && (r@[j]->ChipInput_0 as int) < alloc@.chip_inputs.len()
                    && alloc@.chip_inputs[r@[j]->ChipInput_0 as int] == xs@[j],
        decreases xs.len() - i,
    {
        let ghost g = alloc@;
        let p = port(alloc, xs[i], label);
        r.push(p);
        proof {
            assert forall|j: int|
                0 <= j < i + 1 implies (#[trigger] r@[j]) is ChipInput && (r@[j]->ChipInput_0 as int) < alloc@.chip_inputs.len()
                    && alloc@.chip_inputs[r@[j]->ChipInput_0 as int] == xs@[j] by {
                if j < i {
                    assert(g.chip_inputs[r@[j]->ChipInput_0 as int] == xs@[j]);
                }
            }
        }
        i = i + 1;
    }
    proof {
        assert forall|g: Graph, vs: Seq<bool>| g.wf() && rewires(old(alloc)@, alloc@, g) && values_are(g, xs@, vs) implies values_are(
            g,
            r@,
            vs,
        ) by {
            lemma_ports_values(g, alloc@, xs@, r@, vs);
        }
        assert forall|j: int, v: bool| 0 <= j < xs.len() && #[trigger] value_is(old(alloc)@, xs@[j], v) implies value_is(
            alloc@,
            r@[j],
            v,
        ) by {
            assert(old(alloc)@.valid_input(xs@[j]));
            lemma_value_grow(old(alloc)@, alloc@, xs@[j], v);
            let p = r@[j]->ChipInput_0;
            lemma_value_chip_input(alloc@, p, v);
        }
    }
    r
}

/// Outputs of chip `chip` forwarding each wrapper of `ws`.
fn expose_all(alloc: &mut Circuit, chip: usize, ws: &Vec<usize>) -> (r: Vec<usize>)
    requires
        old(alloc).inv(),
        chip < old(alloc).chips.len(),
        all_wrappers(old(alloc), ws@),
    ensures
        builds(old(alloc), final(alloc)),
        final(alloc).chips@ == old(alloc).chips@,
        r.len() == ws.len(),
        all_wrappers(final(alloc), r@),
        all_fresh(old(alloc), r@),
        forall|i: int|
            0 <= i < r.len() ==> (#[trigger] r@[i]) < final(alloc)@.wrappers.len() && final(alloc)@.wrappers[r@[i] as int]
                < final(alloc)@.outputs.len() && final(alloc)@.outputs[final(alloc)@.wrappers[r@[i] as int] as int].out
                == Some(ChipOutputType::ChipOutput(ws@[i])),
        forall|g: Graph, vs: Seq<bool>|
            #![trigger rewires(old(alloc)@, final(alloc)@, g), outputs_are(g, ws@, vs)]
            g.wf() && rewires(old(alloc)@, final(alloc)@, g) && outputs_are(g, ws@, vs) ==> outputs_are(g, r@, vs),
        forall|i: int, v: bool|
            0 <= i < ws.len() && #[trigger] value_is(old(alloc)@, Input::ChipOutput(ws@[i]), v) ==> value_is(
                final(alloc)@,
                Input::ChipOutput(r@[i]),
                v,
            ),
{
    let mut r: Vec<usize> = Vec::new();
    let mut i: usize = 0;
    while i < ws.len()
        invariant
            i <= ws.len(),
            builds(old(alloc), alloc),
            alloc.chips@ == old(alloc).chips@,
            chip < alloc.chips.len(),
            all_wrappers(old(alloc), ws@),
            old(alloc).inv(),
            r.len() == i,
            all_wrappers(alloc, r@),
            all_fresh(old(alloc), r@),
            forall|j: int|
                0 <= j < i ==> (#[trigger] r@[j]) < alloc@.wrappers.len() && alloc@.wrappers[r@[j] as int]
                    < alloc@.outputs.len() && alloc@.outputs[alloc@.wrappers[r@[j] as int] as int].out
                    == Some(ChipOutputType::ChipOutput(ws@[j])),
        decreases ws.len() - i,
    {
        proof {
            assert(ws@[i as int] < old(alloc)@.wrappers.len());
        }
        let ghost g = alloc@;
        let w = expose(alloc, chip, Input::ChipOutput(ws[i]));
        r.push(w);
        proof {
            assert forall|j: int|
                0 <= j < i + 1 implies (#[trigger] r@[j]) < alloc@.wrappers.len() && alloc@.wrappers[r@[j] as int]
                    < alloc@.outputs.len() && alloc@.outputs[alloc@.wrappers[r@[j] as int] as int].out
                    == Some(ChipOutputType::ChipOutput(ws@[j])) by {
                if j < i {
                    assert(g.wrappers[r@[j] as int] == alloc@.wrappers[r@[j] as int]);
                    assert(g.outputs[g.wrappers[r@[j] as int] as int] == alloc@.outputs[g.wrappers[r@[j] as int] as int]);
                }
            }
        }
        i = i + 1;
    }
    proof {
        assert forall|g: Graph, vs: Seq<bool>| g.wf() && rewires(old(alloc)@, alloc@, g) && outputs_are(g, ws@, vs) implies outputs_are(
            g,
            r@,
            vs,
        ) by {
            lemma_exposed_values(g, alloc@, ws@, r@, vs);
        }
        assert forall|j: int, v: bool|
            0 <= j < ws.len() && #[trigger] value_is(old(alloc)@, Input::ChipOutput(ws@[j]), v) implies value_is(
            alloc@,
            Input::ChipOutput(r@[j]),
            v,
        ) by {
            assert(ws@[j] < old(alloc)@.wrappers.len());
            lemma_value_grow(old(alloc)@, alloc@, Input::ChipOutput(ws@[j]), v);
            lemma_value_output(alloc@, r@[j], ChipOutputType::ChipOutput(ws@[j]), v);
        }
    }
    r
}

/// Sixteen NOT gates side by side.
pub fn not16(alloc: &mut Circuit, input: &Vec<Input>) -> (r: Vec<usize>)
    requires
        old(alloc).inv(),
        input.len() == 16,
        all_valid(old(alloc), input@),
    ensures
        builds(old(alloc), final(alloc)),
        r.len() == 16,
        all_wrappers(final(alloc), r@),
        all_fresh(old(alloc), r@),
        forall|g: Graph, vx: Seq<bool>|
            #![trigger rewires(old(alloc)@, final(alloc)@, g), values_are(g, input@, vx)]
            g.wf() && rewires(old(alloc)@, final(alloc)@, g) && values_are(g, input@, vx) ==> outputs_are(
                g,
                r@,
                not_bits(vx),
            ),
{
    let chip = alloc.new_chip("Not16");
    let ghost g0 = alloc@;
    let a = ports(alloc, input, "input");
    let ghost g1 = alloc@;
    let mut outs: Vec<usize> = Vec::new();
    let mut i: usize = 0;
    while i < a.len()
        invariant
            i <= a.len(),
            a.len() == 16,
            builds(old(alloc), alloc),
            g1.grows_to(alloc@),
            chip < alloc.chips.len(),
            all_valid(alloc, a@),
            outs.len() == i,
            all_wrappers(alloc, outs@),
            forall|h: Graph, xa: Seq<bool>|
                #![trigger rewires(g1, alloc@, h), values_are(h, a@, xa)]
                h.wf() && rewires(g1, alloc@, h) && values_are(h, a@, xa) ==> forall|j: int|
                    0 <= j < i ==> value_is(h, Input::ChipOutput(#[trigger] outs@[j]), !xa[j]),
        decreases a.len() - i,
    {
        proof {
            assert(alloc@.valid_input(a@[i as int]));
        }
        let ghost hb = alloc@;
        let ghost prev = outs@;
        let o = not(alloc, a[i]);
        outs.push(o);
        proof {
            lemma_grows_trans(g1, hb, alloc@);
            assert forall|h: Graph, xa: Seq<bool>|
                #![trigger rewires(g1, alloc@, h), values_are(h, a@, xa)]
                h.wf() && rewires(g1, alloc@, h) && values_are(h, a@, xa) implies forall|j: int|
                    0 <= j < i + 1 ==> value_is(h, Input::ChipOutput(#[trigger] outs@[j]), !xa[j]) by {
                lemma_rewires_split(g1, hb, alloc@, h);
                assert(value_is(h, a@[i as int], xa[i as int]));
                assert forall|j: int| 0 <= j < i + 1 implies value_is(h, Input::ChipOutput(#[trigger] outs@[j]), !xa[j]) by {
                    if j < i {
                        assert(outs@[j] == prev[j]);
                    }
                }
            }
        }
        i = i + 1;
    }
    let ghost g2 = alloc@;
    let r = expose_all(alloc, chip, &outs);
    proof {
        assert forall|h: Graph, xa: Seq<bool>|
            h.wf() && rewires(old(alloc)@, alloc@, h) && values_are(h, input@, xa) implies outputs_are(h, r@, not_bits(xa)) by {
            lemma_rewires_steps(seq![old(alloc)@, g0, g1, g2, alloc@], h);
            assert(rewires(old(alloc)@, g0, h));
            assert(rewires(g0, g1, h));
            assert(rewires(g1, g2, h));
            assert(rewires(g2, alloc@, h));
            assert(values_are(h, a@, xa));
            assert forall|j: int| 0 <= j < 16 implies #[trigger] value_is(h, Input::ChipOutput(outs@[j]), not_bits(xa)[j]) by {
                assert(value_is(h, Input::ChipOutput(outs@[j]), !xa[j]));
            }
            assert(outputs_are(h, outs@, not_bits(xa)));
        }
    }
    r
}

/// Applies a two-input gate bit by bit: AND when `is_and`, else OR.
fn bitwise(alloc: &mut Circuit, a: &Vec<Input>, b: &Vec<Input>, is_and: bool) -> (r: Vec<usize>)
    requires
        old(alloc).inv(),
        a.len() == b.len(),
        all_valid(old(alloc), a@),
        all_valid(old(alloc), b@),
    ensures
        builds(old(alloc), final(alloc)),
        final(alloc).chips@.len() >= old(alloc).chips@.len(),
        r.len() == a.len(),
        all_wrappers(final(alloc), r@),
        all_fresh(old(alloc), r@),
        forall|g: Graph, xa: Seq<bool>, xb: Seq<bool>|
            #![trigger rewires(old(alloc)@, final(alloc)@, g), values_are(g, a@, xa), values_are(g, b@, xb)]
            g.wf() && rewires(old(alloc)@, final(alloc)@, g) && values_are(g, a@, xa) && values_are(g, b@, xb) ==> outputs_are(
                g,
                r@,
                if is_and {
                    and_bits(xa, xb)
                } else {
                    or_bits(xa, xb)
                },
            ),
{
    let ghost g0 = alloc@;
    let mut outs: Vec<usize> = Vec::new();
    let mut i: usize = 0;
    while i < a.len()
        invariant
            i <= a.len(),
            a.len() == b.len(),
            builds(old(alloc), alloc),
            g0 == old(alloc)@,
            all_valid(alloc, a@),
            all_valid(alloc, b@),
            outs.len() == i,
            all_wrappers(alloc, outs@),
            all_fresh(old(alloc), outs@),
            forall|h: Graph, xa: Seq<bool>, xb: Seq<bool>|
                #![trigger rewires(g0, alloc@, h), values_are(h, a@, xa), values_are(h, b@, xb)]
                h.wf() && rewires(g0, alloc@, h) && values_are(h, a@, xa) && values_are(h, b@, xb) ==> forall|j: int|
                    0 <= j < i ==> value_is(
                        h,
                        Input::ChipOutput(#[trigger] outs@[j]),
                        if is_and { xa[j] && xb[j] } else { xa[j] || xb[j] },
                    ),
        decreases a.len() - i,
    {
        proof {
            assert(alloc@.valid_input(a@[i as int]));
            assert(alloc@.valid_input(b@[i as int]));
        }
        let ghost hb = alloc@;
        let ghost prev = outs@;
        let o = if is_and {
            and(alloc, a[i], b[i])
        } else {
            or(alloc, a[i], b[i])
        };
        outs.push(o);
        proof {
            assert forall|h: Graph, xa: Seq<bool>, xb: Seq<bool>|
                #![trigger rewires(g0, alloc@, h), values_are(h, a@, xa), values_are(h, b@, xb)]
                h.wf() && rewires(g0, alloc@, h) && values_are(h, a@, xa) && values_are(h, b@, xb) implies forall|j: int|
                    0 <= j < i + 1 ==> value_is(
                        h,
                        Input::ChipOutput(#[trigger] outs@[j]),
                        if is_and { xa[j] && xb[j] } else { xa[j] || xb[j] },
                    ) by {
                lemma_rewires_split(g0, hb, alloc@, h);
                assert(value_is(h, a@[i as int], xa[i as int]));
                assert(value_is(h, b@[i as int], xb[i as int]));
                assert forall|j: int| 0 <= j < i + 1 implies value_is(
                    h,
                    Input::ChipOutput(#[trigger] outs@[j]),
                    if is_and { xa[j] && xb[j] } else { xa[j] || xb[j] },
                ) by {
                    if j < i {
                        assert(outs@[j] == prev[j]);
                    }
                }
            }
        }
        i = i + 1;
    }
    proof {
        assert forall|h: Graph, xa: Seq<bool>, xb: Seq<bool>|
            h.wf() && rewires(g0, alloc@, h) && values_are(h, a@, xa) && values_are(h, b@, xb) implies outputs_are(
            h,
            outs@,
            if is_and { and_bits(xa, xb) } else { or_bits(xa, xb) },
        ) by {
            assert forall|j: int| 0 <= j < outs.len() implies value_is(
                h,
                Input::ChipOutput(#[trigger] outs@[j]),
                (if is_and { and_bits(xa, xb) } else { or_bits(xa, xb) })[j],
            ) by {
                assert(value_is(h, Input::ChipOutput(outs@[j]), if is_and { xa[j] && xb[j] } else { xa[j] || xb[j] }));
            }
        }
    }
    outs
}

/// Sixteen AND gates side by side.
pub fn and16(alloc: &mut Circuit, in1: &Vec<Input>, in2: &Vec<Input>) -> (r: Vec<usize>)
    requires
        old(alloc).inv(),
        in1.len() == 16,
        all_valid(old(alloc), in1@),
        in2.len() == 16,
        all_valid(old(alloc), in2@),
    ensures
        builds(old(alloc), final(alloc)),
        r.len() == 16,
        all_wrappers(final(alloc), r@),
        all_fresh(old(alloc), r@),
        forall|g: Graph, va: Seq<bool>, vb: Seq<bool>|
            #![trigger rewires(old(alloc)@, final(alloc)@, g), values_are(g, in1@, va), values_are(g, in2@, vb)]
            g.wf() && rewires(old(alloc)@, final(alloc)@, g) && values_are(g, in1@, va) && values_are(g, in2@, vb)
                ==> outputs_are(g, r@, and_bits(va, vb)),
{
    let chip = alloc.new_chip("And16");
    let ghost g0 = alloc@;
    let a = ports(alloc, in1, "in1");
    let ghost g1 = alloc@;
    let b = ports(alloc, in2, "in2");
    let ghost g2 = alloc@;
    let outs = bitwise(alloc, &a, &b, true);
    let ghost g3 = alloc@;
    let r = expose_all(alloc, chip, &outs);
    proof {
        assert forall|h: Graph, va: Seq<bool>, vb: Seq<bool>|
            h.wf() && rewires(old(alloc)@, alloc@, h) && values_are(h, in1@, va) && values_are(h, in2@, vb) implies outputs_are(
            h,
            r@,
            and_bits(va, vb),
        ) by {
            lemma_rewires_steps(seq![old(alloc)@, g0, g1, g2, g3, alloc@], h);
            assert(rewires(old(alloc)@, g0, h));
            assert(rewires(g0, g1, h));
            assert(rewires(g1, g2, h));
            assert(rewires(g2, g3, h));
            assert(rewires(g3, alloc@, h));
            assert(values_are(h, a@, va));
            assert(values_are(h, b@, vb));
            assert(outputs_are(h, outs@, and_bits(va, vb)));
        }
    }
    r
}

/// Two OR gates side by side.
pub fn or2(alloc: &mut Circuit, in1: &Vec<Input>, in2: &Vec<Input>) -> (r: Vec<usize>)
    requires
        old(alloc).inv(),
        in1.len() == 2,
        all_valid(old(alloc), in1@),
        in2.len() == 2,
        all_valid(old(alloc), in2@),
    ensures
        builds(old(alloc), final(alloc)),
        r.len() == 2,
        all_wrappers(final(alloc), r@),
        all_fresh(old(alloc), r@),
        forall|g: Graph, va: Seq<bool>, vb: Seq<bool>|
            #![trigger rewires(old(alloc)@, final(alloc)@, g), values_are(g, in1@, va), values_are(g, in2@, vb)]
            g.wf() && rewires(old(alloc)@, final(alloc)@, g) && values_are(g, in1@, va) && values_are(g, in2@, vb)
                ==> outputs_are(g, r@, or_bits(va, vb)),
{
    let chip = alloc.new_chip("Or2");
    let ghost g0 = alloc@;
    let a = ports(alloc, in1, "in1");
    let ghost g1 = alloc@;
    let b = ports(alloc, in2, "in2");
    let ghost g2 = alloc@;
    let outs = bitwise(alloc, &a, &b, false);
    let ghost g3 = alloc@;
    let r = expose_all(alloc, chip, &outs);
    proof {
        assert forall|h: Graph, va: Seq<bool>, vb: Seq<bool>|
            h.wf() && rewires(old(alloc)@, alloc@, h) && values_are(h, in1@, va) && values_are(h, in2@, vb) implies outputs_are(
            h,
            r@,
            or_bits(va, vb),
        ) by {
            lemma_rewires_steps(seq![old(alloc)@, g0, g1, g2, g3, alloc@], h);
            assert(rewires(old(alloc)@, g0, h));
            assert(rewires(g0, g1, h));
            assert(rewires(g1, g2, h));
            assert(rewires(g2, g3, h));
            assert(rewires(g3, alloc@, h));
            assert(values_are(h, a@, va));
            assert(values_are(h, b@, vb));
            assert(outputs_are(h, outs@, or_bits(va, vb)));
        }
    }
    r
}

/// Sixteen MUX gates sharing one selector.
pub fn mux16(alloc: &mut Circuit, in1: &Vec<Input>, in2: &Vec<Input>, sel: Input) -> (r: Vec<usize>)
    requires
        old(alloc).inv(),
        in1.len() == 16,
        all_valid(old(alloc), in1@),
        in2.len() == 16,
        all_valid(old(alloc), in2@),
        old(alloc)@.valid_input(sel),
    ensures
        builds(old(alloc), final(alloc)),
        r.len() == 16,
        all_wrappers(final(alloc), r@),
        all_fresh(old(alloc), r@),
        forall|vs: bool|
            has_values(old(alloc)@, in1@) && has_values(old(alloc)@, in2@) && #[trigger] value_is(old(alloc)@, sel, vs)
                ==> outputs_are(
                final(alloc)@,
                r@,
                if vs {
                    vals(old(alloc)@, in2@)
                } else {
                    vals(old(alloc)@, in1@)
                },
            ),
        forall|g: Graph, va: Seq<bool>, vb: Seq<bool>, vs: bool|
            #![trigger rewires(old(alloc)@, final(alloc)@, g), values_are(g, in1@, va), values_are(g, in2@, vb), value_is(g, sel, vs)]
            g.wf() && rewires(old(alloc)@, final(alloc)@, g) && values_are(g, in1@, va) && values_are(g, in2@, vb)
                && value_is(g, sel, vs) ==> outputs_are(g, r@, if vs { vb } else { va }),
{
    let ghost g0 = alloc@;
    let chip = alloc.new_chip("Mux16");
    let ghost g1 = alloc@;
    let a = ports(alloc, in1, "in1");
    let ghost g2 = alloc@;
    let b = ports(alloc, in2, "in2");
    let ghost g3 = alloc@;
    let s = port(alloc, sel, "sel");
    let ghost g4 = alloc@;
    let ghost d = has_values(g0, in1@) && has_values(g0, in2@) && has_value(g0, sel);
    let ghost va = vals(g0, in1@);
    let ghost vb = vals(g0, in2@);
    let ghost vs = val(g0, sel);
    let ghost want = if vs { vb } else { va };
    proof {
        if d {
            lemma_values_of(g0, in1@);
            lemma_values_of(g0, in2@);
            assert(value_is(g0, sel, vs));
            lemma_values_grow(g0, g1, in1@, va);
            lemma_values_grow(g0, g2, in2@, vb);
            lemma_carry_values(g1, g2, in1@, a@, va);
            lemma_values_grow(g2, g4, a@, va);
            lemma_carry_values(g2, g3, in2@, b@, vb);
            lemma_values_grow(g3, g4, b@, vb);
            lemma_value_grow(g0, g3, sel, vs);
            assert(value_is(g4, s, vs));
        }
    }
    let mut outs: Vec<usize> = Vec::new();
    let mut i: usize = 0;
    while i < a.len()
        invariant
            i <= a.len(),
            a.len() == 16,
            b.len() == 16,
            va.len() == 16,
            vb.len() == 16,
            want == (if vs { vb } else { va }),
            builds(old(alloc), alloc),
            chip < alloc.chips.len(),
            all_valid(alloc, a@),
            all_valid(alloc, b@),
            alloc@.valid_input(s),
            outs.len() == i,
            all_wrappers(alloc, outs@),
            alloc@.wf(),
            d ==> values_are(alloc@, a@, va) && values_are(alloc@, b@, vb) && value_is(alloc@, s, vs),
            d ==> outputs_are(alloc@, outs@, want.take(i as int)),
            g4.grows_to(alloc@),
            forall|h: Graph, xa: Seq<bool>, xb: Seq<bool>, xs: bool|
                #![trigger rewires(g4, alloc@, h), values_are(h, a@, xa), values_are(h, b@, xb), value_is(h, s, xs)]
                h.wf() && rewires(g4, alloc@, h) && values_are(h, a@, xa) && values_are(h, b@, xb) && value_is(h, s, xs)
                    ==> forall|j: int|
                    0 <= j < i ==> value_is(h, Input::ChipOutput(#[trigger] outs@[j]), if xs { xb[j] } else { xa[j] }),
        decreases a.len() - i,
    {
        proof {
            assert(alloc@.valid_input(a@[i as int]));
            assert(alloc@.valid_input(b@[i as int]));
        }
        let ghost g = alloc@;
        let ghost os = outs@;
        proof {
            assert forall|k: int| 0 <= k < 16 implies g.valid_input(#[trigger] a@[k]) && g.valid_input(b@[k]) by {
                assert(alloc@.valid_input(a@[k]));
                assert(alloc@.valid_input(b@[k]));
            }
        }
        let ghost hb = alloc@;
        let ghost prev = outs@;
        let o = mux(alloc, a[i], b[i], s);
        outs.push(o);
        proof {
            lemma_grows_trans(g4, hb, alloc@);
            assert forall|h: Graph, xa: Seq<bool>, xb: Seq<bool>, xs: bool|
                h.wf() && rewires(g4, alloc@, h) && values_are(h, a@, xa) && values_are(h, b@, xb) && value_is(h, s, xs)
                    implies forall|j: int|
                    0 <= j < i + 1 ==> value_is(h, Input::ChipOutput(#[trigger] outs@[j]), if xs { xb[j] } else { xa[j] }) by {
                lemma_rewires_split(g4, hb, alloc@, h);
                assert(value_is(h, a@[i as int], xa[i as int]));
                assert(value_is(h, b@[i as int], xb[i as int]));
                assert(value_is(h, Input::ChipOutput(o), if xs { xb[i as int] } else { xa[i as int] }));
                assert forall|j: int| 0 <= j < i + 1 implies value_is(h, Input::ChipOutput(#[trigger] outs@[j]), if xs { xb[j] } else { xa[j] }) by {
                    if j < i {
                        assert(outs@[j] == prev[j]);
                    }
                }
            }
        }
        proof {
            if d {
                assert(value_is(g, a@[i as int], va[i as int]));
                assert(value_is(g, b@[i as int], vb[i as int]));
                assert(value_is(alloc@, Input::ChipOutput(o), want[i as int]));
                lemma_values_grow(g, alloc@, a@, va);
                lemma_values_grow(g, alloc@, b@, vb);
                lemma_value_grow(g, alloc@, s, vs);
                assert(want.take(i + 1) =~= want.take(i as int).push(want[i as int]));
                lemma_outputs_push(g, alloc@, os, want.take(i as int), o, want[i as int]);
            }
        }
        i = i + 1;
    }
    let ghost g5 = alloc@;
    let r = expose_all(alloc, chip, &outs);
    proof {
        assert forall|h: Graph, xa: Seq<bool>, xb: Seq<bool>, xs: bool|
            h.wf() && rewires(old(alloc)@, alloc@, h) && values_are(h, in1@, xa) && values_are(h, in2@, xb) && value_is(h, sel, xs)
                implies outputs_are(h, r@, if xs { xb } else { xa }) by {
            lemma_rewires_steps(seq![g0, g1, g2, g3, g4, g5, alloc@], h);
            assert(rewires(g0, g1, h));
            assert(rewires(g1, g2, h));
            assert(rewires(g2, g3, h));
            assert(rewires(g3, g4, h));
            assert(rewires(g4, g5, h));
            assert(rewires(g5, alloc@, h));
            assert(values_are(h, a@, xa));
            assert(values_are(h, b@, xb));
            assert(value_is(h, s, xs));
            assert(outputs_are(h, outs@, if xs { xb } else { xa }));
        }
        if d {
            assert(want.take(16) =~= want);
            lemma_carry_outputs(g5, alloc@, outs@, r@, want);
        }
        assert forall|v: bool|
            has_values(g0, in1@) && has_values(g0, in2@) && #[trigger] value_is(g0, sel, v) implies outputs_are(
            alloc@,
            r@,
            if v { vb } else { va },
        ) by {
            assert(has_value(g0, sel));
            lemma_value_unique(g0, sel, v, vs);
        }
    }
    r
}

/// Sixteen DEMUX gates sharing one selector.
pub fn demux16(alloc: &mut Circuit, in_: &Vec<Input>, sel: Input) -> (r: (Vec<usize>, Vec<usize>))
    requires
        old(alloc).inv(),
        in_.len() == 16,
        all_valid(old(alloc), in_@),
        old(alloc)@.valid_input(sel),
    ensures
        builds(old(alloc), final(alloc)),
        r.0.len() == 16,
        r.1.len() == 16,
        all_wrappers(final(alloc), r.0@),
        all_fresh(old(alloc), r.0@),
        all_wrappers(final(alloc), r.1@),
        all_fresh(old(alloc), r.1@),
        forall|g: Graph, va: Seq<bool>, vs: bool|
            #![trigger rewires(old(alloc)@, final(alloc)@, g), values_are(g, in_@, va), value_is(g, sel, vs)]
            g.wf() && rewires(old(alloc)@, final(alloc)@, g) && values_are(g, in_@, va) && value_is(g, sel, vs)
                ==> outputs_are(g, r.0@, zero_bits(va, vs)) && outputs_are(g, r.1@, Seq::new(16, |k: int| va[k] && vs)),
{
    let chip = alloc.new_chip("Demux16");
    let ghost g0 = alloc@;
    let a = ports(alloc, in_, "in_");
    let ghost g1 = alloc@;
    let s = port(alloc, sel, "sel");
    let ghost g2 = alloc@;
    let mut out1: Vec<usize> = Vec::new();
    let mut out2: Vec<usize> = Vec::new();
    let mut i: usize = 0;
    while i < a.len()
        invariant
            i <= a.len(),
            a.len() == 16,
            builds(old(alloc), alloc),
            g2.grows_to(alloc@),
            chip < alloc.chips.len(),
            all_valid(alloc, a@),
            alloc@.valid_input(s),
            out1.len() == i,
            out2.len() == i,
            all_wrappers(alloc, out1@),
            all_wrappers(alloc, out2@),
            forall|h: Graph, xa: Seq<bool>, xs: bool|
                #![trigger rewires(g2, alloc@, h), values_are(h, a@, xa), value_is(h, s, xs)]
                h.wf() && rewires(g2, alloc@, h) && values_are(h, a@, xa) && value_is(h, s, xs) ==> forall|j: int|
                    0 <= j < i ==> value_is(h, Input::ChipOutput(#[trigger] out1@[j]), xa[j] && !xs),
            forall|h: Graph, xa: Seq<bool>, xs: bool|
                #![trigger rewires(g2, alloc@, h), values_are(h, a@, xa), value_is(h, s, xs)]
                h.wf() && rewires(g2, alloc@, h) && values_are(h, a@, xa) && value_is(h, s, xs) ==> forall|j: int|
                    0 <= j < i ==> value_is(h, Input::ChipOutput(#[trigger] out2@[j]), xa[j] && xs),
        decreases a.len() - i,
    {
        proof {
            assert(alloc@.valid_input(a@[i as int]));
        }
        let ghost hb = alloc@;
        let ghost p1 = out1@;
        let ghost p2 = out2@;
        let (o1, o2) = demux(alloc, a[i], s);
        out1.push(o1);
        out2.push(o2);
        proof {
            lemma_grows_trans(g2, hb, alloc@);
            assert forall|h: Graph, xa: Seq<bool>, xs: bool|
                #![trigger rewires(g2, alloc@, h), values_are(h, a@, xa), value_is(h, s, xs)]
                h.wf() && rewires(g2, alloc@, h) && values_are(h, a@, xa) && value_is(h, s, xs) implies (forall|j: int|
                    0 <= j < i + 1 ==> value_is(h, Input::ChipOutput(#[trigger] out1@[j]), xa[j] && !xs)) && (forall|j: int|
                    0 <= j < i + 1 ==> value_is(h, Input::ChipOutput(#[trigger] out2@[j]), xa[j] && xs)) by {
                lemma_rewires_split(g2, hb, alloc@, h);
                assert(value_is(h, a@[i as int], xa[i as int]));
                assert forall|j: int| 0 <= j < i + 1 implies value_is(h, Input::ChipOutput(#[trigger] out1@[j]), xa[j] && !xs) by {
                    if j < i {
                        assert(out1@[j] == p1[j]);
                    }
                }
                assert forall|j: int| 0 <= j < i + 1 implies value_is(h, Input::ChipOutput(#[trigger] out2@[j]), xa[j] && xs) by {
                    if j < i {
                        assert(out2@[j] == p2[j]);
                    }
                }
            }
        }
        i = i + 1;
    }
    let ghost g3 = alloc@;
    let r1 = expose_all(alloc, chip, &out1);
    let ghost g4 = alloc@;
    let r2 = expose_all(alloc, chip, &out2);
    proof {
        assert forall|h: Graph, xa: Seq<bool>, xs: bool|
            h.wf() && rewires(old(alloc)@, alloc@, h) && values_are(h, in_@, xa) && value_is(h, sel, xs) implies outputs_are(
            h,
            r1@,
            zero_bits(xa, xs),
        ) && outputs_are(h, r2@, Seq::new(16, |k: int| xa[k] && xs)) by {
            lemma_rewires_steps(seq![old(alloc)@, g0, g1, g2, g3, g4, alloc@], h);
            assert(rewires(old(alloc)@, g0, h));
            assert(rewires(g0, g1, h));
            assert(rewires(g1, g2, h));
            assert(rewires(g2, g3, h));
            assert(rewires(g3, g4, h));
            assert(rewires(g4, alloc@, h));
            assert(values_are(h, a@, xa));
            assert(value_is(h, s, xs));
            assert forall|j: int| 0 <= j < 16 implies #[trigger] value_is(h, Input::ChipOutput(out1@[j]), zero_bits(xa, xs)[j]) by {
                assert(value_is(h, Input::ChipOutput(out1@[j]), xa[j] && !xs));
            }
            assert forall|j: int| 0 <= j < 16 implies value_is(
                h,
                Input::ChipOutput(#[trigger] out2@[j]),
                Seq::new(16, |k: int| xa[k] && xs)[j],
            ) by {
                assert(value_is(h, Input::ChipOutput(out2@[j]), xa[j] && xs));
            }
            assert(outputs_are(h, out1@, zero_bits(xa, xs)));
            assert(outputs_are(h, out2@, Seq::new(16, |k: int| xa[k] && xs)));
        }
    }
    (r1, r2)
}

/// A chain of gates over all wires of `xs`: AND when `is_and`, else OR.
fn chain(alloc: &mut Circuit, xs: &Vec<Input>, is_and: bool) -> (r: usize)
    requires
        old(alloc).inv(),
        xs.len() >= 2,
        all_valid(old(alloc), xs@),
    ensures
        builds(old(alloc), final(alloc)),
        final(alloc).chips@.len() >= old(alloc).chips@.len(),
        r < final(alloc)@.wrappers.len(),
        old(alloc)@.wrappers.len() <= r,
        forall|g: Graph, v: Seq<bool>|
            #![trigger rewires(old(alloc)@, final(alloc)@, g), values_are(g, xs@, v)]
            g.wf() && rewires(old(alloc)@, final(alloc)@, g) && values_are(g, xs@, v) ==> value_is(
                g,
                Input::ChipOutput(r),
                fold_bits(v, is_and),
            ),
{
    let ghost g0 = alloc@;
    proof {
        assert(old(alloc)@.valid_input(xs@[0]));
        assert(old(alloc)@.valid_input(xs@[1]));
    }
    let mut acc = if is_and {
        and(alloc, xs[0], xs[1])
    } else {
        or(alloc, xs[0], xs[1])
    };
    proof {
        assert forall|h: Graph, v: Seq<bool>|
            #![trigger rewires(g0, alloc@, h), values_are(h, xs@, v)]
            h.wf() && rewires(g0, alloc@, h) && values_are(h, xs@, v) implies value_is(
            h,
            Input::ChipOutput(acc),
            fold_bits(v.take(2), is_and),
        ) by {
            assert(value_is(h, xs@[0], v[0]));
            assert(value_is(h, xs@[1], v[1]));
            let (t0, t1, t2) = (v.take(0), v.take(1), v.take(2));
            assert(t1.drop_last() =~= t0);
            assert(t2.drop_last() =~= t1);
            assert(t1.last() == v[0]);
            assert(t2.last() == v[1]);
            assert(fold_bits(t0, is_and) == is_and);
            assert(fold_bits(t1, is_and) == (if is_and { fold_bits(t0, is_and) && t1.last() } else { fold_bits(t0, is_and) || t1.last() }));
            assert(fold_bits(t1, is_and) == v[0]);
            assert(fold_bits(t2, is_and) == (if is_and { fold_bits(t1, is_and) && t2.last() } else { fold_bits(t1, is_and) || t2.last() }));
            if is_and {
                assert(value_is(h, Input::ChipOutput(acc), v[0] && v[1]));
            } else {
                assert(value_is(h, Input::ChipOutput(acc), v[0] || v[1]));
            }
        }
    }
    let mut i: usize = 2;
    while i < xs.len()
        invariant
            2 <= i <= xs.len(),
            builds(old(alloc), alloc),
            g0 == old(alloc)@,
            all_valid(alloc, xs@),
            acc < alloc@.wrappers.len(),
            old(alloc)@.wrappers.len() <= acc,
            forall|h: Graph, v: Seq<bool>|
                #![trigger rewires(g0, alloc@, h), values_are(h, xs@, v)]
                h.wf() && rewires(g0, alloc@, h) && values_are(h, xs@, v) ==> value_is(
                    h,
                    Input::ChipOutput(acc),
                    fold_bits(v.take(i as int), is_and),
                ),
        decreases xs.len() - i,
    {
        proof {
            assert(alloc@.valid_input(xs@[i as int]));
        }
        let ghost hb = alloc@;
        let ghost prev = acc;
        acc = if is_and {
            and(alloc, xs[i], Input::ChipOutput(acc))
        } else {
            or(alloc, xs[i], Input::ChipOutput(acc))
        };
        proof {
            assert forall|h: Graph, v: Seq<bool>|
                #![trigger rewires(g0, alloc@, h), values_are(h, xs@, v)]
                h.wf() && rewires(g0, alloc@, h) && values_are(h, xs@, v) implies value_is(
                h,
                Input::ChipOutput(acc),
                fold_bits(v.take(i + 1), is_and),
            ) by {
                lemma_rewires_split(g0, hb, alloc@, h);
                let p = fold_bits(v.take(i as int), is_and);
                assert(value_is(h, Input::ChipOutput(prev), p));
                assert(value_is(h, xs@[i as int], v[i as int]));
                assert(v.take(i + 1).drop_last() =~= v.take(i as int));
                assert(v.take(i + 1).last() == v[i as int]);
                if is_and {
                    assert(value_is(h, Input::ChipOutput(acc), v[i as int] && p));
                } else {
                    assert(value_is(h, Input::ChipOutput(acc), v[i as int] || p));
                }
            }
        }
        i = i + 1;
    }
    proof {
        assert forall|h: Graph, v: Seq<bool>|
            h.wf() && rewires(g0, alloc@, h) && values_are(h, xs@, v) implies value_is(
            h,
            Input::ChipOutput(acc),
            fold_bits(v, is_and),
        ) by {
            assert(v.take(i as int) =~= v);
        }
    }
    acc
}

/// AND of four wires.
pub fn andmult4(alloc: &mut Circuit, in_: &Vec<Input>) -> (r: usize)
    requires
        old(alloc).inv(),
        in_.len() == 4,
        all_valid(old(alloc), in_@),
    ensures
        builds(old(alloc), final(alloc)),
        r < final(alloc)@.wrappers.len(),
        old(alloc)@.wrappers.len() <= r,
        forall|g: Graph, v: Seq<bool>|
            #![trigger rewires(old(alloc)@, final(alloc)@, g), values_are(g, in_@, v)]
            g.wf() && rewires(old(alloc)@, final(alloc)@, g) && values_are(g, in_@, v) ==> value_is(
                g,
                Input::ChipOutput(r),
                fold_bits(v, true),
            ),
{
    let chip = alloc.new_chip("Andmult4");
    let ghost g0 = alloc@;
    let a = ports(alloc, in_, "in_");
    let ghost g1 = alloc@;
    let out = chain(alloc, &a, true);
    let ghost g2 = alloc@;
    let r = expose(alloc, chip, Input::ChipOutput(out));
    proof {
        assert forall|h: Graph, v: Seq<bool>|
            h.wf() && rewires(old(alloc)@, alloc@, h) && values_are(h, in_@, v) implies value_is(
            h,
            Input::ChipOutput(r),
            fold_bits(v, true),
        ) by {
            lemma_rewires_steps(seq![old(alloc)@, g0, g1, g2, alloc@], h);
            assert(rewires(old(alloc)@, g0, h));
            assert(rewires(g0, g1, h));
            assert(rewires(g1, g2, h));
            assert(rewires(g2, alloc@, h));
            assert(values_are(h, a@, v));
            assert(value_is(h, Input::ChipOutput(out), fold_bits(v, true)));
        }
    }
    r
}

/// OR of sixteen wires.
pub fn ormult16(alloc: &mut Circuit, in_: &Vec<Input>) -> (r: usize)
    requires
        old(alloc).inv(),
        in_.len() == 16,
        all_valid(old(alloc), in_@),
    ensures
        builds(old(alloc), final(alloc)),
        r < final(alloc)@.wrappers.len(),
        old(alloc)@.wrappers.len() <= r,
        forall|g: Graph, v: Seq<bool>|
            #![trigger rewires(old(alloc)@, final(alloc)@, g), values_are(g, in_@, v)]
            g.wf() && rewires(old(alloc)@, final(alloc)@, g) && values_are(g, in_@, v) ==> value_is(
                g,
                Input::ChipOutput(r),
                fold_bits(v, false),
            ),
{
    let chip = alloc.new_chip("Ormult16");
    let ghost g0 = alloc@;
    let a = ports(alloc, in_, "in_");
    let ghost g1 = alloc@;
    let out = chain(alloc, &a, false);
    let ghost g2 = alloc@;
    let r = expose(alloc, chip, Input::ChipOutput(out));
    proof {
        assert forall|h: Graph, v: Seq<bool>|
            h.wf() && rewires(old(alloc)@, alloc@, h) && values_are(h, in_@, v) implies value_is(
            h,
            Input::ChipOutput(r),
            fold_bits(v, false),
        ) by {
            lemma_rewires_steps(seq![old(alloc)@, g0, g1, g2, alloc@], h);
            assert(rewires(old(alloc)@, g0, h));
            assert(rewires(g0, g1, h));
            assert(rewires(g1, g2, h));
            assert(rewires(g2, alloc@, h));
            assert(values_are(h, a@, v));
            assert(value_is(h, Input::ChipOutput(out), fold_bits(v, false)));
        }
    }
    r
}

/// Half adder: (sum, carry) of two bits.
pub fn halfadder(alloc: &mut Circuit, num1: Input, num2: Input) -> (r: (usize, usize))
    requires
        old(alloc).inv(),
        old(alloc)@.valid_input(num1),
        old(alloc)@.valid_input(num2),
    ensures
        builds(old(alloc), final(alloc)),
        r.0 < final(alloc)@.wrappers.len(),
        old(alloc)@.wrappers.len() <= r.0,
        r.1 < final(alloc)@.wrappers.len(),
        old(alloc)@.wrappers.len() <= r.1,
        forall|g: Graph, va: bool, vb: bool|
            #![trigger rewires(old(alloc)@, final(alloc)@, g), value_is(g, num1, va), value_is(g, num2, vb)]
            g.wf() && rewires(old(alloc)@, final(alloc)@, g) && value_is(g, num1, va) && value_is(g, num2, vb) ==> value_is(g, Input::ChipOutput(r.0), va != vb) && value_is(g, Input::ChipOutput(r.1), va && vb),
        forall|va: bool, vb: bool|
            #![trigger value_is(old(alloc)@, num1, va), value_is(old(alloc)@, num2, vb)]
            value_is(old(alloc)@, num1, va) && value_is(old(alloc)@, num2, vb) ==> value_is(final(alloc)@, Input::ChipOutput(r.0), va != vb) && value_is(final(alloc)@, Input::ChipOutput(r.1), va && vb),
{
    let chip = alloc.new_chip("Halfadder");
    let ghost g0 = alloc@;
    let a = port(alloc, num1, "num1");
    let ghost g1 = alloc@;
    let b = port(alloc, num2, "num2");
    let ghost g2 = alloc@;
    let sum = xor(alloc, a, b);
    let ghost g3 = alloc@;
    let carry = and(alloc, a, b);
    let ghost g4 = alloc@;
    let s = expose(alloc, chip, Input::ChipOutput(sum));
    let ghost g5 = alloc@;
    let c = expose(alloc, chip, Input::ChipOutput(carry));
    proof {
        assert forall|g: Graph, va: bool, vb: bool| g.wf() && rewires(old(alloc)@, alloc@, g) && value_is(g, num1, va) && value_is(g, num2, vb) implies value_is(g, Input::ChipOutput(s), va != vb) && value_is(g, Input::ChipOutput(c), va && vb) by {
            lemma_rewires_steps(seq![old(alloc)@, g0, g1, g2, g3, g4, g5, alloc@], g);
            assert(rewires(old(alloc)@, g0, g));
            assert(rewires(g0, g1, g));
            assert(rewires(g1, g2, g));
            assert(rewires(g2, g3, g));
            assert(rewires(g3, g4, g));
            assert(rewires(g4, g5, g));
            assert(rewires(g5, alloc@, g));
            assert(value_is(g, a, va));
            assert(value_is(g, b, vb));
            assert(value_is(g, Input::ChipOutput(sum), va != vb));
            assert(value_is(g, Input::ChipOutput(carry), va && vb));
            assert(value_is(g, Input::ChipOutput(s), va != vb));
        }
    }
    proof {
        assert forall|va: bool, vb: bool| value_is(old(alloc)@, num1, va) && value_is(old(alloc)@, num2, vb) implies value_is(alloc@, Input::ChipOutput(s), va != vb) && value_is(alloc@, Input::ChipOutput(c), va && vb) by {
            lemma_rewires_self(old(alloc)@, alloc@);
            lemma_value_grow(old(alloc)@, alloc@, num1, va);
            lemma_value_grow(old(alloc)@, alloc@, num2, vb);
        }
    }
    (s, c)
}

/// Full adder: (sum, carry) of three bits.
pub fn fulladder(alloc: &mut Circuit, num1: Input, num2: Input, num3: Input) -> (r: (usize, usize))
    requires
        old(alloc).inv(),
        old(alloc)@.valid_input(num1),
        old(alloc)@.valid_input(num2),
        old(alloc)@.valid_input(num3),
    ensures
        builds(old(alloc), final(alloc)),
        r.0 < final(alloc)@.wrappers.len(),
        old(alloc)@.wrappers.len() <= r.0,
        r.1 < final(alloc)@.wrappers.len(),
        old(alloc)@.wrappers.len() <= r.1,
        forall|g: Graph, va: bool, vb: bool, vc: bool|
            #![trigger rewires(old(alloc)@, final(alloc)@, g), value_is(g, num1, va), value_is(g, num2, vb), value_is(g, num3, vc)]
            g.wf() && rewires(old(alloc)@, final(alloc)@, g) && value_is(g, num1, va) && value_is(g, num2, vb) && value_is(g, num3, vc) ==> value_is(g, Input::ChipOutput(r.0), vc != (va != vb)) && value_is(g, Input::ChipOutput(r.1), (va && vb) || (vc && (va != vb))),
        forall|va: bool, vb: bool, vc: bool|
            #![trigger value_is(old(alloc)@, num1, va), value_is(old(alloc)@, num2, vb), value_is(old(alloc)@, num3, vc)]
            value_is(old(alloc)@, num1, va) && value_is(old(alloc)@, num2, vb) && value_is(old(alloc)@, num3, vc) ==> value_is(final(alloc)@, Input::ChipOutput(r.0), vc != (va != vb)) && value_is(final(alloc)@, Input::ChipOutput(r.1), (va && vb) || (vc && (va != vb))),
{
    let chip = alloc.new_chip("Fulladder");
    let ghost g0 = alloc@;
    let a = port(alloc, num1, "num1");
    let ghost g1 = alloc@;
    let b = port(alloc, num2, "num2");
    let ghost g2 = alloc@;
    let c = port(alloc, num3, "num3");
    let ghost g3 = alloc@;
    let (sum1, carry1) = halfadder(alloc, a, b);
    let ghost g4 = alloc@;
    let (sum2, carry2) = halfadder(alloc, c, Input::ChipOutput(sum1));
    let ghost g5 = alloc@;
    let carry = or(alloc, Input::ChipOutput(carry1), Input::ChipOutput(carry2));
    let ghost g6 = alloc@;
    let s = expose(alloc, chip, Input::ChipOutput(sum2));
    let ghost g7 = alloc@;
    let k = expose(alloc, chip, Input::ChipOutput(carry));
    proof {
        assert forall|g: Graph, va: bool, vb: bool, vc: bool| g.wf() && rewires(old(alloc)@, alloc@, g) && value_is(g, num1, va) && value_is(g, num2, vb) && value_is(g, num3, vc) implies value_is(g, Input::ChipOutput(s), vc != (va != vb)) && value_is(g, Input::ChipOutput(k), (va && vb) || (vc && (va != vb))) by {
            lemma_rewires_steps(seq![old(alloc)@, g0, g1, g2, g3, g4, g5, g6, g7, alloc@], g);
            assert(rewires(old(alloc)@, g0, g));
            assert(rewires(g0, g1, g));
            assert(rewires(g1, g2, g));
            assert(rewires(g2, g3, g));
            assert(rewires(g3, g4, g));
            assert(rewires(g4, g5, g));
            assert(rewires(g5, g6, g));
            assert(rewires(g6, g7, g));
            assert(rewires(g7, alloc@, g));
            assert(value_is(g, a, va));
            assert(value_is(g, b, vb));
            assert(value_is(g, c, vc));
            assert(value_is(g, Input::ChipOutput(sum1), va != vb));
            assert(value_is(g, Input::ChipOutput(carry1), va && vb));
            assert(value_is(g, Input::ChipOutput(sum2), vc != (va != vb)));
            assert(value_is(g, Input::ChipOutput(carry2), vc && (va != vb)));
            assert(value_is(g, Input::ChipOutput(carry), (va && vb) || (vc && (va != vb))));
            assert(value_is(g, Input::ChipOutput(s), vc != (va != vb)));
        }
    }
    proof {
        assert forall|va: bool, vb: bool, vc: bool| value_is(old(alloc)@, num1, va) && value_is(old(alloc)@, num2, vb) && value_is(old(alloc)@, num3, vc) implies value_is(alloc@, Input::ChipOutput(s), vc != (va != vb)) && value_is(alloc@, Input::ChipOutput(k), (va && vb) || (vc && (va != vb))) by {
            lemma_rewires_self(old(alloc)@, alloc@);
            lemma_value_grow(old(alloc)@, alloc@, num1, va);
            lemma_value_grow(old(alloc)@, alloc@, num2, vb);
            lemma_value_grow(old(alloc)@, alloc@, num3, vc);
        }
    }
    (s, k)
}

/// Ripple-carry adder of two 16-bit numbers, most significant bit first;
/// the final carry is dropped.
pub fn adder16(alloc: &mut Circuit, num1: &Vec<Input>, num2: &Vec<Input>) -> (r: Vec<usize>)
    requires
        old(alloc).inv(),
        num1.len() == 16,
        all_valid(old(alloc), num1@),
        num2.len() == 16,
        all_valid(old(alloc), num2@),
    ensures
        builds(old(alloc), final(alloc)),
        r.len() == 16,
        all_wrappers(final(alloc), r@),
        all_fresh(old(alloc), r@),
        forall|g: Graph, va: Seq<bool>, vb: Seq<bool>|
            #![trigger rewires(old(alloc)@, final(alloc)@, g), values_are(g, num1@, va), values_are(g, num2@, vb)]
            g.wf() && rewires(old(alloc)@, final(alloc)@, g) && values_are(g, num1@, va) && values_are(g, num2@, vb)
                ==> outputs_are(g, r@, ripple_bits(va, vb)),
{
    let chip = alloc.new_chip("Adder16");
    let ghost g0 = alloc@;
    let a = ports(alloc, num1, "num1");
    let ghost g1 = alloc@;
    let b = ports(alloc, num2, "num2");
    let ghost g2 = alloc@;
    proof {
        assert(alloc@.valid_input(a@[15]));
        assert(alloc@.valid_input(b@[15]));
    }
    let (lsb, mut carry) = halfadder(alloc, a[15], b[15]);
    let mut sums: Vec<usize> = Vec::new();
    sums.push(lsb);
    proof {
        assert forall|g: Graph, va: Seq<bool>, vb: Seq<bool>|
            g.wf() && rewires(g2, alloc@, g) && values_are(g, a@, va) && values_are(g, b@, vb) implies value_is(
            g,
            Input::ChipOutput(carry),
            ripple_carry(va, vb, 1),
        ) && forall|j: int| 0 <= j < sums.len() ==> #[trigger] value_is(g, Input::ChipOutput(sums@[j]), ripple_sum(va, vb, 15 - j)) by {
            assert(va.len() == 16 && vb.len() == 16);
            assert(value_is(g, a@[15], va[15]));
            assert(value_is(g, b@[15], vb[15]));
            assert(value_is(g, Input::ChipOutput(lsb), va[15] != vb[15]));
            assert(value_is(g, Input::ChipOutput(carry), va[15] && vb[15]));
            assert(ripple_carry(va, vb, 0) == false);
            assert(ripple_carry(va, vb, 1) == (va[15] && vb[15]));
            assert(ripple_sum(va, vb, 15) == (va[15] != vb[15]));
            assert(sums@[0] == lsb);
        }
    }
    // sums from the least significant bit up
    let mut i: usize = 15;
    while i > 0
        invariant
            i <= 15,
            a.len() == 16,
            b.len() == 16,
            builds(old(alloc), alloc),
            g2.grows_to(alloc@),
            chip < alloc.chips.len(),
            all_valid(alloc, a@),
            all_valid(alloc, b@),
            carry < alloc@.wrappers.len(),
            sums.len() == 16 - i,
            all_wrappers(alloc, sums@),
            all_fresh(old(alloc), sums@),
            old(alloc)@.wrappers.len() <= carry,
            forall|g: Graph, va: Seq<bool>, vb: Seq<bool>|
                #![trigger rewires(g2, alloc@, g), values_are(g, a@, va), values_are(g, b@, vb)]
                g.wf() && rewires(g2, alloc@, g) && values_are(g, a@, va) && values_are(g, b@, vb) ==> value_is(
                    g,
                    Input::ChipOutput(carry),
                    ripple_carry(va, vb, 16 - i),
                ) && forall|j: int|
                    0 <= j < sums.len() ==> #[trigger] value_is(g, Input::ChipOutput(sums@[j]), ripple_sum(va, vb, 15 - j)),
        decreases i,
    {
        i = i - 1;
        proof {
            assert(alloc@.valid_input(a@[i as int]));
            assert(alloc@.valid_input(b@[i as int]));
        }
        let ghost before = alloc@;
        let ghost ss = sums@;
        let ghost prev = carry;
        let (s, c) = fulladder(alloc, Input::ChipOutput(carry), a[i], b[i]);
        sums.push(s);
        carry = c;
        proof {
            lemma_grows_trans(g2, before, alloc@);
            assert forall|g: Graph, va: Seq<bool>, vb: Seq<bool>|
                g.wf() && rewires(g2, alloc@, g) && values_are(g, a@, va) && values_are(g, b@, vb) implies value_is(
                g,
                Input::ChipOutput(carry),
                ripple_carry(va, vb, 16 - i),
            ) && forall|j: int|
                0 <= j < sums.len() ==> #[trigger] value_is(g, Input::ChipOutput(sums@[j]), ripple_sum(va, vb, 15 - j)) by {
                lemma_rewires_split(g2, before, alloc@, g);
                let cin = ripple_carry(va, vb, 15 - i);
                assert(value_is(g, Input::ChipOutput(prev), cin));
                assert(value_is(g, a@[i as int], va[i as int]));
                assert(value_is(g, b@[i as int], vb[i as int]));
                assert(value_is(g, Input::ChipOutput(s), vb[i as int] != (cin != va[i as int])));
                assert(ripple_carry(va, vb, 16 - i) == ((cin && va[i as int]) || (vb[i as int] && (cin != va[i as int]))));
                assert forall|j: int| 0 <= j < sums.len() implies #[trigger] value_is(g, Input::ChipOutput(sums@[j]), ripple_sum(va, vb, 15 - j)) by {
                    if j < ss.len() {
                        assert(sums@[j] == ss[j]);
                        assert(value_is(g, Input::ChipOutput(ss[j]), ripple_sum(va, vb, 15 - j)));
                    }
                }
            }
        }
    }
    let mut outs: Vec<usize> = Vec::new();
    let mut k: usize = 16;
    while k > 0
        invariant
            k <= 16,
            sums.len() == 16,
            outs.len() == 16 - k,
            all_wrappers(alloc, sums@),
            all_wrappers(alloc, outs@),
            forall|j: int| 0 <= j < outs.len() ==> #[trigger] outs@[j] == sums@[15 - j],
        decreases k,
    {
        k = k - 1;
        proof {
            assert(sums@[k as int] < alloc@.wrappers.len());
        }
        outs.push(sums[k]);
    }
    let ghost g4 = alloc@;
    let r = expose_all(alloc, chip, &outs);
    proof {
        assert forall|g: Graph, va: Seq<bool>, vb: Seq<bool>|
            g.wf() && rewires(old(alloc)@, alloc@, g) && values_are(g, num1@, va) && values_are(g, num2@, vb) implies outputs_are(
            g,
            r@,
            ripple_bits(va, vb),
        ) by {
            lemma_rewires_steps(seq![old(alloc)@, g0, g1, g2, g4, alloc@], g);
            assert(rewires(old(alloc)@, g0, g));
            assert(rewires(g0, g1, g));
            assert(rewires(g1, g2, g));
            assert(rewires(g2, g4, g));
            assert(rewires(g4, alloc@, g));
            assert(values_are(g, a@, va));
            assert(values_are(g, b@, vb));
            assert forall|j: int| 0 <= j < 16 implies #[trigger] value_is(g, Input::ChipOutput(outs@[j]), ripple_bits(va, vb)[j]) by {
                assert(outs@[j] == sums@[15 - j]);
                assert(value_is(g, Input::ChipOutput(sums@[15 - j]), ripple_sum(va, vb, 15 - (15 - j))));
            }
            assert(outputs_are(g, outs@, ripple_bits(va, vb)));
        }
    }
    r
}

/// Adds one to a 16-bit number, most significant bit first.
pub fn incrementer16(alloc: &mut Circuit, num: &Vec<Input>) -> (r: Vec<usize>)
    requires
        old(alloc).inv(),
        num.len() == 16,
        all_valid(old(alloc), num@),
    ensures
        builds(old(alloc), final(alloc)),
        r.len() == 16,
        all_wrappers(final(alloc), r@),
        all_fresh(old(alloc), r@),
        forall|g: Graph, vx: Seq<bool>|
            #![trigger rewires(old(alloc)@, final(alloc)@, g), values_are(g, num@, vx)]
            g.wf() && rewires(old(alloc)@, final(alloc)@, g) && values_are(g, num@, vx) ==> outputs_are(
                g,
                r@,
                ripple_bits(one16(), vx),
            ),
{
    let chip = alloc.new_chip("Incrementer16");
    let ghost g0 = alloc@;
    let a = ports(alloc, num, "num");
    let ghost g1 = alloc@;
    let mut one: Vec<Input> = Vec::new();
    let mut i: usize = 0;
    while i < 16
        invariant
            i <= 16,
            builds(old(alloc), alloc),
            g1.grows_to(alloc@),
            chip < alloc.chips.len(),
            a.len() == 16,
            all_valid(alloc, a@),
            one.len() == i,
            all_valid(alloc, one@),
            forall|j: int|
                0 <= j < i ==> (#[trigger] one@[j]) is UserInput && g1.users.len() <= (one@[j]->UserInput_0 as int)
                    < alloc@.users.len() && alloc@.users[one@[j]->UserInput_0 as int] == (j == 15),
        decreases 16 - i,
    {
        let ghost before = alloc@;
        let ghost prev = one@;
        let bit = crate::graph::UserInput::from(alloc, i == 15);
        one.push(bit);
        proof {
            lemma_grows_trans(g1, before, alloc@);
            assert forall|j: int|
                0 <= j < i + 1 implies (#[trigger] one@[j]) is UserInput && g1.users.len() <= (one@[j]->UserInput_0 as int)
                    < alloc@.users.len() && alloc@.users[one@[j]->UserInput_0 as int] == (j == 15) by {
                assert(alloc@.users == before.users.push(i == 15));
                if j < i {
                    assert(one@[j] == prev[j]);
                    assert(before.users[one@[j]->UserInput_0 as int] == (j == 15));
                    assert(alloc@.users[one@[j]->UserInput_0 as int] == before.users[one@[j]->UserInput_0 as int]);
                } else {
                    assert(one@[j] == bit);
                    assert(bit == Input::UserInput(before.users.len() as usize));
                    assert(g1.users.len() <= before.users.len());
                    assert(alloc@.users[before.users.len() as int] == (i == 15));
                }
            }
        }
        i = i + 1;
    }
    let ghost g2 = alloc@;
    let sum = adder16(alloc, &one, &a);
    let ghost g3 = alloc@;
    let r = expose_all(alloc, chip, &sum);
    proof {
        assert forall|g: Graph, vx: Seq<bool>| g.wf() && rewires(old(alloc)@, alloc@, g) && values_are(g, num@, vx) implies outputs_are(
            g,
            r@,
            ripple_bits(one16(), vx),
        ) by {
            lemma_rewires_steps(seq![old(alloc)@, g0, g1, g2, g3, alloc@], g);
            assert(rewires(old(alloc)@, g0, g));
            assert(rewires(g0, g1, g));
            assert(rewires(g1, g2, g));
            assert(rewires(g2, g3, g));
            assert(rewires(g3, alloc@, g));
            assert(values_are(g, a@, vx));
            assert forall|j: int| 0 <= j < 16 implies #[trigger] value_is(g, one@[j], one16()[j]) by {
                let k = one@[j]->UserInput_0;
                assert(g.users[k as int] == g2.users[k as int]);
                lemma_value_user(g, k);
            }
            assert(values_are(g, one@, one16()));
        }
    }
    r
}

/// Zero when `zero` is high, else the number unchanged.
pub fn zeronum(alloc: &mut Circuit, num: &Vec<Input>, zero: Input) -> (r: Vec<usize>)
    requires
        old(alloc).inv(),
        num.len() == 16,
        all_valid(old(alloc), num@),
        old(alloc)@.valid_input(zero),
    ensures
        builds(old(alloc), final(alloc)),
        r.len() == 16,
        all_wrappers(final(alloc), r@),
        all_fresh(old(alloc), r@),
        forall|g: Graph, vx: Seq<bool>, vz: bool|
            #![trigger rewires(old(alloc)@, final(alloc)@, g), values_are(g, num@, vx), value_is(g, zero, vz)]
            g.wf() && rewires(old(alloc)@, final(alloc)@, g) && values_are(g, num@, vx) && value_is(g, zero, vz)
                ==> outputs_are(g, r@, zero_bits(vx, vz)),
{
    let chip = alloc.new_chip("Zeronum");
    let ghost g0 = alloc@;
    let a = ports(alloc, num, "num");
    let ghost g1 = alloc@;
    let z = port(alloc, zero, "zero");
    let ghost g2 = alloc@;
    let mut zs: Vec<Input> = Vec::new();
    let mut i: usize = 0;
    while i < 16
        invariant
            i <= 16,
            zs.len() == i,
            forall|j: int| 0 <= j < i ==> #[trigger] zs@[j] == z,
        decreases 16 - i,
    {
        zs.push(z);
        i = i + 1;
    }
    proof {
        assert(all_valid(alloc, zs@));
    }
    let not_zero = not16(alloc, &zs);
    let ghost g3 = alloc@;
    let nz = ainto(&not_zero);
    proof {
        lemma_ainto_valid(alloc, not_zero@, nz@);
    }
    let out = and16(alloc, &a, &nz);
    let ghost g4 = alloc@;
    let r = expose_all(alloc, chip, &out);
    proof {
        assert forall|h: Graph, vx: Seq<bool>, vz: bool|
            h.wf() && rewires(old(alloc)@, alloc@, h) && values_are(h, num@, vx) && value_is(h, zero, vz) implies outputs_are(
            h,
            r@,
            zero_bits(vx, vz),
        ) by {
            lemma_rewires_steps(seq![old(alloc)@, g0, g1, g2, g3, g4, alloc@], h);
            assert(rewires(old(alloc)@, g0, h));
            assert(rewires(g0, g1, h));
            assert(rewires(g1, g2, h));
            assert(rewires(g2, g3, h));
            assert(rewires(g3, g4, h));
            assert(rewires(g4, alloc@, h));
            assert(values_are(h, a@, vx));
            assert(value_is(h, z, vz));
            let rep = Seq::new(16, |j: int| vz);
            assert forall|j: int| 0 <= j < 16 implies #[trigger] value_is(h, zs@[j], rep[j]) by {
                assert(zs@[j] == z);
            }
            assert(values_are(h, zs@, rep));
            assert(outputs_are(h, not_zero@, not_bits(rep)));
            lemma_outputs_as_wires(h, not_zero@, nz@, not_bits(rep));
            assert(outputs_are(h, out@, and_bits(vx, not_bits(rep))));
            assert(and_bits(vx, not_bits(rep)) =~= zero_bits(vx, vz));
        }
    }
    r
}

/// The bitwise negation when `negate` is high, else the number unchanged.
pub fn negatenum(alloc: &mut Circuit, num: &Vec<Input>, negate: Input) -> (r: Vec<usize>)
    requires
        old(alloc).inv(),
        num.len() == 16,
        all_valid(old(alloc), num@),
        old(alloc)@.valid_input(negate),
    ensures
        builds(old(alloc), final(alloc)),
        r.len() == 16,
        all_wrappers(final(alloc), r@),
        all_fresh(old(alloc), r@),
        forall|g: Graph, vx: Seq<bool>, vn: bool|
            #![trigger rewires(old(alloc)@, final(alloc)@, g), values_are(g, num@, vx), value_is(g, negate, vn)]
            g.wf() && rewires(old(alloc)@, final(alloc)@, g) && values_are(g, num@, vx) && value_is(g, negate, vn)
                ==> outputs_are(g, r@, negate_bits(vx, vn)),
{
    let chip = alloc.new_chip("Negatenum");
    let ghost g0 = alloc@;
    let a = ports(alloc, num, "num");
    let ghost g1 = alloc@;
    let n = port(alloc, negate, "negate");
    let ghost g2 = alloc@;
    let not = not16(alloc, &a);
    let ghost g3 = alloc@;
    let nots = ainto(&not);
    proof {
        lemma_ainto_valid(alloc, not@, nots@);
    }
    let out = mux16(alloc, &a, &nots, n);
    let ghost g4 = alloc@;
    let r = expose_all(alloc, chip, &out);
    proof {
        assert forall|h: Graph, vx: Seq<bool>, vn: bool|
            h.wf() && rewires(old(alloc)@, alloc@, h) && values_are(h, num@, vx) && value_is(h, negate, vn) implies outputs_are(
            h,
            r@,
            negate_bits(vx, vn),
        ) by {
            lemma_rewires_steps(seq![old(alloc)@, g0, g1, g2, g3, g4, alloc@], h);
            assert(rewires(old(alloc)@, g0, h));
            assert(rewires(g0, g1, h));
            assert(rewires(g1, g2, h));
            assert(rewires(g2, g3, h));
            assert(rewires(g3, g4, h));
            assert(rewires(g4, alloc@, h));
            assert(values_are(h, a@, vx));
            assert(value_is(h, n, vn));
            assert(outputs_are(h, not@, not_bits(vx)));
            lemma_outputs_as_wires(h, not@, nots@, not_bits(vx));
            assert(outputs_are(h, out@, if vn { not_bits(vx) } else { vx }));
        }
    }
    r
}

/// The sum when `isadd` is high, else the bitwise AND.
pub fn andorplus(alloc: &mut Circuit, num1: &Vec<Input>, num2: &Vec<Input>, isadd: Input) -> (r: Vec<usize>)
    requires
        old(alloc).inv(),
        num1.len() == 16,
        all_valid(old(alloc), num1@),
        num2.len() == 16,
        all_valid(old(alloc), num2@),
        old(alloc)@.valid_input(isadd),
    ensures
        builds(old(alloc), final(alloc)),
        r.len() == 16,
        all_wrappers(final(alloc), r@),
        all_fresh(old(alloc), r@),
        forall|g: Graph, va: Seq<bool>, vb: Seq<bool>, vf: bool|
            #![trigger rewires(old(alloc)@, final(alloc)@, g), values_are(g, num1@, va), values_are(g, num2@, vb), value_is(g, isadd, vf)]
            g.wf() && rewires(old(alloc)@, final(alloc)@, g) && values_are(g, num1@, va) && values_are(g, num2@, vb)
                && value_is(g, isadd, vf) ==> outputs_are(
                g,
                r@,
                if vf {
                    ripple_bits(va, vb)
                } else {
                    and_bits(va, vb)
                },
            ),
{
    let chip = alloc.new_chip("Andorplus");
    let ghost g0 = alloc@;
    let a = ports(alloc, num1, "num1");
    let ghost g1 = alloc@;
    let b = ports(alloc, num2, "num2");
    let ghost g2 = alloc@;
    let f = port(alloc, isadd, "isadd");
    let ghost g3 = alloc@;
    let add = adder16(alloc, &a, &b);
    let ghost g4 = alloc@;
    let and = and16(alloc, &a, &b);
    let ghost g5 = alloc@;
    let adds = ainto(&add);
    let ands = ainto(&and);
    proof {
        lemma_ainto_valid(alloc, add@, adds@);
        lemma_ainto_valid(alloc, and@, ands@);
    }
    let out = mux16(alloc, &ands, &adds, f);
    let ghost g6 = alloc@;
    let r = expose_all(alloc, chip, &out);
    proof {
        assert forall|h: Graph, va: Seq<bool>, vb: Seq<bool>, vf: bool|
            h.wf() && rewires(old(alloc)@, alloc@, h) && values_are(h, num1@, va) && values_are(h, num2@, vb) && value_is(
                h,
                isadd,
                vf,
            ) implies outputs_are(h, r@, if vf { ripple_bits(va, vb) } else { and_bits(va, vb) }) by {
            lemma_rewires_steps(seq![old(alloc)@, g0, g1, g2, g3, g4, g5, g6, alloc@], h);
            assert(rewires(old(alloc)@, g0, h));
            assert(rewires(g0, g1, h));
            assert(rewires(g1, g2, h));
            assert(rewires(g2, g3, h));
            assert(rewires(g3, g4, h));
            assert(rewires(g4, g5, h));
            assert(rewires(g5, g6, h));
            assert(rewires(g6, alloc@, h));
            assert(values_are(h, a@, va));
            assert(values_are(h, b@, vb));
            assert(value_is(h, f, vf));
            assert(outputs_are(h, add@, ripple_bits(va, vb)));
            assert(outputs_are(h, and@, and_bits(va, vb)));
            lemma_outputs_as_wires(h, add@, adds@, ripple_bits(va, vb));
            lemma_outputs_as_wires(h, and@, ands@, and_bits(va, vb));
            assert(outputs_are(h, out@, if vf { ripple_bits(va, vb) } else { and_bits(va, vb) }));
        }
    }
    r
}

/// The control bits of the ALU.
pub struct AluControl {
    pub zx: Input,
    pub zy: Input,
    pub nx: Input,
    pub ny: Input,
    pub f: Input,
    pub no: Input,
}

/// The outputs of the ALU: the 16-bit result, whether it is zero, and its
/// sign bit.
pub struct AluOutputs {
    pub out: Vec<usize>,
    pub zr: usize,
    pub ng: usize,
}

/// The ALU: zero and negate each operand as the control bits say, add or
/// AND them, negate the result if asked, and flag zero and negative results.
#[verifier::rlimit(100)]
#[verifier::spinoff_prover]
pub fn alu(alloc: &mut Circuit, x: &Vec<Input>, y: &Vec<Input>, ctl: AluControl) -> (r: AluOutputs)
    requires
        old(alloc).inv(),
        x.len() == 16,
        all_valid(old(alloc), x@),
        y.len() == 16,
        all_valid(old(alloc), y@),
        old(alloc)@.valid_input(ctl.zx),
        old(alloc)@.valid_input(ctl.zy),
        old(alloc)@.valid_input(ctl.nx),
        old(alloc)@.valid_input(ctl.ny),
        old(alloc)@.valid_input(ctl.f),
        old(alloc)@.valid_input(ctl.no),
    ensures
        builds(old(alloc), final(alloc)),
        r.out.len() == 16,
        all_wrappers(final(alloc), r.out@),
        all_fresh(old(alloc), r.out@),
        r.zr < final(alloc)@.wrappers.len(),
        old(alloc)@.wrappers.len() <= r.zr,
        r.ng < final(alloc)@.wrappers.len(),
        old(alloc)@.wrappers.len() <= r.ng,
        forall|g: Graph, vx: Seq<bool>, vy: Seq<bool>, vzx: bool, vnx: bool, vzy: bool, vny: bool, vf: bool, vno: bool|
            #![trigger rewires(old(alloc)@, final(alloc)@, g), values_are(g, x@, vx), values_are(g, y@, vy), value_is(g, ctl.zx, vzx), value_is(g, ctl.nx, vnx), value_is(g, ctl.zy, vzy), value_is(g, ctl.ny, vny), value_is(g, ctl.f, vf), value_is(g, ctl.no, vno)]
            g.wf() && rewires(old(alloc)@, final(alloc)@, g) && values_are(g, x@, vx) && values_are(g, y@, vy) && value_is(g, ctl.zx, vzx) && value_is(g, ctl.nx, vnx) && value_is(g, ctl.zy, vzy) && value_is(g, ctl.ny, vny) && value_is(g, ctl.f, vf) && value_is(g, ctl.no, vno) ==> {
                &&& outputs_are(g, r.out@, alu_bits(vx, vy, vzx, vnx, vzy, vny, vf, vno))
                &&& value_is(g, Input::ChipOutput(r.zr), !fold_bits(alu_bits(vx, vy, vzx, vnx, vzy, vny, vf, vno), false))
                &&& value_is(g, Input::ChipOutput(r.ng), alu_bits(vx, vy, vzx, vnx, vzy, vny, vf, vno)[0])
            },
{
    let chip = alloc.new_chip("Alu");
    let ghost g0 = alloc@;
    let xs = ports(alloc, x, "x");
    let ghost g1 = alloc@;
    let ys = ports(alloc, y, "y");
    let ghost g2 = alloc@;
    let zx = port(alloc, ctl.zx, "zx");
    let ghost g3 = alloc@;
    let zy = port(alloc, ctl.zy, "zy");
    let ghost g4 = alloc@;
    let nx = port(alloc, ctl.nx, "nx");
    let ghost g5 = alloc@;
    let ny = port(alloc, ctl.ny, "ny");
    let ghost g6 = alloc@;
    let f = port(alloc, ctl.f, "f");
    let ghost g7 = alloc@;
    let no = port(alloc, ctl.no, "no");
    let ghost g8 = alloc@;
    let zero_x = zeronum(alloc, &xs, zx);
    let ghost g9 = alloc@;
    let zero_y = zeronum(alloc, &ys, zy);
    let ghost g10 = alloc@;
    let zxs = ainto(&zero_x);
    let zys = ainto(&zero_y);
    proof {
        lemma_ainto_valid(alloc, zero_x@, zxs@);
        lemma_ainto_valid(alloc, zero_y@, zys@);
    }
    let not_x = negatenum(alloc, &zxs, nx);
    let ghost g11 = alloc@;
    let not_y = negatenum(alloc, &zys, ny);
    let ghost g12 = alloc@;
    let nxs = ainto(&not_x);
    let nys = ainto(&not_y);
    proof {
        lemma_ainto_valid(alloc, not_x@, nxs@);
        lemma_ainto_valid(alloc, not_y@, nys@);
    }
    let func = andorplus(alloc, &nxs, &nys, f);
    let ghost g13 = alloc@;
    let fs = ainto(&func);
    proof {
        lemma_ainto_valid(alloc, func@, fs@);
    }
    let result = negatenum(alloc, &fs, no);
    let ghost g14 = alloc@;
    let rs = ainto(&result);
    proof {
        lemma_ainto_valid(alloc, result@, rs@);
    }
    let non_zero = ormult16(alloc, &rs);
    let ghost g15 = alloc@;
    let is_zero = not(alloc, Input::ChipOutput(non_zero));
    let ghost g16 = alloc@;
    let out = expose_all(alloc, chip, &result);
    let ghost g17 = alloc@;
    let zr = expose(alloc, chip, Input::ChipOutput(is_zero));
    let ghost g18 = alloc@;
    proof {
        assert(result@[0] < alloc@.wrappers.len());
    }
    let ng = expose(alloc, chip, Input::ChipOutput(result[0]));
    proof {
        assert forall|h: Graph, vx: Seq<bool>, vy: Seq<bool>, vzx: bool, vnx: bool, vzy: bool, vny: bool, vf: bool, vno: bool|
            h.wf() && rewires(old(alloc)@, alloc@, h) && values_are(h, x@, vx) && values_are(h, y@, vy) && value_is(h, ctl.zx, vzx) && value_is(h, ctl.nx, vnx) && value_is(h, ctl.zy, vzy) && value_is(h, ctl.ny, vny) && value_is(h, ctl.f, vf) && value_is(h, ctl.no, vno) implies {
                &&& outputs_are(h, out@, alu_bits(vx, vy, vzx, vnx, vzy, vny, vf, vno))
                &&& value_is(h, Input::ChipOutput(zr), !fold_bits(alu_bits(vx, vy, vzx, vnx, vzy, vny, vf, vno), false))
                &&& value_is(h, Input::ChipOutput(ng), alu_bits(vx, vy, vzx, vnx, vzy, vny, vf, vno)[0])
            } by {
            lemma_rewires_steps(seq![old(alloc)@, g0, g1, g2, g3, g4, g5, g6, g7, g8, g9, g10, g11, g12, g13, g14, g15, g16, g17, g18, alloc@], h);
            assert(rewires(old(alloc)@, g0, h));
            assert(rewires(g0, g1, h));
            assert(rewires(g1, g2, h));
            assert(rewires(g2, g3, h));
            assert(rewires(g3, g4, h));
            assert(rewires(g4, g5, h));
            assert(rewires(g5, g6, h));
            assert(rewires(g6, g7, h));
            assert(rewires(g7, g8, h));
            assert(rewires(g8, g9, h));
            assert(rewires(g9, g10, h));
            assert(rewires(g10, g11, h));
            assert(rewires(g11, g12, h));
            assert(rewires(g12, g13, h));
            assert(rewires(g13, g14, h));
            assert(rewires(g14, g15, h));
            assert(rewires(g15, g16, h));
            assert(rewires(g16, g17, h));
            assert(rewires(g17, g18, h));
            assert(rewires(g18, alloc@, h));
            let x1 = negate_bits(zero_bits(vx, vzx), vnx);
            let y1 = negate_bits(zero_bits(vy, vzy), vny);
            let fr = if vf { ripple_bits(x1, y1) } else { and_bits(x1, y1) };
            let ov = alu_bits(vx, vy, vzx, vnx, vzy, vny, vf, vno);
            assert(values_are(h, xs@, vx));
            assert(values_are(h, ys@, vy));
            assert(value_is(h, zx, vzx));
            assert(value_is(h, zy, vzy));
            assert(value_is(h, nx, vnx));
            assert(value_is(h, ny, vny));
            assert(value_is(h, f, vf));
            assert(value_is(h, no, vno));
            assert(outputs_are(h, zero_x@, zero_bits(vx, vzx)));
            assert(outputs_are(h, zero_y@, zero_bits(vy, vzy)));
            lemma_outputs_as_wires(h, zero_x@, zxs@, zero_bits(vx, vzx));
            lemma_outputs_as_wires(h, zero_y@, zys@, zero_bits(vy, vzy));
            assert(outputs_are(h, not_x@, x1));
            assert(outputs_are(h, not_y@, y1));
            lemma_outputs_as_wires(h, not_x@, nxs@, x1);
            lemma_outputs_as_wires(h, not_y@, nys@, y1);
            assert(outputs_are(h, func@, fr));
            lemma_outputs_as_wires(h, func@, fs@, fr);
            assert(outputs_are(h, result@, ov));
            lemma_outputs_as_wires(h, result@, rs@, ov);
            assert(value_is(h, Input::ChipOutput(non_zero), fold_bits(ov, false)));
            assert(value_is(h, Input::ChipOutput(is_zero), !fold_bits(ov, false)));
            assert(outputs_are(h, out@, ov));
            assert(value_is(h, Input::ChipOutput(zr), !fold_bits(ov, false)));
            assert(value_is(h, Input::ChipOutput(result@[0]), ov[0]));
        }
    }
    AluOutputs { out, zr, ng }
}


/// Output wrappers `q` and `nq` read the NAND gates `a` and `b`, which are
/// cross-coupled; `a` reads port `ps`, bound to `s`, and `b` reads port `pr`,
/// bound to `r`.
pub open spec fn latch_at(g: Graph, s: Input, r: Input, q: usize, nq: usize, a: usize, b: usize, ps: usize, pr: usize) -> bool {
    &&& q < g.wrappers.len() && nq < g.wrappers.len()
    &&& g.wrappers[q as int] < g.outputs.len() && g.wrappers[nq as int] < g.outputs.len()
    &&& g.outputs[g.wrappers[q as int] as int].out == Some(ChipOutputType::NandOutput(a))
    &&& g.outputs[g.wrappers[nq as int] as int].out == Some(ChipOutputType::NandOutput(b))
    &&& a < g.nands.len() && b < g.nands.len() && a != b
    &&& ps < g.chip_inputs.len() && pr < g.chip_inputs.len()
    &&& g.chip_inputs[ps as int] == s && g.chip_inputs[pr as int] == r
    &&& g.nands[a as int].in1 == Some(Input::ChipInput(ps)) && g.nands[a as int].in2 == Some(Input::NandInput(b))
    &&& g.nands[b as int].in1 == Some(Input::ChipInput(pr)) && g.nands[b as int].in2 == Some(Input::NandInput(a))
}

/// Output wrappers `q` and `nq` are those of an SR latch on `s` and `r`.
pub open spec fn latch_wired(g: Graph, s: Input, r: Input, q: usize, nq: usize) -> bool {
    exists|a: usize, b: usize, ps: usize, pr: usize| #[trigger] latch_at(g, s, r, q, nq, a, b, ps, pr)
}

/// An SR latch whose set and reset ports read input cells `i` and `j` (active
/// low), with its output and gates not yet stamped at `tick`, settles in one
/// evaluation: a low set makes q high, a low reset alone makes it low, and
/// with both high q keeps the value its gate held.
pub proof fn lemma_srlatch_settles(
    g: Graph,
    i: usize,
    j: usize,
    q: usize,
    nq: usize,
    a: usize,
    b: usize,
    ps: usize,
    pr: usize,
    tick: u64,
)
    requires
        g.wf(),
        i < g.users.len(),
        j < g.users.len(),
        latch_at(g, Input::UserInput(i), Input::UserInput(j), q, nq, a, b, ps, pr),
        g.outputs[g.wrappers[q as int] as int].iteration != tick,
        g.nands[a as int].iteration != tick,
        g.nands[b as int].iteration != tick,
    ensures
        ({
            let v = eval(g, Input::ChipOutput(q), tick).1;
            &&& !g.users[i as int] ==> v
            &&& g.users[i as int] && !g.users[j as int] ==> !v
            &&& g.users[i as int] && g.users[j as int] ==> v == g.nands[a as int].value
        }),
{
    let x = Input::ChipOutput(q);
    let fuel = potential(g, x, tick) + 1;
    let o = g.wrappers[q as int];
    let ns = nand_stamps(g);
    lemma_stale_update(ns, a as int, tick);
    let ns1 = ns.update(a as int, tick);
    lemma_stale_update(ns1, b as int, tick);
    lemma_stale_update(output_stamps(g), o as int, tick);
    assert(unstamped(g, tick) >= 3);
    assert((g.chip_inputs.len() + 2) * unstamped(g, tick) >= 6) by (nonlinear_arith)
        requires
            unstamped(g, tick) >= 3,
    ;
    let f1 = (fuel - 1) as nat;
    let f2 = (f1 - 1) as nat;
    let f3 = (f2 - 1) as nat;
    let f4 = (f3 - 1) as nat;
    let node_o = g.outputs[o as int];
    let g1 = Graph { outputs: g.outputs.update(o as int, ChipOutput { iteration: tick, ..node_o }), ..g };
    let node_a = g1.nands[a as int];
    let g2 = Graph { nands: g1.nands.update(a as int, Nand { iteration: tick, ..node_a }), ..g1 };
    assert(eval_fuel(g2, Input::UserInput(i), tick, f3) == (g2, g.users[i as int]));
    assert(eval_fuel(g2, Input::ChipInput(ps), tick, f2) == (g2, g.users[i as int]));
    let node_b = g2.nands[b as int];
    let g3 = Graph { nands: g2.nands.update(b as int, Nand { iteration: tick, ..node_b }), ..g2 };
    assert(eval_fuel(g3, Input::UserInput(j), tick, f4) == (g3, g.users[j as int]));
    assert(eval_fuel(g3, Input::ChipInput(pr), tick, f3) == (g3, g.users[j as int]));
    assert(g3.nands[a as int].iteration == tick);
    assert(eval_fuel(g3, Input::NandInput(a), tick, f3) == (g3, g.nands[a as int].value));
    let vb = !(g.users[j as int] && g.nands[a as int].value);
    assert(eval_fuel(g2, Input::NandInput(b), tick, f2).1 == vb);
    let va = !(g.users[i as int] && vb);
    assert(eval_fuel(g1, Input::NandInput(a), tick, f1).1 == va);
    assert(eval_fuel(g, x, tick, fuel).1 == va);
}

/// The latch's wiring holds in every graph with the same wiring, whatever its
/// cell values and caches.
pub proof fn lemma_latch_rewired(f: Graph, g: Graph, s: Input, r: Input, q: usize, nq: usize, a: usize, b: usize, ps: usize, pr: usize)
    requires
        wired_like(f, g),
        latch_at(f, s, r, q, nq, a, b, ps, pr),
    ensures
        latch_at(g, s, r, q, nq, a, b, ps, pr),
{
    assert(g.wrappers[q as int] == f.wrappers[q as int]);
    assert(g.wrappers[nq as int] == f.wrappers[nq as int]);
    assert(g.outputs[f.wrappers[q as int] as int].out == f.outputs[f.wrappers[q as int] as int].out);
    assert(g.outputs[f.wrappers[nq as int] as int].out == f.outputs[f.wrappers[nq as int] as int].out);
    assert(g.nands[a as int].in1 == f.nands[a as int].in1 && g.nands[a as int].in2 == f.nands[a as int].in2);
    assert(g.nands[b as int].in1 == f.nands[b as int].in1 && g.nands[b as int].in2 == f.nands[b as int].in2);
    assert(g.chip_inputs[ps as int] == f.chip_inputs[ps as int]);
    assert(g.chip_inputs[pr as int] == f.chip_inputs[pr as int]);
}

/// SR latch from two cross-coupled NAND gates, with active-low set `s` and
/// reset `r`; the outputs are (q, not q).
pub fn srlatch(alloc: &mut Circuit, s: Input, r: Input) -> (res: (usize, usize))
    requires
        old(alloc).inv(),
        old(alloc)@.valid_input(s),
        old(alloc)@.valid_input(r),
    ensures
        builds(old(alloc), final(alloc)),
        res.0 < final(alloc)@.wrappers.len(),
        old(alloc)@.wrappers.len() <= res.0,
        res.1 < final(alloc)@.wrappers.len(),
        old(alloc)@.wrappers.len() <= res.1,
        latch_wired(final(alloc)@, s, r, res.0, res.1),
{
    let chip = alloc.new_chip("Srlatch");
    let sp = port(alloc, s, "s");
    let rp = port(alloc, r, "r");
    let ghost g1 = alloc@;
    let (q, nq) = create_subchip(
        alloc,
        NandInputs { in1: Peer::Wire(sp), in2: Peer::Other },
        NandInputs { in1: Peer::Wire(rp), in2: Peer::Other },
    );
    let ghost g2 = alloc@;
    let a = expose(alloc, chip, Input::NandInput(q));
    let ghost g3 = alloc@;
    let b = expose(alloc, chip, Input::NandInput(nq));
    proof {
        let fin = alloc@;
        let ps = sp->ChipInput_0;
        let pr = rp->ChipInput_0;
        assert(fin.chip_inputs[ps as int] == g1.chip_inputs[ps as int]);
        assert(fin.chip_inputs[pr as int] == g1.chip_inputs[pr as int]);
        assert(fin.nands[q as int] == g2.nands[q as int]);
        assert(fin.nands[nq as int] == g2.nands[nq as int]);
        assert(fin.wrappers[a as int] == g3.wrappers[a as int]);
        assert(fin.outputs[g3.wrappers[a as int] as int] == g3.outputs[g3.wrappers[a as int] as int]);
        assert(latch_at(fin, s, r, a, b, q, nq, ps, pr));
    }
    (a, b)
}

/// Latch facts only read wiring, so they survive adding nodes.
proof fn lemma_latch_grow(g: Graph, h: Graph, s: Input, r: Input, q: usize, nq: usize)
    requires
        g.grows_to(h),
        latch_wired(g, s, r, q, nq),
    ensures
        latch_wired(h, s, r, q, nq),
{
    let (a, b, ps, pr) = choose|a: usize, b: usize, ps: usize, pr: usize| #[trigger] latch_at(g, s, r, q, nq, a, b, ps, pr);
    assert(h.outputs[h.wrappers[q as int] as int] == g.outputs[g.wrappers[q as int] as int]);
    assert(h.outputs[h.wrappers[nq as int] as int] == g.outputs[g.wrappers[nq as int] as int]);
    assert(latch_at(h, s, r, q, nq, a, b, ps, pr));
}

/// Output wrapper `w` forwards the output behind wrapper `src`.
pub open spec fn forwards(g: Graph, w: usize, src: usize) -> bool {
    &&& w < g.wrappers.len()
    &&& g.wrappers[w as int] < g.outputs.len()
    &&& g.outputs[g.wrappers[w as int] as int].out == Some(ChipOutputType::ChipOutput(src))
}

/// Outputs `q` and `nq` forward those of an SR latch whose set and reset are
/// gates `n1` and `n2`, both reading port `pe` (bound to `enable`); `n1` also
/// reads port `pd`, bound to `data`.
pub open spec fn dlatch_at(
    g: Graph,
    data: Input,
    enable: Input,
    q: usize,
    nq: usize,
    lq: usize,
    lnq: usize,
    n1: usize,
    n2: usize,
    pd: usize,
    pe: usize,
) -> bool {
    &&& latch_wired(g, Input::NandInput(n1), Input::NandInput(n2), lq, lnq)
    &&& forwards(g, q, lq) && forwards(g, nq, lnq)
    &&& n1 < g.nands.len() && n2 < g.nands.len()
    &&& pd < g.chip_inputs.len() && pe < g.chip_inputs.len()
    &&& g.chip_inputs[pd as int] == data && g.chip_inputs[pe as int] == enable
    &&& g.nands[n1 as int].in1 == Some(Input::ChipInput(pd)) && g.nands[n1 as int].in2 == Some(Input::ChipInput(pe))
    &&& g.nands[n2 as int].in2 == Some(Input::ChipInput(pe))
}

pub open spec fn dlatch_wired(g: Graph, data: Input, enable: Input, q: usize, nq: usize) -> bool {
    exists|lq: usize, lnq: usize, n1: usize, n2: usize, pd: usize, pe: usize|
        #[trigger] dlatch_at(g, data, enable, q, nq, lq, lnq, n1, n2, pd, pe)
}

proof fn lemma_dlatch_grow(g: Graph, h: Graph, data: Input, enable: Input, q: usize, nq: usize)
    requires
        g.grows_to(h),
        dlatch_wired(g, data, enable, q, nq),
    ensures
        dlatch_wired(h, data, enable, q, nq),
{
    let (lq, lnq, n1, n2, pd, pe) = choose|lq: usize, lnq: usize, n1: usize, n2: usize, pd: usize, pe: usize|
        #[trigger] dlatch_at(g, data, enable, q, nq, lq, lnq, n1, n2, pd, pe);
    lemma_latch_grow(g, h, Input::NandInput(n1), Input::NandInput(n2), lq, lnq);
    assert(h.outputs[h.wrappers[q as int] as int] == g.outputs[g.wrappers[q as int] as int]);
    assert(h.outputs[h.wrappers[nq as int] as int] == g.outputs[g.wrappers[nq as int] as int]);
    assert(dlatch_at(h, data, enable, q, nq, lq, lnq, n1, n2, pd, pe));
}

/// D latch: follows `data` while `enable` is high and holds otherwise; the
/// outputs are (q, not q).
pub fn dlatch(alloc: &mut Circuit, data: Input, enable: Input) -> (r: (usize, usize))
    requires
        old(alloc).inv(),
        old(alloc)@.valid_input(data),
        old(alloc)@.valid_input(enable),
    ensures
        builds(old(alloc), final(alloc)),
        r.0 < final(alloc)@.wrappers.len(),
        old(alloc)@.wrappers.len() <= r.0,
        r.1 < final(alloc)@.wrappers.len(),
        old(alloc)@.wrappers.len() <= r.1,
        dlatch_wired(final(alloc)@, data, enable, r.0, r.1),
{
    let chip = alloc.new_chip("Dlatch");
    let d = port(alloc, data, "data");
    let e = port(alloc, enable, "enable");
    let ghost g1 = alloc@;
    let notd = not(alloc, d);
    let nand1 = Nand::new(alloc, d, e);
    let nand2 = Nand::new(alloc, Input::ChipOutput(notd), e);
    let ghost g2 = alloc@;
    let (q, nq) = srlatch(alloc, Input::NandInput(nand1), Input::NandInput(nand2));
    let ghost g3 = alloc@;
    let a = expose(alloc, chip, Input::ChipOutput(q));
    let ghost g4 = alloc@;
    let b = expose(alloc, chip, Input::ChipOutput(nq));
    proof {
        let fin = alloc@;
        lemma_latch_grow(g3, fin, Input::NandInput(nand1), Input::NandInput(nand2), q, nq);
        let pd = d->ChipInput_0;
        let pe = e->ChipInput_0;
        assert(fin.chip_inputs[pd as int] == g1.chip_inputs[pd as int]);
        assert(fin.chip_inputs[pe as int] == g1.chip_inputs[pe as int]);
        assert(fin.nands[nand1 as int] == g2.nands[nand1 as int]);
        assert(fin.nands[nand2 as int] == g2.nands[nand2 as int]);
        assert(fin.wrappers[a as int] == g4.wrappers[a as int]);
        assert(fin.outputs[g4.wrappers[a as int] as int] == g4.outputs[g4.wrappers[a as int] as int]);
        assert(dlatch_at(fin, data, enable, a, b, q, nq, nand1, nand2, pd, pe));
    }
    (a, b)
}

/// Outputs `q` and `nq` forward those of a second D latch, enabled by the
/// inverted clock, whose data is the q of a first D latch on `data` and
/// `clock`.
pub open spec fn dff_at(g: Graph, data: Input, clock: Input, q: usize, nq: usize, q1: usize, nq1: usize, q2: usize, nq2: usize, pd: usize, pc: usize, ic: usize) -> bool {
    &&& dlatch_wired(g, Input::ChipInput(pd), Input::ChipInput(pc), q1, nq1)
    &&& dlatch_wired(g, Input::ChipOutput(q1), Input::ChipOutput(ic), q2, nq2)
    &&& forwards(g, q, q2) && forwards(g, nq, nq2)
    &&& pd < g.chip_inputs.len() && pc < g.chip_inputs.len()
    &&& g.chip_inputs[pd as int] == data && g.chip_inputs[pc as int] == clock
}

pub open spec fn dff_wired(g: Graph, data: Input, clock: Input, q: usize, nq: usize) -> bool {
    exists|q1: usize, nq1: usize, q2: usize, nq2: usize, pd: usize, pc: usize, ic: usize|
        #[trigger] dff_at(g, data, clock, q, nq, q1, nq1, q2, nq2, pd, pc, ic)
}

/// D flip-flop: two D latches on opposite clock levels; data reaches the
/// outputs (q, not q) after a full clock cycle.
pub fn dflipflop(alloc: &mut Circuit, data: Input, clock: Input) -> (r: (usize, usize))
    requires
        old(alloc).inv(),
        old(alloc)@.valid_input(data),
        old(alloc)@.valid_input(clock),
    ensures
        builds(old(alloc), final(alloc)),
        r.0 < final(alloc)@.wrappers.len(),
        old(alloc)@.wrappers.len() <= r.0,
        r.1 < final(alloc)@.wrappers.len(),
        old(alloc)@.wrappers.len() <= r.1,
        dff_wired(final(alloc)@, data, clock, r.0, r.1),
{
    let chip = alloc.new_chip("Dflipflop");
    let d = port(alloc, data, "data");
    let c = port(alloc, clock, "clock");
    let ghost g1 = alloc@;
    let invclock = not(alloc, c);
    let (q1, _nq1) = dlatch(alloc, d, c);
    let ghost g2 = alloc@;
    let (q2, nq2) = dlatch(alloc, Input::ChipOutput(q1), Input::ChipOutput(invclock));
    let ghost g3 = alloc@;
    let a = expose(alloc, chip, Input::ChipOutput(q2));
    let ghost g4 = alloc@;
    let b = expose(alloc, chip, Input::ChipOutput(nq2));
    proof {
        let fin = alloc@;
        lemma_grows_trans(g2, g3, fin);
        lemma_dlatch_grow(g2, fin, d, c, q1, _nq1);
        lemma_dlatch_grow(g3, fin, Input::ChipOutput(q1), Input::ChipOutput(invclock), q2, nq2);
        let pd = d->ChipInput_0;
        let pc = c->ChipInput_0;
        assert(fin.chip_inputs[pd as int] == g1.chip_inputs[pd as int]);
        assert(fin.chip_inputs[pc as int] == g1.chip_inputs[pc as int]);
        assert(fin.wrappers[a as int] == g4.wrappers[a as int]);
        assert(fin.outputs[g4.wrappers[a as int] as int] == g4.outputs[g4.wrappers[a as int] as int]);
        assert(dff_at(fin, data, clock, a, b, q1, _nq1, q2, nq2, pd, pc, invclock));
    }
    (a, b)
}


/// One bit of memory: on each clock cycle, loads `in_` when `load` is high and
/// keeps its value otherwise.
pub fn bit(alloc: &mut Circuit, in_: Input, load: Input, clock: Input) -> (r: usize)
    requires
        old(alloc).inv(),
        old(alloc)@.valid_input(in_),
        old(alloc)@.valid_input(load),
        old(alloc)@.valid_input(clock),
    ensures
        builds(old(alloc), final(alloc)),
        r < final(alloc)@.wrappers.len(),
        old(alloc)@.wrappers.len() <= r,
{
    let chip = alloc.new_chip("Bit");
    let a = port(alloc, in_, "in_");
    let l = port(alloc, load, "load");
    let c = port(alloc, clock, "clock");
    let ghost g1 = alloc@;
    // the multiplexer's output, bound once the multiplexer exists
    let fb = ChipOutput::new_from_option(alloc, None);
    let fbw = ChipOutputWrapper::new(alloc, fb, chip);
    let ghost g2 = alloc@;
    let ghost c2 = alloc.chips@;
    let (q, _nq) = dflipflop(alloc, Input::ChipOutput(fbw), c);
    let m = mux(alloc, Input::ChipOutput(q), a, l);
    let ghost g3 = alloc@;
    ChipOutput::set_out(alloc, fb, ChipOutputType::ChipOutput(m));
    proof {
        let g0 = old(alloc)@;
        let g = alloc@;
        assert(g1.outputs.len() == fb);
        assert forall|i: int| 0 <= i < g0.outputs.len() implies g.outputs[i] == g0.outputs[i] by {
            assert(g3.outputs[i] == g0.outputs[i]);
        }
        assert forall|i: int| g0.outputs.len() <= i < g.outputs.len() implies (#[trigger] g.outputs[i]).out is Some by {
            if i < fb {
                assert(g1.outputs[i].out is Some);
                assert(g3.outputs[i] == g1.outputs[i]);
            } else if i > fb {
                assert(g3.outputs[i].out is Some);
            }
        }
        assert(grown(old(alloc), alloc));
        if g0.complete() {
            assert forall|i: int| 0 <= i < g.outputs.len() implies (#[trigger] g.outputs[i]).out is Some by {
                if i < g0.outputs.len() {
                    assert(g0.outputs[i].out is Some);
                }
            }
            assert forall|i: int| 0 <= i < g.nands.len() implies (#[trigger] g.nands[i]).in1 is Some
                && g.nands[i].in2 is Some by {
                if i < g0.nands.len() {
                    assert(g0.nands[i].in1 is Some);
                }
            }
        }
    }
    expose(alloc, chip, Input::ChipOutput(q))
}

/// Sixteen bits of memory sharing `load` and `clock`.
pub fn register16(alloc: &mut Circuit, in_: &Vec<Input>, load: Input, clock: Input) -> (r: Vec<usize>)
    requires
        old(alloc).inv(),
        in_.len() == 16,
        all_valid(old(alloc), in_@),
        old(alloc)@.valid_input(load),
        old(alloc)@.valid_input(clock),
    ensures
        builds(old(alloc), final(alloc)),
        r.len() == 16,
        all_wrappers(final(alloc), r@),
        all_fresh(old(alloc), r@),
{
    let chip = alloc.new_chip("Register16");
    let a = ports(alloc, in_, "in_");
    let l = port(alloc, load, "load");
    let c = port(alloc, clock, "clock");
    let mut outs: Vec<usize> = Vec::new();
    let mut i: usize = 0;
    while i < a.len()
        invariant
            i <= a.len(),
            a.len() == 16,
            builds(old(alloc), alloc),
            chip < alloc.chips.len(),
            all_valid(alloc, a@),
            alloc@.valid_input(l),
            alloc@.valid_input(c),
            outs.len() == i,
            all_wrappers(alloc, outs@),
        decreases a.len() - i,
    {
        proof {
            assert(alloc@.valid_input(a@[i as int]));
        }
        let o = bit(alloc, a[i], l, c);
        outs.push(o);
        i = i + 1;
    }
    expose_all(alloc, chip, &outs)
}


/// A 16-bit multiplexer whose inputs are the wrappers `a` and `b`.
fn mux16_of(alloc: &mut Circuit, a: &Vec<usize>, b: &Vec<usize>, sel: Input) -> (r: Vec<usize>)
    requires
        old(alloc).inv(),
        a.len() == 16,
        b.len() == 16,
        all_wrappers(old(alloc), a@),
        all_wrappers(old(alloc), b@),
        old(alloc)@.valid_input(sel),
    ensures
        builds(old(alloc), final(alloc)),
        r.len() == 16,
        all_wrappers(final(alloc), r@),
        all_fresh(old(alloc), r@),
        forall|va: Seq<bool>, vb: Seq<bool>, vs: bool|
            #![trigger outputs_are(old(alloc)@, a@, va), outputs_are(old(alloc)@, b@, vb), value_is(old(alloc)@, sel, vs)]
            outputs_are(old(alloc)@, a@, va) && outputs_are(old(alloc)@, b@, vb) && value_is(old(alloc)@, sel, vs)
                ==> outputs_are(final(alloc)@, r@, if vs { vb } else { va }),
        forall|g: Graph, va: Seq<bool>, vb: Seq<bool>, vs: bool|
            #![trigger rewires(old(alloc)@, final(alloc)@, g), outputs_are(g, a@, va), outputs_are(g, b@, vb), value_is(g, sel, vs)]
            g.wf() && rewires(old(alloc)@, final(alloc)@, g) && outputs_are(g, a@, va) && outputs_are(g, b@, vb)
                && value_is(g, sel, vs) ==> outputs_are(g, r@, if vs { vb } else { va }),
{
    let ghost g0 = alloc@;
    let ai = ainto(a);
    let bi = ainto(b);
    proof {
        lemma_ainto_valid(alloc, a@, ai@);
        lemma_ainto_valid(alloc, b@, bi@);
    }
    let r = mux16(alloc, &ai, &bi, sel);
    proof {
        assert forall|va: Seq<bool>, vb: Seq<bool>, vs: bool|
            outputs_are(g0, a@, va) && outputs_are(g0, b@, vb) && value_is(g0, sel, vs) implies outputs_are(
            alloc@,
            r@,
            if vs { vb } else { va },
        ) by {
            lemma_outputs_as_wires(g0, a@, ai@, va);
            lemma_outputs_as_wires(g0, b@, bi@, vb);
            lemma_vals_are(g0, ai@, va);
            lemma_vals_are(g0, bi@, vb);
        }
        assert forall|g: Graph, va: Seq<bool>, vb: Seq<bool>, vs: bool|
            g.wf() && rewires(g0, alloc@, g) && outputs_are(g, a@, va) && outputs_are(g, b@, vb) && value_is(g, sel, vs)
                implies outputs_are(g, r@, if vs { vb } else { va }) by {
            lemma_outputs_as_wires(g, a@, ai@, va);
            lemma_outputs_as_wires(g, b@, bi@, vb);
        }
    }
    r
}

/// A 16-bit demultiplexer whose input is the wrappers `a`.
fn demux16_of(alloc: &mut Circuit, a: &Vec<usize>, sel: Input) -> (r: (Vec<usize>, Vec<usize>))
    requires
        old(alloc).inv(),
        a.len() == 16,
        all_wrappers(old(alloc), a@),
        old(alloc)@.valid_input(sel),
    ensures
        builds(old(alloc), final(alloc)),
        r.0.len() == 16,
        r.1.len() == 16,
        all_wrappers(final(alloc), r.0@),
        all_fresh(old(alloc), r.0@),
        all_wrappers(final(alloc), r.1@),
        all_fresh(old(alloc), r.1@),
        forall|g: Graph, va: Seq<bool>, vs: bool|
            #![trigger rewires(old(alloc)@, final(alloc)@, g), outputs_are(g, a@, va), value_is(g, sel, vs)]
            g.wf() && rewires(old(alloc)@, final(alloc)@, g) && outputs_are(g, a@, va) && value_is(g, sel, vs)
                ==> outputs_are(g, r.0@, route(va, !vs)) && outputs_are(g, r.1@, route(va, vs)),
{
    let ghost g0 = alloc@;
    let ai = ainto(a);
    proof {
        lemma_ainto_valid(alloc, a@, ai@);
    }
    let r = demux16(alloc, &ai, sel);
    proof {
        assert forall|g: Graph, va: Seq<bool>, vs: bool|
            #![trigger rewires(g0, alloc@, g), outputs_are(g, a@, va), value_is(g, sel, vs)]
            g.wf() && rewires(g0, alloc@, g) && outputs_are(g, a@, va) && value_is(g, sel, vs) implies outputs_are(
            g,
            r.0@,
            route(va, !vs),
        ) && outputs_are(g, r.1@, route(va, vs)) by {
            lemma_outputs_as_wires(g, a@, ai@, va);
            assert(outputs_are(g, r.0@, zero_bits(va, vs)));
            assert(outputs_are(g, r.1@, Seq::new(16, |k: int| va[k] && vs)));
            assert(zero_bits(va, vs) =~= route(va, !vs));
            assert(Seq::new(16, |k: int| va[k] && vs) =~= route(va, vs));
        }
    }
    r
}

/// Sixteen-bit multiplexer over eight inputs; `sel` holds three selector
/// bits, most significant first, and picks `in1` for zero up to `in8` for
/// seven.
pub fn mux16x8(
    alloc: &mut Circuit,
    in1: &Vec<Input>,
    in2: &Vec<Input>,
    in3: &Vec<Input>,
    in4: &Vec<Input>,
    in5: &Vec<Input>,
    in6: &Vec<Input>,
    in7: &Vec<Input>,
    in8: &Vec<Input>,
    sel: &Vec<Input>,
) -> (r: Vec<usize>)
    requires
        old(alloc).inv(),
        in1.len() == 16,
        all_valid(old(alloc), in1@),
        in2.len() == 16,
        all_valid(old(alloc), in2@),
        in3.len() == 16,
        all_valid(old(alloc), in3@),
        in4.len() == 16,
        all_valid(old(alloc), in4@),
        in5.len() == 16,
        all_valid(old(alloc), in5@),
        in6.len() == 16,
        all_valid(old(alloc), in6@),
        in7.len() == 16,
        all_valid(old(alloc), in7@),
        in8.len() == 16,
        all_valid(old(alloc), in8@),
        sel.len() == 3,
        all_valid(old(alloc), sel@),
    ensures
        builds(old(alloc), final(alloc)),
        r.len() == 16,
        all_wrappers(final(alloc), r@),
        all_fresh(old(alloc), r@),
        ({
            let g = old(alloc)@;
            let (s0, s1, s2) = (val(g, sel@[0]), val(g, sel@[1]), val(g, sel@[2]));
            has_values(g, in1@) && has_values(g, in2@) && has_values(g, in3@) && has_values(g, in4@) && has_values(g, in5@)
                && has_values(g, in6@) && has_values(g, in7@) && has_values(g, in8@) && has_values(g, sel@)
                ==> outputs_are(
                final(alloc)@,
                r@,
                if s0 {
                    if s1 {
                        if s2 { vals(g, in8@) } else { vals(g, in7@) }
                    } else {
                        if s2 { vals(g, in6@) } else { vals(g, in5@) }
                    }
                } else {
                    if s1 {
                        if s2 { vals(g, in4@) } else { vals(g, in3@) }
                    } else {
                        if s2 { vals(g, in2@) } else { vals(g, in1@) }
                    }
                },
            )
        }),
        forall|g: Graph, x1: Seq<bool>, x2: Seq<bool>, x3: Seq<bool>, x4: Seq<bool>, x5: Seq<bool>, x6: Seq<bool>, x7: Seq<bool>, x8: Seq<bool>, xs: Seq<bool>|
            #![trigger rewires(old(alloc)@, final(alloc)@, g), values_are(g, in1@, x1), values_are(g, in2@, x2), values_are(g, in3@, x3), values_are(g, in4@, x4), values_are(g, in5@, x5), values_are(g, in6@, x6), values_are(g, in7@, x7), values_are(g, in8@, x8), values_are(g, sel@, xs)]
            g.wf() && rewires(old(alloc)@, final(alloc)@, g) && values_are(g, in1@, x1) && values_are(g, in2@, x2) && values_are(g, in3@, x3) && values_are(g, in4@, x4) && values_are(g, in5@, x5) && values_are(g, in6@, x6) && values_are(g, in7@, x7) && values_are(g, in8@, x8) && values_are(g, sel@, xs) ==> outputs_are(
                g,
                r@,
                if xs[0] {
                    if xs[1] {
                        if xs[2] { x8 } else { x7 }
                    } else {
                        if xs[2] { x6 } else { x5 }
                    }
                } else {
                    if xs[1] {
                        if xs[2] { x4 } else { x3 }
                    } else {
                        if xs[2] { x2 } else { x1 }
                    }
                },
            ),
{
    let ghost g0 = alloc@;
    let ghost d = has_values(g0, in1@) && has_values(g0, in2@) && has_values(g0, in3@) && has_values(g0, in4@)
        && has_values(g0, in5@) && has_values(g0, in6@) && has_values(g0, in7@) && has_values(g0, in8@)
        && has_values(g0, sel@);
    let ghost v1 = vals(g0, in1@);
    let ghost v2 = vals(g0, in2@);
    let ghost v3 = vals(g0, in3@);
    let ghost v4 = vals(g0, in4@);
    let ghost v5 = vals(g0, in5@);
    let ghost v6 = vals(g0, in6@);
    let ghost v7 = vals(g0, in7@);
    let ghost v8 = vals(g0, in8@);
    let ghost vs = vals(g0, sel@);
    let chip = alloc.new_chip("Mux16x8");
    let ghost g1 = alloc@;
    let s = ports(alloc, sel, "sel");
    let ghost g2 = alloc@;
    proof {
        assert(alloc@.valid_input(s@[0]));
        assert(alloc@.valid_input(s@[1]));
        assert(alloc@.valid_input(s@[2]));
        if d {
            lemma_values_of(g0, in1@);
            lemma_values_of(g0, in2@);
            lemma_values_of(g0, in3@);
            lemma_values_of(g0, in4@);
            lemma_values_of(g0, in5@);
            lemma_values_of(g0, in6@);
            lemma_values_of(g0, in7@);
            lemma_values_of(g0, in8@);
            lemma_values_of(g0, sel@);
            lemma_values_grow(g0, g1, sel@, vs);
            lemma_carry_values(g1, g2, sel@, s@, vs);
            assert(value_is(g2, s@[0], vs[0]));
            assert(value_is(g2, s@[1], vs[1]));
            assert(value_is(g2, s@[2], vs[2]));
            lemma_values_grow(g0, g2, in1@, v1);
            lemma_vals_are(g2, in1@, v1);
            lemma_values_grow(g0, g2, in2@, v2);
            lemma_vals_are(g2, in2@, v2);
            lemma_values_grow(g0, g2, in3@, v3);
            lemma_vals_are(g2, in3@, v3);
            lemma_values_grow(g0, g2, in4@, v4);
            lemma_vals_are(g2, in4@, v4);
            lemma_values_grow(g0, g2, in5@, v5);
            lemma_vals_are(g2, in5@, v5);
            lemma_values_grow(g0, g2, in6@, v6);
            lemma_vals_are(g2, in6@, v6);
            lemma_values_grow(g0, g2, in7@, v7);
            lemma_vals_are(g2, in7@, v7);
            lemma_values_grow(g0, g2, in8@, v8);
            lemma_vals_are(g2, in8@, v8);
        }
    }
    let mux1 = mux16(alloc, in1, in2, s[2]);
    let ghost g3 = alloc@;
    proof {
        if d {
            lemma_values_grow(g2, g3, in3@, v3);
            lemma_vals_are(g3, in3@, v3);
            lemma_values_grow(g2, g3, in4@, v4);
            lemma_vals_are(g3, in4@, v4);
            lemma_values_grow(g2, g3, in5@, v5);
            lemma_vals_are(g3, in5@, v5);
            lemma_values_grow(g2, g3, in6@, v6);
            lemma_vals_are(g3, in6@, v6);
            lemma_values_grow(g2, g3, in7@, v7);
            lemma_vals_are(g3, in7@, v7);
            lemma_values_grow(g2, g3, in8@, v8);
            lemma_vals_are(g3, in8@, v8);
            lemma_value_grow(g2, g3, s@[2], vs[2]);
        }
    }
    let mux2 = mux16(alloc, in3, in4, s[2]);
    let ghost g4 = alloc@;
    proof {
        if d {
            lemma_values_grow(g3, g4, in5@, v5);
            lemma_vals_are(g4, in5@, v5);
            lemma_values_grow(g3, g4, in6@, v6);
            lemma_vals_are(g4, in6@, v6);
            lemma_values_grow(g3, g4, in7@, v7);
            lemma_vals_are(g4, in7@, v7);
            lemma_values_grow(g3, g4, in8@, v8);
            lemma_vals_are(g4, in8@, v8);
            lemma_value_grow(g2, g4, s@[2], vs[2]);
        }
    }
    let mux3 = mux16(alloc, in5, in6, s[2]);
    let ghost g5 = alloc@;
    proof {
        if d {
            lemma_values_grow(g4, g5, in7@, v7);
            lemma_vals_are(g5, in7@, v7);
            lemma_values_grow(g4, g5, in8@, v8);
            lemma_vals_are(g5, in8@, v8);
            lemma_value_grow(g2, g5, s@[2], vs[2]);
        }
    }
    let mux4 = mux16(alloc, in7, in8, s[2]);
    let ghost g6 = alloc@;
    let ghost m1 = if vs[2] { v2 } else { v1 };
    let ghost m2 = if vs[2] { v4 } else { v3 };
    let ghost m3 = if vs[2] { v6 } else { v5 };
    let ghost m4 = if vs[2] { v8 } else { v7 };
    proof {
        if d {
            assert(outputs_are(g3, mux1@, m1));
            assert(outputs_are(g4, mux2@, m2));
            assert(outputs_are(g5, mux3@, m3));
            assert(outputs_are(g6, mux4@, m4));
            lemma_outputs_grow(g3, g6, mux1@, m1);
            lemma_outputs_grow(g4, g6, mux2@, m2);
            lemma_outputs_grow(g5, g6, mux3@, m3);
            lemma_value_grow(g2, g6, s@[1], vs[1]);
        }
    }
    let mux5 = mux16_of(alloc, &mux1, &mux2, s[1]);
    let ghost g7 = alloc@;
    let ghost m5 = if vs[1] { m2 } else { m1 };
    proof {
        if d {
            assert(outputs_are(g7, mux5@, m5));
            lemma_outputs_grow(g6, g7, mux3@, m3);
            lemma_outputs_grow(g6, g7, mux4@, m4);
            lemma_value_grow(g2, g7, s@[1], vs[1]);
        }
    }
    let mux6 = mux16_of(alloc, &mux3, &mux4, s[1]);
    let ghost g8 = alloc@;
    let ghost m6 = if vs[1] { m4 } else { m3 };
    proof {
        if d {
            assert(outputs_are(g8, mux6@, m6));
            lemma_outputs_grow(g7, g8, mux5@, m5);
            lemma_value_grow(g2, g8, s@[0], vs[0]);
        }
    }
    let mux7 = mux16_of(alloc, &mux5, &mux6, s[0]);
    let ghost g9 = alloc@;
    let r = expose_all(alloc, chip, &mux7);
    proof {
        assert forall|g: Graph, x1: Seq<bool>, x2: Seq<bool>, x3: Seq<bool>, x4: Seq<bool>, x5: Seq<bool>, x6: Seq<bool>, x7: Seq<bool>, x8: Seq<bool>, xs: Seq<bool>|
            g.wf() && rewires(g0, alloc@, g) && values_are(g, in1@, x1) && values_are(g, in2@, x2) && values_are(g, in3@, x3) && values_are(g, in4@, x4) && values_are(g, in5@, x5) && values_are(g, in6@, x6) && values_are(g, in7@, x7) && values_are(g, in8@, x8) && values_are(g, sel@, xs) implies outputs_are(
            g,
            r@,
            if xs[0] {
                        if xs[1] {
                            if xs[2] { x8 } else { x7 }
                        } else {
                            if xs[2] { x6 } else { x5 }
                        }
                    } else {
                        if xs[1] {
                            if xs[2] { x4 } else { x3 }
                        } else {
                            if xs[2] { x2 } else { x1 }
                        }
                    },
        ) by {
            lemma_rewires_steps(seq![g0, g1, g2, g3, g4, g5, g6, g7, g8, g9, alloc@], g);
            assert(rewires(g0, g1, g));
            assert(rewires(g1, g2, g));
            assert(rewires(g2, g3, g));
            assert(rewires(g3, g4, g));
            assert(rewires(g4, g5, g));
            assert(rewires(g5, g6, g));
            assert(rewires(g6, g7, g));
            assert(rewires(g7, g8, g));
            assert(rewires(g8, g9, g));
            assert(rewires(g9, alloc@, g));
            assert(values_are(g, s@, xs));
            assert(value_is(g, s@[0], xs[0]));
            assert(value_is(g, s@[1], xs[1]));
            assert(value_is(g, s@[2], xs[2]));
            let m1 = if xs[2] { x2 } else { x1 };
            let m2 = if xs[2] { x4 } else { x3 };
            let m3 = if xs[2] { x6 } else { x5 };
            let m4 = if xs[2] { x8 } else { x7 };
            assert(outputs_are(g, mux1@, m1));
            assert(outputs_are(g, mux2@, m2));
            assert(outputs_are(g, mux3@, m3));
            assert(outputs_are(g, mux4@, m4));
            let m5 = if xs[1] { m2 } else { m1 };
            let m6 = if xs[1] { m4 } else { m3 };
            assert(outputs_are(g, mux5@, m5));
            assert(outputs_are(g, mux6@, m6));
            assert(outputs_are(g, mux7@, if xs[0] { m6 } else { m5 }));
        }
        if d {
            let m7 = if vs[0] { m6 } else { m5 };
            assert(outputs_are(g9, mux7@, m7));
            lemma_carry_outputs(g9, alloc@, mux7@, r@, m7);
        }
    }
    r
}

/// Sixteen-bit demultiplexer to eight outputs; `sel` holds three selector
/// bits, most significant first, and routes the input to output `sel`; the
/// other outputs are all false.
#[verifier::rlimit(100)]
#[verifier::spinoff_prover]
pub fn demux16x8(alloc: &mut Circuit, in_: &Vec<Input>, sel: &Vec<Input>) -> (r: Vec<Vec<usize>>)
    requires
        old(alloc).inv(),
        in_.len() == 16,
        all_valid(old(alloc), in_@),
        sel.len() == 3,
        all_valid(old(alloc), sel@),
    ensures
        builds(old(alloc), final(alloc)),
        r.len() == 8,
        forall|k: int| 0 <= k < 8 ==> (#[trigger] r@[k]).len() == 16 && all_wrappers(final(alloc), r@[k]@),
        forall|g: Graph, v: Seq<bool>, sv: Seq<bool>|
            #![trigger rewires(old(alloc)@, final(alloc)@, g), values_are(g, in_@, v), values_are(g, sel@, sv)]
            g.wf() && rewires(old(alloc)@, final(alloc)@, g) && values_are(g, in_@, v) && values_are(g, sel@, sv)
                ==> forall|k: int| 0 <= k < 8 ==> outputs_are(g, (#[trigger] r@[k])@, route(v, select3(sv) == k)),
{
    let chip = alloc.new_chip("Demux16x8");
    let ghost g0 = alloc@;
    let s = ports(alloc, sel, "sel");
    let ghost g1 = alloc@;
    proof {
        assert(alloc@.valid_input(s@[0]));
        assert(alloc@.valid_input(s@[1]));
        assert(alloc@.valid_input(s@[2]));
    }
    let (d1a, d1b) = demux16(alloc, in_, s[0]);
    let ghost g2 = alloc@;
    let (d2a, d2b) = demux16_of(alloc, &d1a, s[1]);
    let ghost g3 = alloc@;
    let (d3a, d3b) = demux16_of(alloc, &d1b, s[1]);
    let ghost g4 = alloc@;
    let (d4a, d4b) = demux16_of(alloc, &d2a, s[2]);
    let ghost g5 = alloc@;
    let (d5a, d5b) = demux16_of(alloc, &d2b, s[2]);
    let ghost g6 = alloc@;
    let (d6a, d6b) = demux16_of(alloc, &d3a, s[2]);
    let ghost g7 = alloc@;
    let (d7a, d7b) = demux16_of(alloc, &d3b, s[2]);
    let ghost g8 = alloc@;
    let o1 = expose_all(alloc, chip, &d4a);
    let ghost g9 = alloc@;
    let o2 = expose_all(alloc, chip, &d4b);
    let ghost g10 = alloc@;
    let o3 = expose_all(alloc, chip, &d5a);
    let ghost g11 = alloc@;
    let o4 = expose_all(alloc, chip, &d5b);
    let ghost g12 = alloc@;
    let o5 = expose_all(alloc, chip, &d6a);
    let ghost g13 = alloc@;
    let o6 = expose_all(alloc, chip, &d6b);
    let ghost g14 = alloc@;
    let o7 = expose_all(alloc, chip, &d7a);
    let ghost g15 = alloc@;
    let o8 = expose_all(alloc, chip, &d7b);
    let ghost g16 = alloc@;
    let mut r: Vec<Vec<usize>> = Vec::new();
    r.push(o1);
    r.push(o2);
    r.push(o3);
    r.push(o4);
    r.push(o5);
    r.push(o6);
    r.push(o7);
    r.push(o8);
    proof {
        assert forall|h: Graph, v: Seq<bool>, sv: Seq<bool>|
            h.wf() && rewires(old(alloc)@, alloc@, h) && values_are(h, in_@, v) && values_are(h, sel@, sv) implies forall|k: int|
                0 <= k < 8 ==> outputs_are(h, (#[trigger] r@[k])@, route(v, select3(sv) == k)) by {
            lemma_rewires_steps(seq![old(alloc)@, g0, g1, g2, g3, g4, g5, g6, g7, g8, g9, g10, g11, g12, g13, g14, g15, g16, alloc@], h);
            assert(rewires(old(alloc)@, g0, h));
            assert(rewires(g0, g1, h));
            assert(rewires(g1, g2, h));
            assert(rewires(g2, g3, h));
            assert(rewires(g3, g4, h));
            assert(rewires(g4, g5, h));
            assert(rewires(g5, g6, h));
            assert(rewires(g6, g7, h));
            assert(rewires(g7, g8, h));
            assert(rewires(g8, g9, h));
            assert(rewires(g9, g10, h));
            assert(rewires(g10, g11, h));
            assert(rewires(g11, g12, h));
            assert(rewires(g12, g13, h));
            assert(rewires(g13, g14, h));
            assert(rewires(g14, g15, h));
            assert(rewires(g15, g16, h));
            assert(rewires(g16, alloc@, h));
            assert(values_are(h, s@, sv));
            assert(value_is(h, s@[0], sv[0]));
            assert(value_is(h, s@[1], sv[1]));
            assert(value_is(h, s@[2], sv[2]));
            let (b0, b1, b2) = (sv[0], sv[1], sv[2]);
            let a1 = zero_bits(v, b0);
            let c1 = Seq::new(16, |k: int| v[k] && b0);
            assert(outputs_are(h, d1a@, a1));
            assert(outputs_are(h, d1b@, c1));
            assert(outputs_are(h, d2a@, route(a1, !b1)));
            assert(outputs_are(h, d2b@, route(a1, b1)));
            assert(outputs_are(h, d3a@, route(c1, !b1)));
            assert(outputs_are(h, d3b@, route(c1, b1)));
            let leaves = seq![
                route(route(a1, !b1), !b2),
                route(route(a1, !b1), b2),
                route(route(a1, b1), !b2),
                route(route(a1, b1), b2),
                route(route(c1, !b1), !b2),
                route(route(c1, !b1), b2),
                route(route(c1, b1), !b2),
                route(route(c1, b1), b2),
            ];
            assert(outputs_are(h, d4a@, leaves[0]));
            assert(outputs_are(h, d4b@, leaves[1]));
            assert(outputs_are(h, d5a@, leaves[2]));
            assert(outputs_are(h, d5b@, leaves[3]));
            assert(outputs_are(h, d6a@, leaves[4]));
            assert(outputs_are(h, d6b@, leaves[5]));
            assert(outputs_are(h, d7a@, leaves[6]));
            assert(outputs_are(h, d7b@, leaves[7]));
            assert(outputs_are(h, o1@, leaves[0]));
            assert(outputs_are(h, o2@, leaves[1]));
            assert(outputs_are(h, o3@, leaves[2]));
            assert(outputs_are(h, o4@, leaves[3]));
            assert(outputs_are(h, o5@, leaves[4]));
            assert(outputs_are(h, o6@, leaves[5]));
            assert(outputs_are(h, o7@, leaves[6]));
            assert(outputs_are(h, o8@, leaves[7]));
            assert(r@[0] == o1 && r@[1] == o2 && r@[2] == o3 && r@[3] == o4);
            assert(r@[4] == o5 && r@[5] == o6 && r@[6] == o7 && r@[7] == o8);
            assert forall|k: int| 0 <= k < 8 implies outputs_are(h, (#[trigger] r@[k])@, route(v, select3(sv) == k)) by {
                assert(leaves[k] =~= route(v, select3(sv) == k));
                if k == 0 { assert(r@[k] == o1); }
                else if k == 1 { assert(r@[k] == o2); }
                else if k == 2 { assert(r@[k] == o3); }
                else if k == 3 { assert(r@[k] == o4); }
                else if k == 4 { assert(r@[k] == o5); }
                else if k == 5 { assert(r@[k] == o6); }
                else if k == 6 { assert(r@[k] == o7); }
                else { assert(r@[k] == o8); }
            }
        }
    }
    r
}

} // verus!
