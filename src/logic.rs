//! The logical value of a wire, and why memoized evaluation computes it on
//! circuits without feedback.
use vstd::prelude::*;
use crate::eval::{
    eval, eval_fuel, lemma_budget, lemma_settles_trans, lemma_settles_unstamped, lemma_settles_wf, potential, rank,
    settles, unstamped,
};
use crate::graph::{ChipOutput, ChipOutputType, Graph, Input, Nand};

verus! {

/// The logical value of wire `x`, following at most `fuel` references; `None`
/// where the references run out, loop back, or are unbound.
pub open spec fn comb(g: Graph, x: Input, fuel: nat) -> Option<bool>
    decreases fuel,
{
    if fuel == 0 || !g.valid_input(x) {
        None
    } else {
        match x {
            Input::UserInput(i) => Some(g.users[i as int]),
            Input::ChipInput(i) => comb(g, g.chip_inputs[i as int], (fuel - 1) as nat),
            Input::NandInput(n) => match (g.nands[n as int].in1, g.nands[n as int].in2) {
                (Some(a), Some(b)) => match (comb(g, a, (fuel - 1) as nat), comb(g, b, (fuel - 1) as nat)) {
                    (Some(va), Some(vb)) => Some(!(va && vb)),
                    _ => None,
                },
                _ => None,
            },
            Input::ChipOutput(w) => match g.outputs[g.wrappers[w as int] as int].out {
                Some(t) => comb(g, t.spec_as_input(), (fuel - 1) as nat),
                None => None,
            },
        }
    }
}

/// A logical value, once defined, stays the same with more fuel.
pub proof fn lemma_comb_mono(g: Graph, x: Input, f1: nat, f2: nat)
    requires
        g.wf(),
        f1 <= f2,
        comb(g, x, f1) is Some,
    ensures
        comb(g, x, f2) == comb(g, x, f1),
    decreases f1,
{
    if f1 > 0 {
        match x {
            Input::UserInput(_) => {},
            Input::ChipInput(i) => {
                lemma_comb_mono(g, g.chip_inputs[i as int], (f1 - 1) as nat, (f2 - 1) as nat);
            },
            Input::NandInput(n) => {
                let (a, b) = (g.nands[n as int].in1.unwrap(), g.nands[n as int].in2.unwrap());
                lemma_comb_mono(g, a, (f1 - 1) as nat, (f2 - 1) as nat);
                lemma_comb_mono(g, b, (f1 - 1) as nat, (f2 - 1) as nat);
            },
            Input::ChipOutput(w) => {
                let t = g.outputs[g.wrappers[w as int] as int].out.unwrap();
                lemma_comb_mono(g, t.spec_as_input(), (f1 - 1) as nat, (f2 - 1) as nat);
            },
        }
    }
}

/// Two defined logical values of one wire agree.
pub proof fn lemma_comb_agree(g: Graph, x: Input, f1: nat, f2: nat)
    requires
        g.wf(),
        comb(g, x, f1) is Some,
        comb(g, x, f2) is Some,
    ensures
        comb(g, x, f1) == comb(g, x, f2),
{
    if f1 <= f2 {
        lemma_comb_mono(g, x, f1, f2);
    } else {
        lemma_comb_mono(g, x, f2, f1);
    }
}

/// Settling caches does not change logical values.
pub proof fn lemma_comb_settles(a: Graph, b: Graph, x: Input, tick: u64, f: nat)
    requires
        a.wf(),
        settles(a, b, tick),
    ensures
        comb(a, x, f) == comb(b, x, f),
    decreases f,
{
    if f > 0 && a.valid_input(x) {
        match x {
            Input::UserInput(_) => {},
            Input::ChipInput(i) => {
                lemma_comb_settles(a, b, a.chip_inputs[i as int], tick, (f - 1) as nat);
            },
            Input::NandInput(n) => {
                assert(b.nands[n as int].in1 == a.nands[n as int].in1);
                assert(b.nands[n as int].in2 == a.nands[n as int].in2);
                if a.nands[n as int].in1 is Some && a.nands[n as int].in2 is Some {
                    lemma_comb_settles(a, b, a.nands[n as int].in1.unwrap(), tick, (f - 1) as nat);
                    lemma_comb_settles(a, b, a.nands[n as int].in2.unwrap(), tick, (f - 1) as nat);
                }
            },
            Input::ChipOutput(w) => {
                let o = a.wrappers[w as int];
                assert(b.outputs[o as int].out == a.outputs[o as int].out);
                if a.outputs[o as int].out is Some {
                    lemma_comb_settles(a, b, a.outputs[o as int].out.unwrap().spec_as_input(), tick, (f - 1) as nat);
                }
            },
        }
    }
}

/// The least fuel, at most `f`, with which `x` has a logical value.
pub open spec fn least_fuel(g: Graph, x: Input, f: nat) -> nat
    decreases f,
{
    if f > 0 && comb(g, x, (f - 1) as nat) is Some {
        least_fuel(g, x, (f - 1) as nat)
    } else {
        f
    }
}

proof fn lemma_least_fuel(g: Graph, x: Input, f: nat)
    requires
        g.wf(),
        comb(g, x, f) is Some,
    ensures
        least_fuel(g, x, f) <= f,
        comb(g, x, least_fuel(g, x, f)) == comb(g, x, f),
        least_fuel(g, x, f) == 0 || comb(g, x, (least_fuel(g, x, f) - 1) as nat) is None,
    decreases f,
{
    if f > 0 && comb(g, x, (f - 1) as nat) is Some {
        lemma_least_fuel(g, x, (f - 1) as nat);
        lemma_comb_agree(g, x, (f - 1) as nat, f);
    }
}

/// The logical value of chip output `o`: that of its source, one reference
/// further.
pub open spec fn out_comb(g: Graph, o: usize, fuel: nat) -> Option<bool> {
    if fuel == 0 {
        None
    } else {
        match g.outputs[o as int].out {
            Some(t) => comb(g, t.spec_as_input(), (fuel - 1) as nat),
            None => None,
        }
    }
}

/// Every memoized node stamped with `tick` whose logical value is defined
/// within `f` holds that value.
pub open spec fn holds_below(g: Graph, tick: u64, f: nat) -> bool {
    &&& forall|n: int|
        0 <= n < g.nands.len() && (#[trigger] g.nands[n]).iteration == tick && comb(g, Input::NandInput(n as usize), f) is Some
            ==> Some(g.nands[n].value) == comb(g, Input::NandInput(n as usize), f)
    &&& forall|o: int|
        0 <= o < g.outputs.len() && (#[trigger] g.outputs[o]).iteration == tick && out_comb(g, o as usize, f) is Some
            ==> Some(g.outputs[o].value) == out_comb(g, o as usize, f)
}

/// Gate `n` holds its logical value wherever that is defined.
pub open spec fn nand_done(g: Graph, n: int) -> bool {
    forall|f: nat| (#[trigger] comb(g, Input::NandInput(n as usize), f)) is Some
        ==> Some(g.nands[n].value) == comb(g, Input::NandInput(n as usize), f)
}

/// Output `o` holds the logical value of its source wherever that is defined.
pub open spec fn output_done(g: Graph, o: int) -> bool {
    forall|f: nat| (#[trigger] out_comb(g, o as usize, f)) is Some ==> Some(g.outputs[o].value) == out_comb(g, o as usize, f)
}

/// What one evaluation leaves behind: nodes it stamped hold their logical
/// values, and nodes stamped before are untouched.
pub open spec fn evaluated(a: Graph, b: Graph, tick: u64) -> bool {
    &&& settles(a, b, tick)
    &&& forall|n: int|
        0 <= n < a.nands.len() && a.nands[n].iteration == tick ==> #[trigger] b.nands[n] == a.nands[n]
    &&& forall|o: int|
        0 <= o < a.outputs.len() && a.outputs[o].iteration == tick ==> #[trigger] b.outputs[o] == a.outputs[o]
    &&& forall|n: int|
        0 <= n < a.nands.len() && a.nands[n].iteration != tick && b.nands[n].iteration == tick ==> #[trigger] nand_done(b, n)
    &&& forall|o: int|
        0 <= o < a.outputs.len() && a.outputs[o].iteration != tick && b.outputs[o].iteration == tick ==> #[trigger] output_done(b, o)
}


proof fn lemma_out_comb_mono(g: Graph, o: usize, f1: nat, f2: nat)
    requires
        g.wf(),
        o < g.outputs.len(),
        f1 <= f2,
        out_comb(g, o, f1) is Some,
    ensures
        out_comb(g, o, f2) == out_comb(g, o, f1),
{
    lemma_comb_mono(g, g.outputs[o as int].out.unwrap().spec_as_input(), (f1 - 1) as nat, (f2 - 1) as nat);
}

proof fn lemma_out_comb_settles(a: Graph, b: Graph, o: usize, tick: u64, f: nat)
    requires
        a.wf(),
        o < a.outputs.len(),
        settles(a, b, tick),
    ensures
        out_comb(a, o, f) == out_comb(b, o, f),
{
    assert(b.outputs[o as int].out == a.outputs[o as int].out);
    if f > 0 && a.outputs[o as int].out is Some {
        lemma_comb_settles(a, b, a.outputs[o as int].out.unwrap().spec_as_input(), tick, (f - 1) as nat);
    }
}

proof fn lemma_holds_lower(g: Graph, tick: u64, f1: nat, f2: nat)
    requires
        g.wf(),
        f1 <= f2,
        holds_below(g, tick, f2),
    ensures
        holds_below(g, tick, f1),
{
    assert forall|n: int|
        0 <= n < g.nands.len() && (#[trigger] g.nands[n]).iteration == tick && comb(g, Input::NandInput(n as usize), f1) is Some
            implies Some(g.nands[n].value) == comb(g, Input::NandInput(n as usize), f1) by {
        lemma_comb_mono(g, Input::NandInput(n as usize), f1, f2);
    }
    assert forall|o: int|
        0 <= o < g.outputs.len() && (#[trigger] g.outputs[o]).iteration == tick && out_comb(g, o as usize, f1) is Some
            implies Some(g.outputs[o].value) == out_comb(g, o as usize, f1) by {
        lemma_out_comb_mono(g, o as usize, f1, f2);
    }
}

proof fn lemma_nand_done_transport(a: Graph, b: Graph, n: int, tick: u64)
    requires
        a.wf(),
        0 <= n < a.nands.len(),
        settles(a, b, tick),
        b.nands[n].value == a.nands[n].value,
        nand_done(a, n),
    ensures
        nand_done(b, n),
{
    assert forall|f: nat| (#[trigger] comb(b, Input::NandInput(n as usize), f)) is Some
        implies Some(b.nands[n].value) == comb(b, Input::NandInput(n as usize), f) by {
        lemma_comb_settles(a, b, Input::NandInput(n as usize), tick, f);
    }
}

proof fn lemma_output_done_transport(a: Graph, b: Graph, o: int, tick: u64)
    requires
        a.wf(),
        0 <= o < a.outputs.len(),
        settles(a, b, tick),
        b.outputs[o].value == a.outputs[o].value,
        output_done(a, o),
    ensures
        output_done(b, o),
{
    assert forall|f: nat| (#[trigger] out_comb(b, o as usize, f)) is Some
        implies Some(b.outputs[o].value) == out_comb(b, o as usize, f) by {
        lemma_out_comb_settles(a, b, o as usize, tick, f);
    }
}

proof fn lemma_evaluated_trans(a: Graph, b: Graph, c: Graph, tick: u64)
    requires
        a.wf(),
        evaluated(a, b, tick),
        evaluated(b, c, tick),
    ensures
        evaluated(a, c, tick),
{
    lemma_settles_trans(a, b, c, tick);
    lemma_settles_wf(a, b, tick);
    assert forall|n: int|
        0 <= n < a.nands.len() && a.nands[n].iteration != tick && c.nands[n].iteration == tick implies #[trigger] nand_done(c, n) by {
        if b.nands[n].iteration == tick {
            assert(nand_done(b, n));
            assert(c.nands[n] == b.nands[n]);
            lemma_nand_done_transport(b, c, n, tick);
        }
    }
    assert forall|o: int|
        0 <= o < a.outputs.len() && a.outputs[o].iteration != tick && c.outputs[o].iteration == tick implies #[trigger] output_done(c, o) by {
        if b.outputs[o].iteration == tick {
            assert(output_done(b, o));
            assert(c.outputs[o] == b.outputs[o]);
            lemma_output_done_transport(b, c, o, tick);
        }
    }
}

proof fn lemma_evaluated_refl(g: Graph, tick: u64)
    ensures
        evaluated(g, g, tick),
{
}

/// After a gate or output `m` was stamped open, and the evaluation of some
/// wires that cannot reach it, the other stamped nodes still hold their
/// logical values below the fuel `f1` at which `m` itself has none.
proof fn lemma_holds_after(g: Graph, g1: Graph, g2: Graph, tick: u64, f: nat, f1: nat, open_nand: bool, m: int)
    requires
        g.wf(),
        f1 <= f,
        holds_below(g, tick, f),
        settles(g, g1, tick),
        evaluated(g1, g2, tick),
        open_nand ==> 0 <= m < g.nands.len() && comb(g, Input::NandInput(m as usize), f1) is None,
        !open_nand ==> 0 <= m < g.outputs.len() && out_comb(g, m as usize, f1) is None,
        forall|n: int| 0 <= n < g.nands.len() && (!open_nand || n != m) ==> #[trigger] g1.nands[n] == g.nands[n],
        forall|o: int| 0 <= o < g.outputs.len() && (open_nand || o != m) ==> #[trigger] g1.outputs[o] == g.outputs[o],
    ensures
        holds_below(g2, tick, f1),
{
    lemma_settles_trans(g, g1, g2, tick);
    lemma_settles_wf(g, g1, tick);
    assert forall|n: int|
        0 <= n < g2.nands.len() && (#[trigger] g2.nands[n]).iteration == tick && comb(g2, Input::NandInput(n as usize), f1) is Some
            implies Some(g2.nands[n].value) == comb(g2, Input::NandInput(n as usize), f1) by {
        lemma_comb_settles(g, g2, Input::NandInput(n as usize), tick, f1);
        if g1.nands[n].iteration == tick {
            assert(g2.nands[n] == g1.nands[n]);
            if !(open_nand && n == m) {
                assert(g1.nands[n] == g.nands[n]);
                lemma_comb_mono(g, Input::NandInput(n as usize), f1, f);
            }
        } else {
            assert(nand_done(g2, n));
        }
    }
    assert forall|o: int|
        0 <= o < g2.outputs.len() && (#[trigger] g2.outputs[o]).iteration == tick && out_comb(g2, o as usize, f1) is Some
            implies Some(g2.outputs[o].value) == out_comb(g2, o as usize, f1) by {
        lemma_out_comb_settles(g, g2, o as usize, tick, f1);
        if g1.outputs[o].iteration == tick {
            assert(g2.outputs[o] == g1.outputs[o]);
            if !(!open_nand && o == m) {
                assert(g1.outputs[o] == g.outputs[o]);
                lemma_out_comb_mono(g, o as usize, f1, f);
            }
        } else {
            assert(output_done(g2, o));
        }
    }
}

/// Memoized evaluation of a wire computes its logical value, provided that
/// value is defined (`f` is the least fuel for it) and every stamped node that
/// the evaluation may reach already holds its own.
pub proof fn lemma_eval_logic(g: Graph, x: Input, tick: u64, e: nat, f: nat)
    requires
        g.wf(),
        g.complete(),
        g.valid_input(x),
        e > potential(g, x, tick),
        comb(g, x, f) is Some,
        f == 0 || comb(g, x, (f - 1) as nat) is None,
        holds_below(g, tick, f),
    ensures
        Some(eval_fuel(g, x, tick, e).1) == comb(g, x, f),
        evaluated(g, eval_fuel(g, x, tick, e).0, tick),
    decreases e,
{
    let k = (g.chip_inputs.len() + 2) as nat;
    match x {
        Input::UserInput(_) => {},
        Input::ChipInput(i) => {
            let src = g.chip_inputs[i as int];
            assert(g.valid_input(src));
            if f >= 2 {
                assert(comb(g, x, (f - 1) as nat) == comb(g, src, (f - 2) as nat));
            }
            lemma_holds_lower(g, tick, (f - 1) as nat, f);
            lemma_eval_logic(g, src, tick, (e - 1) as nat, (f - 1) as nat);
        },
        Input::NandInput(n) => {
            let node = g.nands[n as int];
            if node.iteration != tick {
                let g1 = Graph { nands: g.nands.update(n as int, Nand { iteration: tick, ..node }), ..g };
                assert(settles(g, g1, tick));
                lemma_settles_wf(g, g1, tick);
                let (a, b) = (node.in1.unwrap(), node.in2.unwrap());
                assert(g.valid_opt(node.in1) && g.valid_opt(node.in2));
                let fm = (f - 1) as nat;
                lemma_least_fuel(g, a, fm);
                lemma_least_fuel(g, b, fm);
                let fa = least_fuel(g, a, fm);
                let fb = least_fuel(g, b, fm);
                lemma_comb_settles(g, g1, a, tick, fa);
                lemma_comb_settles(g, g1, b, tick, fb);
                if fa > 0 {
                    lemma_comb_settles(g, g1, a, tick, (fa - 1) as nat);
                }
                // the open gate has no logical value below `f`
                assert(comb(g, x, fa) is None) by {
                    if comb(g, x, fa) is Some {
                        lemma_comb_mono(g, x, fa, fm);
                    }
                }
                assert(comb(g, x, fb) is None) by {
                    if comb(g, x, fb) is Some {
                        lemma_comb_mono(g, x, fb, fm);
                    }
                }
                lemma_evaluated_refl(g1, tick);
                lemma_holds_after(g, g1, g1, tick, f, fa, true, n as int);
                assert(g.nands.update(n as int, Nand { iteration: tick, ..node })[n as int].iteration == tick);
                // budget, as for the executable evaluation
                let ns = crate::eval::nand_stamps(g);
                assert(crate::eval::nand_stamps(g1) =~= ns.update(n as int, tick));
                assert(crate::eval::output_stamps(g1) =~= crate::eval::output_stamps(g));
                crate::eval::lemma_stale_update(ns, n as int, tick);
                lemma_budget(k, unstamped(g, tick), unstamped(g1, tick), e, 1, rank(a));
                lemma_eval_logic(g1, a, tick, (e - 1) as nat, fa);
                let (g2, va) = eval_fuel(g1, a, tick, (e - 1) as nat);
                lemma_settles_wf(g1, g2, tick);
                lemma_settles_unstamped(g1, g2, tick);
                lemma_budget(k, unstamped(g, tick), unstamped(g2, tick), e, 1, rank(b));
                lemma_settles_trans(g, g1, g2, tick);
                lemma_comb_settles(g, g2, b, tick, fb);
                if fb > 0 {
                    lemma_comb_settles(g, g2, b, tick, (fb - 1) as nat);
                }
                lemma_holds_after(g, g1, g2, tick, f, fb, true, n as int);
                lemma_eval_logic(g2, b, tick, (e - 1) as nat, fb);
                let (g3, vb) = eval_fuel(g2, b, tick, (e - 1) as nat);
                let v = !(va && vb);
                let g4 = Graph { nands: g3.nands.update(n as int, Nand { value: v, ..g3.nands[n as int] }), ..g3 };
                assert(eval_fuel(g, x, tick, e) == (g4, v));
                lemma_evaluated_trans(g1, g2, g3, tick);
                lemma_settles_wf(g2, g3, tick);
                lemma_settles_trans(g, g1, g3, tick);
                assert(settles(g3, g4, tick));
                lemma_settles_trans(g, g3, g4, tick);
                assert(g3.nands[n as int].iteration == tick);
                assert forall|f2: nat| (#[trigger] comb(g4, Input::NandInput(n), f2)) is Some
                    implies Some(g4.nands[n as int].value) == comb(g4, Input::NandInput(n), f2) by {
                    lemma_comb_settles(g, g4, x, tick, f2);
                    lemma_comb_agree(g, x, f2, f);
                }
                assert(nand_done(g4, n as int));
                assert forall|m: int|
                    0 <= m < g.nands.len() && g.nands[m].iteration != tick && g4.nands[m].iteration == tick implies #[trigger] nand_done(g4, m) by {
                    if m != n {
                        assert(g1.nands[m] == g.nands[m]);
                        assert(nand_done(g3, m));
                        lemma_nand_done_transport(g3, g4, m, tick);
                    }
                }
                assert forall|o: int|
                    0 <= o < g.outputs.len() && g.outputs[o].iteration != tick && g4.outputs[o].iteration == tick implies #[trigger] output_done(g4, o) by {
                    assert(g1.outputs[o] == g.outputs[o]);
                    assert(output_done(g3, o));
                    lemma_output_done_transport(g3, g4, o, tick);
                }
                assert forall|m: int| 0 <= m < g.nands.len() && g.nands[m].iteration == tick implies #[trigger] g4.nands[m] == g.nands[m] by {
                    assert(g1.nands[m] == g.nands[m]);
                }
                assert forall|o: int| 0 <= o < g.outputs.len() && g.outputs[o].iteration == tick implies #[trigger] g4.outputs[o] == g.outputs[o] by {
                    assert(g1.outputs[o] == g.outputs[o]);
                }
            }
        },
        Input::ChipOutput(w) => {
            let o = g.wrappers[w as int];
            let node = g.outputs[o as int];
            assert(g.valid_source(node.out));
            let src = node.out.unwrap().spec_as_input();
            assert(comb(g, x, f) == out_comb(g, o, f));
            if node.iteration == tick {
            } else {
                let g1 = Graph { outputs: g.outputs.update(o as int, ChipOutput { iteration: tick, ..node }), ..g };
                assert(settles(g, g1, tick));
                lemma_settles_wf(g, g1, tick);
                let fm = (f - 1) as nat;
                if f >= 2 {
                    assert(comb(g, x, fm) == comb(g, src, (fm - 1) as nat));
                }
                lemma_comb_settles(g, g1, src, tick, fm);
                if fm > 0 {
                    lemma_comb_settles(g, g1, src, tick, (fm - 1) as nat);
                }
                assert(out_comb(g, o, fm) is None) by {
                    assert(out_comb(g, o, fm) == comb(g, x, fm));
                }
                lemma_evaluated_refl(g1, tick);
                lemma_holds_after(g, g1, g1, tick, f, fm, false, o as int);
                let os = crate::eval::output_stamps(g);
                assert(crate::eval::output_stamps(g1) =~= os.update(o as int, tick));
                assert(crate::eval::nand_stamps(g1) =~= crate::eval::nand_stamps(g));
                crate::eval::lemma_stale_update(os, o as int, tick);
                lemma_budget(k, unstamped(g, tick), unstamped(g1, tick), e, 1, rank(src));
                lemma_eval_logic(g1, src, tick, (e - 1) as nat, fm);
                let (g2, v) = eval_fuel(g1, src, tick, (e - 1) as nat);
                let g3 = Graph { outputs: g2.outputs.update(o as int, ChipOutput { value: v, ..g2.outputs[o as int] }), ..g2 };
                assert(eval_fuel(g, x, tick, e) == (g3, v));
                lemma_settles_wf(g1, g2, tick);
                lemma_settles_trans(g, g1, g2, tick);
                assert(settles(g2, g3, tick));
                lemma_settles_trans(g, g2, g3, tick);
                assert(g2.outputs[o as int].iteration == tick);
                assert forall|f2: nat| (#[trigger] out_comb(g3, o, f2)) is Some
                    implies Some(g3.outputs[o as int].value) == out_comb(g3, o, f2) by {
                    lemma_out_comb_settles(g, g3, o, tick, f2);
                    lemma_out_comb_mono(g, o, f2, f2);
                    if f2 <= f {
                        lemma_out_comb_mono(g, o, f2, f);
                    } else {
                        lemma_out_comb_mono(g, o, f, f2);
                    }
                }
                assert(output_done(g3, o as int));
                assert forall|m: int|
                    0 <= m < g.nands.len() && g.nands[m].iteration != tick && g3.nands[m].iteration == tick implies #[trigger] nand_done(g3, m) by {
                    assert(g1.nands[m] == g.nands[m]);
                    assert(nand_done(g2, m));
                    lemma_nand_done_transport(g2, g3, m, tick);
                }
                assert forall|q: int|
                    0 <= q < g.outputs.len() && g.outputs[q].iteration != tick && g3.outputs[q].iteration == tick implies #[trigger] output_done(g3, q) by {
                    if q != o {
                        assert(g1.outputs[q] == g.outputs[q]);
                        assert(output_done(g2, q));
                        lemma_output_done_transport(g2, g3, q, tick);
                    }
                }
                assert forall|m: int| 0 <= m < g.nands.len() && g.nands[m].iteration == tick implies #[trigger] g3.nands[m] == g.nands[m] by {
                    assert(g1.nands[m] == g.nands[m]);
                }
                assert forall|q: int| 0 <= q < g.outputs.len() && g.outputs[q].iteration == tick implies #[trigger] g3.outputs[q] == g.outputs[q] by {
                    assert(g1.outputs[q] == g.outputs[q]);
                }
            }
        },
    }
}


/// Every memoized node stamped with `tick` holds its logical value.
pub open spec fn all_done(g: Graph, tick: u64) -> bool {
    &&& forall|n: int| 0 <= n < g.nands.len() && (#[trigger] g.nands[n]).iteration == tick ==> nand_done(g, n)
    &&& forall|o: int| 0 <= o < g.outputs.len() && (#[trigger] g.outputs[o]).iteration == tick ==> output_done(g, o)
}

/// No memoized node is stamped with `tick` yet.
pub open spec fn unvisited(g: Graph, tick: u64) -> bool {
    &&& forall|n: int| 0 <= n < g.nands.len() ==> (#[trigger] g.nands[n]).iteration != tick
    &&& forall|o: int| 0 <= o < g.outputs.len() ==> (#[trigger] g.outputs[o]).iteration != tick
}

proof fn lemma_all_done_holds(g: Graph, tick: u64, f: nat)
    requires
        all_done(g, tick),
    ensures
        holds_below(g, tick, f),
{
    assert forall|n: int|
        0 <= n < g.nands.len() && (#[trigger] g.nands[n]).iteration == tick && comb(g, Input::NandInput(n as usize), f) is Some
            implies Some(g.nands[n].value) == comb(g, Input::NandInput(n as usize), f) by {
        assert(nand_done(g, n));
    }
    assert forall|o: int|
        0 <= o < g.outputs.len() && (#[trigger] g.outputs[o]).iteration == tick && out_comb(g, o as usize, f) is Some
            implies Some(g.outputs[o].value) == out_comb(g, o as usize, f) by {
        assert(output_done(g, o));
    }
}

/// Where every stamped node holds its logical value, evaluating a wire that
/// has one returns it, and every stamped node still holds its own afterwards.
pub proof fn lemma_eval_done(g: Graph, x: Input, tick: u64, f: nat)
    requires
        g.wf(),
        g.complete(),
        g.valid_input(x),
        all_done(g, tick),
        comb(g, x, f) is Some,
    ensures
        Some(eval(g, x, tick).1) == comb(g, x, f),
        settles(g, eval(g, x, tick).0, tick),
        all_done(eval(g, x, tick).0, tick),
{
    lemma_least_fuel(g, x, f);
    let f0 = least_fuel(g, x, f);
    lemma_all_done_holds(g, tick, f0);
    lemma_eval_logic(g, x, tick, potential(g, x, tick) + 1, f0);
    let g1 = eval(g, x, tick).0;
    lemma_settles_wf(g, g1, tick);
    assert forall|n: int| 0 <= n < g1.nands.len() && (#[trigger] g1.nands[n]).iteration == tick implies nand_done(g1, n) by {
        if g.nands[n].iteration == tick {
            assert(nand_done(g, n));
            lemma_nand_done_transport(g, g1, n, tick);
        }
    }
    assert forall|o: int| 0 <= o < g1.outputs.len() && (#[trigger] g1.outputs[o]).iteration == tick implies output_done(g1, o) by {
        if g.outputs[o].iteration == tick {
            assert(output_done(g, o));
            lemma_output_done_transport(g, g1, o, tick);
        }
    }
}

/// On a circuit not yet evaluated at `tick`, evaluating a wire whose logical
/// value is defined (no feedback reaches it) returns that value.
pub proof fn lemma_fresh_eval(g: Graph, x: Input, tick: u64, f: nat)
    requires
        g.wf(),
        g.complete(),
        g.valid_input(x),
        unvisited(g, tick),
        comb(g, x, f) is Some,
    ensures
        Some(eval(g, x, tick).1) == comb(g, x, f),
{
    lemma_eval_done(g, x, tick, f);
}

/// `x` has a logical value: no feedback and no unbound reference reaches it.
pub open spec fn defined(g: Graph, x: Input) -> bool {
    exists|f: nat| (#[trigger] comb(g, x, f)) is Some
}

/// Evaluating outputs one after another, from a circuit where every stamped
/// node holds its logical value, gives every output its logical value when
/// each of them has one.
pub proof fn lemma_eval_all_logic(g: Graph, ws: Seq<usize>, tick: u64)
    requires
        g.wf(),
        g.complete(),
        forall|k: int| 0 <= k < ws.len() ==> #[trigger] ws[k] < g.wrappers.len(),
        forall|k: int| 0 <= k < ws.len() ==> defined(g, Input::ChipOutput(#[trigger] ws[k])),
        all_done(g, tick),
    ensures
        settles(g, crate::machine::eval_all(g, ws, tick).0, tick),
        all_done(crate::machine::eval_all(g, ws, tick).0, tick),
        crate::machine::eval_all(g, ws, tick).1.len() == ws.len(),
        forall|k: int, f: nat|
            0 <= k < ws.len() && (#[trigger] comb(g, Input::ChipOutput(ws[k]), f)) is Some
                ==> Some(crate::machine::eval_all(g, ws, tick).1[k]) == comb(g, Input::ChipOutput(ws[k]), f),
    decreases ws.len(),
{
    if ws.len() > 0 {
        let pre = ws.drop_last();
        assert forall|k: int| 0 <= k < pre.len() implies defined(g, Input::ChipOutput(#[trigger] pre[k])) by {
            assert(pre[k] == ws[k]);
            assert(defined(g, Input::ChipOutput(ws[k])));
        }
        lemma_eval_all_logic(g, pre, tick);
        let (g1, vs) = crate::machine::eval_all(g, pre, tick);
        lemma_settles_wf(g, g1, tick);
        let w = ws.last();
        let x = Input::ChipOutput(w);
        assert(defined(g, Input::ChipOutput(ws[ws.len() - 1])));
        let f0 = choose|f: nat| (#[trigger] comb(g, x, f)) is Some;
        lemma_comb_settles(g, g1, x, tick, f0);
        lemma_eval_done(g1, x, tick, f0);
        let (g2, v) = eval(g1, x, tick);
        assert(crate::machine::eval_all(g, ws, tick) == (g2, vs.push(v)));
        lemma_settles_trans(g, g1, g2, tick);
        assert forall|k: int, f: nat|
            0 <= k < ws.len() && (#[trigger] comb(g, Input::ChipOutput(ws[k]), f)) is Some
                implies Some(vs.push(v)[k]) == comb(g, Input::ChipOutput(ws[k]), f) by {
            if k < ws.len() - 1 {
                assert(pre[k] == ws[k]);
            } else {
                lemma_comb_agree(g, x, f, f0);
            }
        }
    }
}


/// `x` has logical value `v`.
pub open spec fn value_is(g: Graph, x: Input, v: bool) -> bool {
    exists|f: nat| #[trigger] comb(g, x, f) == Some(v)
}

/// Adding nodes does not change the logical value of an existing wire.
pub proof fn lemma_comb_grow(a: Graph, b: Graph, x: Input, f: nat)
    requires
        a.wf(),
        a.grows_to(b),
        a.valid_input(x),
    ensures
        comb(b, x, f) == comb(a, x, f),
    decreases f,
{
    if f > 0 {
        match x {
            Input::UserInput(_) => {},
            Input::ChipInput(i) => {
                assert(b.chip_inputs[i as int] == a.chip_inputs[i as int]);
                lemma_comb_grow(a, b, a.chip_inputs[i as int], (f - 1) as nat);
            },
            Input::NandInput(n) => {
                assert(b.nands[n as int] == a.nands[n as int]);
                assert(a.valid_opt(a.nands[n as int].in1) && a.valid_opt(a.nands[n as int].in2));
                if a.nands[n as int].in1 is Some && a.nands[n as int].in2 is Some {
                    lemma_comb_grow(a, b, a.nands[n as int].in1.unwrap(), (f - 1) as nat);
                    lemma_comb_grow(a, b, a.nands[n as int].in2.unwrap(), (f - 1) as nat);
                }
            },
            Input::ChipOutput(w) => {
                let o = a.wrappers[w as int];
                assert(b.wrappers[w as int] == o);
                assert(b.outputs[o as int] == a.outputs[o as int]);
                assert(a.valid_source(a.outputs[o as int].out));
                if a.outputs[o as int].out is Some {
                    lemma_comb_grow(a, b, a.outputs[o as int].out.unwrap().spec_as_input(), (f - 1) as nat);
                }
            },
        }
    }
}

pub proof fn lemma_value_grow(a: Graph, b: Graph, x: Input, v: bool)
    requires
        a.wf(),
        a.grows_to(b),
        a.valid_input(x),
        value_is(a, x, v),
    ensures
        value_is(b, x, v),
{
    let f = choose|f: nat| #[trigger] comb(a, x, f) == Some(v);
    lemma_comb_grow(a, b, x, f);
}

/// A gate reading wires of values `va` and `vb` has value `!(va && vb)`.
pub proof fn lemma_value_nand(g: Graph, n: usize, a: Input, b: Input, va: bool, vb: bool)
    requires
        g.wf(),
        n < g.nands.len(),
        g.nands[n as int].in1 == Some(a),
        g.nands[n as int].in2 == Some(b),
        value_is(g, a, va),
        value_is(g, b, vb),
    ensures
        value_is(g, Input::NandInput(n), !(va && vb)),
{
    let fa = choose|f: nat| #[trigger] comb(g, a, f) == Some(va);
    let fb = choose|f: nat| #[trigger] comb(g, b, f) == Some(vb);
    let f = if fa <= fb { fb } else { fa };
    lemma_comb_mono(g, a, fa, f);
    lemma_comb_mono(g, b, fb, f);
    assert(comb(g, Input::NandInput(n), f + 1) == Some(!(va && vb)));
}

/// A chip input bound to a wire of value `v` has value `v`.
pub proof fn lemma_value_chip_input(g: Graph, i: usize, v: bool)
    requires
        i < g.chip_inputs.len(),
        value_is(g, g.chip_inputs[i as int], v),
    ensures
        value_is(g, Input::ChipInput(i), v),
{
    let f = choose|f: nat| #[trigger] comb(g, g.chip_inputs[i as int], f) == Some(v);
    assert(comb(g, Input::ChipInput(i), f + 1) == Some(v));
}

/// An output wrapper whose output forwards a wire of value `v` has value `v`.
pub proof fn lemma_value_output(g: Graph, w: usize, t: ChipOutputType, v: bool)
    requires
        w < g.wrappers.len(),
        g.wrappers[w as int] < g.outputs.len(),
        g.outputs[g.wrappers[w as int] as int].out == Some(t),
        value_is(g, t.spec_as_input(), v),
    ensures
        value_is(g, Input::ChipOutput(w), v),
{
    let f = choose|f: nat| #[trigger] comb(g, t.spec_as_input(), f) == Some(v);
    assert(comb(g, Input::ChipOutput(w), f + 1) == Some(v));
}


/// An input cell's logical value is the value it holds.
pub proof fn lemma_value_user(g: Graph, i: usize)
    requires
        i < g.users.len(),
    ensures
        value_is(g, Input::UserInput(i), g.users[i as int]),
{
    assert(comb(g, Input::UserInput(i), 1) == Some(g.users[i as int]));
}

/// On a circuit not yet evaluated at `tick`, a wire with logical value `v`
/// evaluates to `v`: what a chip's contract says of its outputs' logical
/// values is what evaluation returns.
pub proof fn lemma_value_eval(g: Graph, x: Input, tick: u64, v: bool)
    requires
        g.wf(),
        g.complete(),
        g.valid_input(x),
        unvisited(g, tick),
        value_is(g, x, v),
    ensures
        eval(g, x, tick).1 == v,
{
    let f = choose|f: nat| #[trigger] comb(g, x, f) == Some(v);
    lemma_fresh_eval(g, x, tick, f);
}


/// The logical value of `x`, where it has one.
pub open spec fn val(g: Graph, x: Input) -> bool {
    choose|v: bool| #[trigger] value_is(g, x, v)
}

/// The logical values of the wires `xs`.
pub open spec fn vals(g: Graph, xs: Seq<Input>) -> Seq<bool> {
    xs.map_values(|x: Input| val(g, x))
}

/// `x` has some logical value.
pub open spec fn has_value(g: Graph, x: Input) -> bool {
    exists|v: bool| #[trigger] value_is(g, x, v)
}

/// Every wire of `xs` has a logical value.
pub open spec fn has_values(g: Graph, xs: Seq<Input>) -> bool {
    forall|i: int| 0 <= i < xs.len() ==> has_value(g, #[trigger] xs[i])
}

pub proof fn lemma_vals(g: Graph, xs: Seq<Input>, i: int)
    requires
        has_values(g, xs),
        0 <= i < xs.len(),
    ensures
        value_is(g, xs[i], vals(g, xs)[i]),
{
    assert(has_value(g, xs[i]));
}

/// The carry out of the `k` least significant bits of the sum of `a` and `b`,
/// both most significant bit first.
pub open spec fn ripple_carry(a: Seq<bool>, b: Seq<bool>, k: int) -> bool
    decreases k,
{
    if k <= 0 {
        false
    } else {
        let i = a.len() - k;
        let c = ripple_carry(a, b, k - 1);
        (c && a[i]) || (b[i] && (c != a[i]))
    }
}

/// Bit `i`, most significant first, of the sum of `a` and `b`, the final carry
/// dropped.
pub open spec fn ripple_sum(a: Seq<bool>, b: Seq<bool>, i: int) -> bool {
    b[i] != (ripple_carry(a, b, a.len() - 1 - i) != a[i])
}


/// A wire has at most one logical value.
pub proof fn lemma_value_unique(g: Graph, x: Input, v1: bool, v2: bool)
    requires
        g.wf(),
        value_is(g, x, v1),
        value_is(g, x, v2),
    ensures
        v1 == v2,
{
    let f1 = choose|f: nat| #[trigger] comb(g, x, f) == Some(v1);
    let f2 = choose|f: nat| #[trigger] comb(g, x, f) == Some(v2);
    lemma_comb_agree(g, x, f1, f2);
}

/// The number one in 16 bits, most significant first.
pub open spec fn one16() -> Seq<bool> {
    Seq::new(16, |i: int| i == 15)
}

proof fn lemma_ripple_carry_comm(a: Seq<bool>, b: Seq<bool>, k: int)
    requires
        a.len() == b.len(),
        k <= a.len(),
    ensures
        ripple_carry(a, b, k) == ripple_carry(b, a, k),
    decreases k,
{
    if k > 0 {
        lemma_ripple_carry_comm(a, b, k - 1);
    }
}

/// Adding one to `x` gives, bit for bit, what adding `x` to one gives: an
/// incrementer and an adder fed one agree on every input.
pub proof fn lemma_increment_is_add_one(x: Seq<bool>)
    requires
        x.len() == 16,
    ensures
        forall|i: int| 0 <= i < 16 ==> #[trigger] ripple_sum(one16(), x, i) == ripple_sum(x, one16(), i),
{
    assert forall|i: int| 0 <= i < 16 implies #[trigger] ripple_sum(one16(), x, i) == ripple_sum(x, one16(), i) by {
        lemma_ripple_carry_comm(one16(), x, 15 - i);
    }
}


pub open spec fn pow2(k: nat) -> nat
    decreases k,
{
    if k == 0 {
        1
    } else {
        2 * pow2((k - 1) as nat)
    }
}

/// The number that the `k` least significant bits of `s` (most significant
/// first) stand for.
pub open spec fn low_value(s: Seq<bool>, k: nat) -> nat
    decreases k,
{
    if k == 0 {
        0
    } else {
        low_value(s, (k - 1) as nat) + if s[s.len() - k] { pow2((k - 1) as nat) } else { 0 }
    }
}

/// The number that the bits `s`, most significant first, stand for.
pub open spec fn bits_value(s: Seq<bool>) -> nat {
    low_value(s, s.len())
}

/// The bits of the sum of `a` and `b`, the final carry dropped.
pub open spec fn ripple_bits(a: Seq<bool>, b: Seq<bool>) -> Seq<bool> {
    Seq::new(a.len(), |i: int| ripple_sum(a, b, i))
}

proof fn lemma_low_value_bound(s: Seq<bool>, k: nat)
    requires
        k <= s.len(),
    ensures
        low_value(s, k) < pow2(k),
    decreases k,
{
    if k > 0 {
        lemma_low_value_bound(s, (k - 1) as nat);
    }
}

proof fn lemma_ripple_low(a: Seq<bool>, b: Seq<bool>, k: nat)
    requires
        a.len() == b.len(),
        k <= a.len(),
    ensures
        low_value(a, k) + low_value(b, k) == low_value(ripple_bits(a, b), k) + if ripple_carry(a, b, k as int) {
            pow2(k)
        } else {
            0
        },
    decreases k,
{
    if k > 0 {
        let k1 = (k - 1) as nat;
        lemma_ripple_low(a, b, k1);
        let n = a.len();
        let i = n - k;
        let s = ripple_bits(a, b);
        assert(s.len() == n);
        assert(s[i] == ripple_sum(a, b, i));
        assert(n - 1 - i == k1);
        let p = pow2(k1);
        assert(pow2(k) == 2 * p);
        let c0 = ripple_carry(a, b, k1 as int);
        let c1 = ripple_carry(a, b, k as int);
        // one full-adder step: a_i + b_i + carry in == s_i + 2 * carry out
        let ai: nat = if a[i] { 1 } else { 0 };
        let bi: nat = if b[i] { 1 } else { 0 };
        let ci: nat = if c0 { 1 } else { 0 };
        let si: nat = if s[i] { 1 } else { 0 };
        let co: nat = if c1 { 1 } else { 0 };
        assert(ai + bi + ci == si + 2 * co);
        assert((ai + bi + ci) * p == (si + 2 * co) * p);
        assert((ai + bi + ci) * p == ai * p + bi * p + ci * p) by (nonlinear_arith);
        assert((si + 2 * co) * p == si * p + co * (2 * p)) by (nonlinear_arith);
        assert(low_value(a, k) == low_value(a, k1) + ai * p);
        assert(low_value(b, k) == low_value(b, k1) + bi * p);
        assert(low_value(s, k) == low_value(s, k1) + si * p);
    }
}

/// A ripple-carry sum is the sum of the two numbers, modulo two to the width.
pub proof fn lemma_ripple_adds(a: Seq<bool>, b: Seq<bool>)
    requires
        a.len() == b.len(),
    ensures
        bits_value(ripple_bits(a, b)) as int == (bits_value(a) + bits_value(b)) as int % (pow2(a.len()) as int),
{
    let n = a.len();
    lemma_ripple_low(a, b, n);
    let s = ripple_bits(a, b);
    lemma_low_value_bound(s, n);
    let c: nat = if ripple_carry(a, b, n as int) { 1 } else { 0 };
    let p = pow2(n);
    assert(low_value(a, n) + low_value(b, n) == low_value(s, n) + c * p);
    let x = low_value(a, n) + low_value(b, n);
    let y = low_value(s, n);
    assert(0 <= y < p);
    assert(x == c * p + y);
    vstd::arithmetic::div_mod::lemma_fundamental_div_mod_converse(x as int, p as int, c as int, y as int);
}


/// Wire `xs[i]` has logical value `vs[i]`, for every `i`.
pub open spec fn values_are(g: Graph, xs: Seq<Input>, vs: Seq<bool>) -> bool {
    &&& xs.len() == vs.len()
    &&& forall|i: int| 0 <= i < xs.len() ==> #[trigger] value_is(g, xs[i], vs[i])
}

/// The output behind wrapper `ws[i]` has logical value `vs[i]`, for every `i`.
pub open spec fn outputs_are(g: Graph, ws: Seq<usize>, vs: Seq<bool>) -> bool {
    &&& ws.len() == vs.len()
    &&& forall|i: int| 0 <= i < ws.len() ==> #[trigger] value_is(g, Input::ChipOutput(ws[i]), vs[i])
}

pub proof fn lemma_values_grow(a: Graph, b: Graph, xs: Seq<Input>, vs: Seq<bool>)
    requires
        a.wf(),
        a.grows_to(b),
        forall|i: int| 0 <= i < xs.len() ==> a.valid_input(#[trigger] xs[i]),
        values_are(a, xs, vs),
    ensures
        values_are(b, xs, vs),
{
    assert forall|i: int| 0 <= i < xs.len() implies #[trigger] value_is(b, xs[i], vs[i]) by {
        lemma_value_grow(a, b, xs[i], vs[i]);
    }
}

pub proof fn lemma_outputs_grow(a: Graph, b: Graph, ws: Seq<usize>, vs: Seq<bool>)
    requires
        a.wf(),
        a.grows_to(b),
        forall|i: int| 0 <= i < ws.len() ==> #[trigger] ws[i] < a.wrappers.len(),
        outputs_are(a, ws, vs),
    ensures
        outputs_are(b, ws, vs),
{
    assert forall|i: int| 0 <= i < ws.len() implies #[trigger] value_is(b, Input::ChipOutput(ws[i]), vs[i]) by {
        lemma_value_grow(a, b, Input::ChipOutput(ws[i]), vs[i]);
    }
}

/// Where every wire of `xs` has a logical value, those values are `vals`.
pub proof fn lemma_values_of(g: Graph, xs: Seq<Input>)
    requires
        has_values(g, xs),
    ensures
        values_are(g, xs, vals(g, xs)),
{
    assert forall|i: int| 0 <= i < xs.len() implies #[trigger] value_is(g, xs[i], vals(g, xs)[i]) by {
        lemma_vals(g, xs, i);
    }
}

/// Wires with known logical values have them as `vals`.
pub proof fn lemma_vals_are(g: Graph, xs: Seq<Input>, vs: Seq<bool>)
    requires
        g.wf(),
        values_are(g, xs, vs),
    ensures
        has_values(g, xs),
        vals(g, xs) == vs,
{
    assert forall|i: int| 0 <= i < xs.len() implies has_value(g, #[trigger] xs[i]) by {
        assert(value_is(g, xs[i], vs[i]));
    }
    assert forall|i: int| 0 <= i < xs.len() implies vals(g, xs)[i] == vs[i] by {
        lemma_vals(g, xs, i);
        lemma_value_unique(g, xs[i], vals(g, xs)[i], vs[i]);
    }
    assert(vals(g, xs) =~= vs);
}


/// Adding one output to a list of outputs with known logical values.
pub proof fn lemma_outputs_push(a: Graph, b: Graph, ws: Seq<usize>, vs: Seq<bool>, w: usize, v: bool)
    requires
        a.wf(),
        a.grows_to(b),
        forall|i: int| 0 <= i < ws.len() ==> #[trigger] ws[i] < a.wrappers.len(),
        outputs_are(a, ws, vs),
        value_is(b, Input::ChipOutput(w), v),
    ensures
        outputs_are(b, ws.push(w), vs.push(v)),
{
    lemma_outputs_grow(a, b, ws, vs);
    assert forall|i: int| 0 <= i < ws.len() + 1 implies #[trigger] value_is(b, Input::ChipOutput(ws.push(w)[i]), vs.push(v)[i]) by {
        if i < ws.len() {
            assert(ws.push(w)[i] == ws[i]);
            assert(value_is(b, Input::ChipOutput(ws[i]), vs[i]));
        }
    }
}

pub open spec fn not_bits(x: Seq<bool>) -> Seq<bool> {
    Seq::new(x.len(), |i: int| !x[i])
}

pub open spec fn and_bits(x: Seq<bool>, y: Seq<bool>) -> Seq<bool> {
    Seq::new(x.len(), |i: int| x[i] && y[i])
}

pub open spec fn or_bits(x: Seq<bool>, y: Seq<bool>) -> Seq<bool> {
    Seq::new(x.len(), |i: int| x[i] || y[i])
}


/// Each bit of `x`, or zero throughout when `z` holds.
pub open spec fn zero_bits(x: Seq<bool>, z: bool) -> Seq<bool> {
    Seq::new(x.len(), |i: int| x[i] && !z)
}

/// `x`, or its bitwise negation when `n` holds.
pub open spec fn negate_bits(x: Seq<bool>, n: bool) -> Seq<bool> {
    if n {
        not_bits(x)
    } else {
        x
    }
}

/// Wrapper indices as the wires that read them have the outputs' values.
pub proof fn lemma_outputs_as_wires(g: Graph, ws: Seq<usize>, xs: Seq<Input>, vs: Seq<bool>)
    requires
        outputs_are(g, ws, vs),
        xs.len() == ws.len(),
        forall|i: int| 0 <= i < ws.len() ==> #[trigger] xs[i] == Input::ChipOutput(ws[i]),
    ensures
        values_are(g, xs, vs),
{
    assert forall|i: int| 0 <= i < xs.len() implies #[trigger] value_is(g, xs[i], vs[i]) by {
        assert(xs[i] == Input::ChipOutput(ws[i]));
        assert(value_is(g, Input::ChipOutput(ws[i]), vs[i]));
    }
}


/// The AND (when `is_and`) or the OR of all bits of `x`.
pub open spec fn fold_bits(x: Seq<bool>, is_and: bool) -> bool
    decreases x.len(),
{
    if x.len() == 0 {
        is_and
    } else {
        let p = fold_bits(x.drop_last(), is_and);
        if is_and {
            p && x.last()
        } else {
            p || x.last()
        }
    }
}


/// What the ALU computes from `x`, `y` and its control bits, bit for bit.
pub open spec fn alu_bits(
    x: Seq<bool>,
    y: Seq<bool>,
    zx: bool,
    nx: bool,
    zy: bool,
    ny: bool,
    f: bool,
    no: bool,
) -> Seq<bool> {
    let x1 = negate_bits(zero_bits(x, zx), nx);
    let y1 = negate_bits(zero_bits(y, zy), ny);
    negate_bits(if f { ripple_bits(x1, y1) } else { and_bits(x1, y1) }, no)
}


/// Rows of the ALU's opcode table, in the order zx, nx, zy, ny, f, no:
/// 000010 adds, 000000 is AND, 010101 is OR, 001100 passes `x`, 110000
/// passes `y`, 001101 negates `x` bitwise and 110001 negates `y`.
pub proof fn lemma_alu_table(x: Seq<bool>, y: Seq<bool>)
    requires
        x.len() == 16,
        y.len() == 16,
    ensures
        alu_bits(x, y, false, false, false, false, true, false) == ripple_bits(x, y),
        bits_value(ripple_bits(x, y)) as int == (bits_value(x) + bits_value(y)) as int % (pow2(16) as int),
        alu_bits(x, y, false, false, false, false, false, false) == and_bits(x, y),
        alu_bits(x, y, false, true, false, true, false, true) == or_bits(x, y),
        alu_bits(x, y, false, false, true, true, false, false) == x,
        alu_bits(x, y, true, true, false, false, false, false) == y,
        alu_bits(x, y, false, false, true, true, false, true) == not_bits(x),
        alu_bits(x, y, true, true, false, false, false, true) == not_bits(y),
{
    let (f, t) = (false, true);
    assert(zero_bits(x, f) =~= x);
    assert(zero_bits(y, f) =~= y);
    assert(alu_bits(x, y, f, f, f, f, t, f) =~= ripple_bits(x, y));
    lemma_ripple_adds(x, y);
    assert(alu_bits(x, y, f, f, f, f, f, f) =~= and_bits(x, y));
    assert(alu_bits(x, y, f, t, f, t, f, t) =~= or_bits(x, y));
    assert(alu_bits(x, y, f, f, t, t, f, f) =~= x);
    assert(alu_bits(x, y, t, t, f, f, f, f) =~= y);
    assert(alu_bits(x, y, f, f, t, t, f, t) =~= not_bits(x));
    assert(alu_bits(x, y, t, t, f, f, f, t) =~= not_bits(y));
}


/// `b` has the wiring of `a`, and possibly more nodes after it; cell values
/// and caches may differ.
pub open spec fn wired_like(a: Graph, b: Graph) -> bool {
    &&& a.users.len() <= b.users.len()
    &&& a.chip_inputs.len() <= b.chip_inputs.len()
    &&& a.wrappers.len() <= b.wrappers.len()
    &&& a.nands.len() <= b.nands.len()
    &&& a.outputs.len() <= b.outputs.len()
    &&& forall|i: int| 0 <= i < a.chip_inputs.len() ==> #[trigger] b.chip_inputs[i] == a.chip_inputs[i]
    &&& forall|i: int| 0 <= i < a.wrappers.len() ==> #[trigger] b.wrappers[i] == a.wrappers[i]
    &&& forall|i: int|
        0 <= i < a.nands.len() ==> (#[trigger] b.nands[i]).in1 == a.nands[i].in1 && b.nands[i].in2 == a.nands[i].in2
    &&& forall|i: int| 0 <= i < a.outputs.len() ==> (#[trigger] b.outputs[i]).out == a.outputs[i].out
}

/// `g` has the wiring that was built from `old` up to `new`, and the input
/// cells created meanwhile hold the values they were created with; every other
/// cell, and every cache, may hold anything.
pub open spec fn rewires(old: Graph, new: Graph, g: Graph) -> bool {
    &&& wired_like(new, g)
    &&& forall|i: int| old.users.len() <= i < new.users.len() ==> #[trigger] g.users[i] == new.users[i]
}

/// A construction step inside a larger one sees the same rewired graph.
pub proof fn lemma_rewires_split(a: Graph, m: Graph, b: Graph, g: Graph)
    requires
        a.grows_to(m),
        m.grows_to(b),
        rewires(a, b, g),
    ensures
        rewires(a, m, g),
        rewires(m, b, g),
{
    assert forall|i: int| 0 <= i < m.nands.len() implies (#[trigger] g.nands[i]).in1 == m.nands[i].in1
        && g.nands[i].in2 == m.nands[i].in2 by {
        assert(b.nands[i] == m.nands[i]);
    }
    assert forall|i: int| 0 <= i < m.outputs.len() implies (#[trigger] g.outputs[i]).out == m.outputs[i].out by {
        assert(b.outputs[i] == m.outputs[i]);
    }
    assert forall|i: int| 0 <= i < m.chip_inputs.len() implies #[trigger] g.chip_inputs[i] == m.chip_inputs[i] by {
        assert(b.chip_inputs[i] == m.chip_inputs[i]);
    }
    assert forall|i: int| 0 <= i < m.wrappers.len() implies #[trigger] g.wrappers[i] == m.wrappers[i] by {
        assert(b.wrappers[i] == m.wrappers[i]);
    }
    assert forall|i: int| a.users.len() <= i < m.users.len() implies #[trigger] g.users[i] == m.users[i] by {
        assert(b.users[i] == m.users[i]);
    }
}

pub proof fn lemma_grows_trans(a: Graph, b: Graph, c: Graph)
    requires
        a.grows_to(b),
        b.grows_to(c),
    ensures
        a.grows_to(c),
{
}

/// Wiring carries over along a chain of graphs with the same wiring.
pub proof fn lemma_wired_trans(a: Graph, b: Graph, c: Graph)
    requires
        wired_like(a, b),
        wired_like(b, c),
    ensures
        wired_like(a, c),
{
    assert forall|i: int| 0 <= i < a.nands.len() implies (#[trigger] c.nands[i]).in1 == a.nands[i].in1
        && c.nands[i].in2 == a.nands[i].in2 by {
        assert(b.nands[i].in1 == a.nands[i].in1);
    }
    assert forall|i: int| 0 <= i < a.outputs.len() implies (#[trigger] c.outputs[i]).out == a.outputs[i].out by {
        assert(b.outputs[i].out == a.outputs[i].out);
    }
}


proof fn lemma_grows_chain(ss: Seq<Graph>, i: int)
    requires
        0 <= i < ss.len(),
        forall|k: int| 0 <= k < ss.len() - 1 ==> (#[trigger] ss[k]).grows_to(ss[k + 1]),
    ensures
        ss[0].grows_to(ss[i]),
    decreases i,
{
    if i > 0 {
        lemma_grows_chain(ss, i - 1);
        assert(ss[i - 1].grows_to(ss[i]));
        lemma_grows_trans(ss[0], ss[i - 1], ss[i]);
    }
}

/// Each step of a construction, whose whole is rewired as `g`, sees `g` as
/// rewired too.
pub proof fn lemma_rewires_steps(ss: Seq<Graph>, g: Graph)
    requires
        ss.len() >= 1,
        forall|k: int| 0 <= k < ss.len() - 1 ==> (#[trigger] ss[k]).grows_to(ss[k + 1]),
        rewires(ss[0], ss[ss.len() - 1], g),
    ensures
        forall|k: int| 0 <= k < ss.len() - 1 ==> rewires(#[trigger] ss[k], ss[k + 1], g),
    decreases ss.len(),
{
    let n = ss.len();
    if n >= 2 {
        lemma_grows_chain(ss, n - 2);
        assert(ss[n - 2].grows_to(ss[n - 1]));
        lemma_rewires_split(ss[0], ss[n - 2], ss[n - 1], g);
        let pre = ss.drop_last();
        assert forall|k: int| 0 <= k < pre.len() - 1 implies (#[trigger] pre[k]).grows_to(pre[k + 1]) by {
            assert(pre[k] == ss[k] && pre[k + 1] == ss[k + 1]);
        }
        lemma_rewires_steps(pre, g);
        assert forall|k: int| 0 <= k < n - 1 implies rewires(#[trigger] ss[k], ss[k + 1], g) by {
            if k < n - 2 {
                assert(pre[k] == ss[k] && pre[k + 1] == ss[k + 1]);
            }
        }
    }
}


/// A graph built from `old` is itself a rewiring of that construction.
pub proof fn lemma_rewires_self(old: Graph, new: Graph)
    requires
        old.grows_to(new),
    ensures
        rewires(old, new, new),
{
}


/// `v` where `on` holds, all false otherwise, bit for bit.
pub open spec fn route(v: Seq<bool>, on: bool) -> Seq<bool> {
    Seq::new(v.len(), |i: int| v[i] && on)
}

/// The number that three selector bits stand for, most significant first.
pub open spec fn select3(s: Seq<bool>) -> int {
    (if s[0] { 4int } else { 0 }) + (if s[1] { 2int } else { 0 }) + (if s[2] { 1int } else { 0 })
}


proof fn lemma_not_low(v: Seq<bool>, k: nat)
    requires
        k <= v.len(),
    ensures
        low_value(not_bits(v), k) + low_value(v, k) == pow2(k) - 1,
    decreases k,
{
    if k > 0 {
        lemma_not_low(v, (k - 1) as nat);
        assert(not_bits(v)[v.len() - k] == !v[v.len() - k]);
    }
}

/// Bitwise negation is two to the width, less one, less the number.
pub proof fn lemma_not_value(v: Seq<bool>)
    ensures
        bits_value(not_bits(v)) as int == pow2(v.len()) - 1 - bits_value(v),
{
    lemma_not_low(v, v.len());
}

proof fn lemma_zero_low(x: Seq<bool>, k: nat)
    requires
        k <= x.len(),
    ensures
        low_value(zero_bits(x, true), k) == 0,
    decreases k,
{
    if k > 0 {
        lemma_zero_low(x, (k - 1) as nat);
    }
}

proof fn lemma_mod_cases(s: int, p: int)
    requires
        p > 0,
        0 <= s < 2 * p,
    ensures
        s % p == if s < p { s } else { s - p },
{
    if s < p {
        vstd::arithmetic::div_mod::lemma_fundamental_div_mod_converse(s, p, 0, s);
    } else {
        vstd::arithmetic::div_mod::lemma_fundamental_div_mod_converse(s, p, 1, s - p);
    }
}

/// The value of a ripple-carry sum of numbers `a` and `b`, below `p` each.
proof fn lemma_sum_value(a: Seq<bool>, b: Seq<bool>)
    requires
        a.len() == b.len(),
    ensures
        bits_value(ripple_bits(a, b)) as int == if bits_value(a) + bits_value(b) < pow2(a.len()) {
            (bits_value(a) + bits_value(b)) as int
        } else {
            bits_value(a) + bits_value(b) - pow2(a.len())
        },
{
    lemma_ripple_adds(a, b);
    lemma_low_value_bound(a, a.len());
    lemma_low_value_bound(b, b.len());
    lemma_mod_cases((bits_value(a) + bits_value(b)) as int, pow2(a.len()) as int);
}

/// The arithmetic rows of the ALU's opcode table (zx, nx, zy, ny, f, no), with
/// `x` and `y` read as 16-bit numbers and results taken modulo two to the 16:
/// 101010 is 0, 111111 is 1, 111010 is -1, 011111 is x+1, 110111 is y+1,
/// 001110 is x-1, 110010 is y-1, 010011 is x-y, 000111 is y-x, 001111 is -x
/// and 110011 is -y.
pub proof fn lemma_alu_arith(x: Seq<bool>, y: Seq<bool>)
    requires
        x.len() == 16,
        y.len() == 16,
    ensures
        ({
            let (t, f) = (true, false);
            let p = pow2(16) as int;
            let (vx, vy) = (bits_value(x) as int, bits_value(y) as int);
            &&& bits_value(alu_bits(x, y, t, f, t, f, t, f)) == 0
            &&& bits_value(alu_bits(x, y, t, t, t, t, t, t)) == 1
            &&& bits_value(alu_bits(x, y, t, t, t, f, t, f)) == p - 1
            &&& bits_value(alu_bits(x, y, f, t, t, t, t, t)) == (vx + 1) % p
            &&& bits_value(alu_bits(x, y, t, t, f, t, t, t)) == (vy + 1) % p
            &&& bits_value(alu_bits(x, y, f, f, t, t, t, f)) == (vx + p - 1) % p
            &&& bits_value(alu_bits(x, y, t, t, f, f, t, f)) == (vy + p - 1) % p
            &&& bits_value(alu_bits(x, y, f, t, f, f, t, t)) == (vx + p - vy) % p
            &&& bits_value(alu_bits(x, y, f, f, f, t, t, t)) == (vy + p - vx) % p
            &&& bits_value(alu_bits(x, y, f, f, t, t, t, t)) == (p - vx) % p
            &&& bits_value(alu_bits(x, y, t, t, f, f, t, t)) == (p - vy) % p
        }),
{
    let p = pow2(16) as int;
    let (vx, vy) = (bits_value(x) as int, bits_value(y) as int);
    lemma_low_value_bound(x, 16);
    lemma_low_value_bound(y, 16);
    assert(p >= 2) by {
        assert(pow2(0) == 1);
        assert(pow2(1) == 2);
        lemma_pow2_mono(1, 16);
    }
    let zx = zero_bits(x, true);
    let zy = zero_bits(y, true);
    lemma_zero_low(x, 16);
    lemma_zero_low(y, 16);
    assert(zero_bits(x, false) =~= x);
    assert(zero_bits(y, false) =~= y);
    let ox = not_bits(zx);
    let oy = not_bits(zy);
    lemma_not_value(zx);
    lemma_not_value(zy);
    lemma_not_value(x);
    lemma_not_value(y);
    let nx = not_bits(x);
    let ny = not_bits(y);
    // every operand the table uses, as a number
    assert(bits_value(zx) == 0 && bits_value(zy) == 0);
    assert(bits_value(ox) == p - 1 && bits_value(oy) == p - 1);
    assert(bits_value(nx) == p - 1 - vx && bits_value(ny) == p - 1 - vy);
    // 0 = 0 + 0
    lemma_sum_value(zx, zy);
    // 1 = !(-1 + -1)
    lemma_sum_value(ox, oy);
    lemma_not_value(ripple_bits(ox, oy));
    // -1 = -1 + 0
    lemma_sum_value(ox, zy);
    // x+1 = !(!x + -1)
    lemma_sum_value(nx, oy);
    lemma_not_value(ripple_bits(nx, oy));
    lemma_mod_cases(vx + 1, p);
    // y+1 = !(-1 + !y)
    lemma_sum_value(ox, ny);
    lemma_not_value(ripple_bits(ox, ny));
    lemma_mod_cases(vy + 1, p);
    // x-1 = x + -1
    lemma_sum_value(x, oy);
    lemma_mod_cases(vx + p - 1, p);
    // y-1 = -1 + y
    lemma_sum_value(ox, y);
    lemma_mod_cases(vy + p - 1, p);
    // x-y = !(!x + y)
    lemma_sum_value(nx, y);
    lemma_not_value(ripple_bits(nx, y));
    lemma_mod_cases(vx + p - vy, p);
    // y-x = !(x + !y)
    lemma_sum_value(x, ny);
    lemma_not_value(ripple_bits(x, ny));
    lemma_mod_cases(vy + p - vx, p);
    // -x = !(x + -1)
    lemma_sum_value(x, oy);
    lemma_not_value(ripple_bits(x, oy));
    lemma_mod_cases(p - vx, p);
    // -y = !(-1 + y)
    lemma_sum_value(ox, y);
    lemma_not_value(ripple_bits(ox, y));
    lemma_mod_cases(p - vy, p);
    assert(ripple_bits(ox, oy).len() == 16);
}

proof fn lemma_pow2_mono(a: nat, b: nat)
    requires
        a <= b,
    ensures
        pow2(a) <= pow2(b),
    decreases b,
{
    if a < b {
        lemma_pow2_mono(a, (b - 1) as nat);
    }
}


/// A gate not yet evaluated at `tick`, whose two inputs have logical values
/// `a` and `b` (no feedback reaches them), evaluates to `!(a && b)`, and is
/// left stamped with `tick` and holding that value.
pub proof fn lemma_nand_eval(g: Graph, n: usize, i1: Input, i2: Input, a: bool, b: bool, tick: u64)
    requires
        g.wf(),
        g.complete(),
        n < g.nands.len(),
        g.nands[n as int].in1 == Some(i1),
        g.nands[n as int].in2 == Some(i2),
        unvisited(g, tick),
        value_is(g, i1, a),
        value_is(g, i2, b),
    ensures
        ({
            let (g1, v) = eval(g, Input::NandInput(n), tick);
            &&& v == !(a && b)
            &&& g1.nands[n as int].iteration == tick
            &&& g1.nands[n as int].value == v
        }),
{
    lemma_value_nand(g, n, i1, i2, a, b);
    lemma_value_eval(g, Input::NandInput(n), tick, !(a && b));
    crate::eval::lemma_computed_once(g, n, tick);
}

} // verus!
