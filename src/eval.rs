//! Memoized, cycle-safe evaluation of a circuit at one tick.
//!
//! Each gate and each chip output caches the tick it was last stamped with and
//! the value it last computed. A node is stamped before its own inputs are
//! evaluated, so a feedback loop that reaches the node again within the same
//! tick reads the value left over from the previous tick instead of recursing.
use vstd::prelude::*;
use crate::graph::{ChipInput, ChipOutput, ChipOutputWrapper, Circuit, Graph, Input, Nand};

verus! {

/// How many of the stamps differ from `tick`.
pub open spec fn stale(s: Seq<u64>, tick: u64) -> nat
    decreases s.len(),
{
    if s.len() == 0 {
        0
    } else {
        stale(s.drop_last(), tick) + if s.last() != tick { 1nat } else { 0nat }
    }
}

pub open spec fn nand_stamps(g: Graph) -> Seq<u64> {
    g.nands.map_values(|n: Nand| n.iteration)
}

pub open spec fn output_stamps(g: Graph) -> Seq<u64> {
    g.outputs.map_values(|o: ChipOutput| o.iteration)
}

/// The memoized nodes not yet stamped with `tick`.
pub open spec fn unstamped(g: Graph, tick: u64) -> nat {
    stale(nand_stamps(g), tick) + stale(output_stamps(g), tick)
}

/// Forwarding depth of a wire: a chip input may forward to earlier chip inputs.
pub open spec fn rank(x: Input) -> nat {
    match x {
        Input::UserInput(_) => 0,
        Input::NandInput(_) => 1,
        Input::ChipOutput(_) => 1,
        Input::ChipInput(i) => i as nat + 2,
    }
}

/// A bound on the depth of the evaluation of `x` at `tick`.
pub open spec fn potential(g: Graph, x: Input, tick: u64) -> nat {
    (g.chip_inputs.len() + 2) * unstamped(g, tick) + rank(x)
}

/// The graph and the value after evaluating `x` at `tick`, following the
/// memoization protocol, with a depth budget of `fuel` calls.
pub open spec fn eval_fuel(g: Graph, x: Input, tick: u64, fuel: nat) -> (Graph, bool)
    decreases fuel,
{
    if fuel == 0 {
        (g, false)
    } else {
        match x {
            Input::UserInput(i) => (g, g.users[i as int]),
            Input::ChipInput(i) => eval_fuel(g, g.chip_inputs[i as int], tick, (fuel - 1) as nat),
            Input::NandInput(n) => {
                let node = g.nands[n as int];
                if node.iteration == tick {
                    (g, node.value)
                } else {
                    let g1 = Graph {
                        nands: g.nands.update(n as int, Nand { iteration: tick, ..node }),
                        ..g
                    };
                    let (g2, a) = eval_fuel(g1, node.in1.unwrap(), tick, (fuel - 1) as nat);
                    let (g3, b) = eval_fuel(g2, node.in2.unwrap(), tick, (fuel - 1) as nat);
                    let v = !(a && b);
                    (Graph { nands: g3.nands.update(n as int, Nand { value: v, ..g3.nands[n as int] }), ..g3 }, v)
                }
            },
            Input::ChipOutput(w) => {
                let o = g.wrappers[w as int];
                let node = g.outputs[o as int];
                if node.iteration == tick {
                    (g, node.value)
                } else {
                    let g1 = Graph {
                        outputs: g.outputs.update(o as int, ChipOutput { iteration: tick, ..node }),
                        ..g
                    };
                    let (g2, v) = eval_fuel(g1, node.out.unwrap().spec_as_input(), tick, (fuel - 1) as nat);
                    (Graph { outputs: g2.outputs.update(o as int, ChipOutput { value: v, ..g2.outputs[o as int] }), ..g2 }, v)
                }
            },
        }
    }
}

/// The graph and the value after evaluating `x` at `tick`.
pub open spec fn eval(g: Graph, x: Input, tick: u64) -> (Graph, bool) {
    eval_fuel(g, x, tick, potential(g, x, tick) + 1)
}

/// `b` differs from `a` only in caches, and every node stamped with `tick` in
/// `a` still is in `b`.
pub open spec fn settles(a: Graph, b: Graph, tick: u64) -> bool {
    &&& b.users == a.users
    &&& b.chip_inputs == a.chip_inputs
    &&& b.wrappers == a.wrappers
    &&& b.nands.len() == a.nands.len()
    &&& b.outputs.len() == a.outputs.len()
    &&& forall|i: int|
        0 <= i < a.nands.len() ==> {
            &&& (#[trigger] b.nands[i]).in1 == a.nands[i].in1
            &&& b.nands[i].in2 == a.nands[i].in2
            &&& b.nands[i].identifier == a.nands[i].identifier
            &&& (a.nands[i].iteration == tick ==> b.nands[i].iteration == tick)
            &&& (b.nands[i].iteration == a.nands[i].iteration || b.nands[i].iteration == tick)
        }
    &&& forall|i: int|
        0 <= i < a.outputs.len() ==> {
            &&& (#[trigger] b.outputs[i]).out == a.outputs[i].out
            &&& b.outputs[i].id == a.outputs[i].id
            &&& (a.outputs[i].iteration == tick ==> b.outputs[i].iteration == tick)
            &&& (b.outputs[i].iteration == a.outputs[i].iteration || b.outputs[i].iteration == tick)
        }
}

pub proof fn lemma_stale_update(s: Seq<u64>, i: int, tick: u64)
    requires
        0 <= i < s.len(),
        s[i] != tick,
    ensures
        stale(s.update(i, tick), tick) + 1 == stale(s, tick),
    decreases s.len(),
{
    let t = s.update(i, tick);
    if i == s.len() - 1 {
        assert(t.drop_last() =~= s.drop_last());
    } else {
        assert(t.drop_last() =~= s.drop_last().update(i, tick));
        lemma_stale_update(s.drop_last(), i, tick);
    }
}

proof fn lemma_stale_mono(a: Seq<u64>, b: Seq<u64>, tick: u64)
    requires
        a.len() == b.len(),
        forall|i: int| 0 <= i < a.len() && a[i] == tick ==> b[i] == tick,
    ensures
        stale(b, tick) <= stale(a, tick),
    decreases a.len(),
{
    if a.len() > 0 {
        lemma_stale_mono(a.drop_last(), b.drop_last(), tick);
    }
}

/// Settling never adds unstamped nodes.
pub proof fn lemma_settles_unstamped(a: Graph, b: Graph, tick: u64)
    requires
        settles(a, b, tick),
    ensures
        unstamped(b, tick) <= unstamped(a, tick),
{
    let (na, nb) = (nand_stamps(a), nand_stamps(b));
    assert forall|i: int| 0 <= i < na.len() && na[i] == tick implies nb[i] == tick by {
        assert(b.nands[i].iteration == tick);
    }
    lemma_stale_mono(na, nb, tick);
    let (oa, ob) = (output_stamps(a), output_stamps(b));
    assert forall|i: int| 0 <= i < oa.len() && oa[i] == tick implies ob[i] == tick by {
        assert(b.outputs[i].iteration == tick);
    }
    lemma_stale_mono(oa, ob, tick);
}

/// Settling keeps the graph well formed and complete.
pub proof fn lemma_settles_wf(a: Graph, b: Graph, tick: u64)
    requires
        settles(a, b, tick),
        a.wf(),
    ensures
        b.wf(),
        a.complete() ==> b.complete(),
{
    assert forall|x: Input| a.valid_input(x) implies b.valid_input(x) by {}
    assert forall|i: int| 0 <= i < b.nands.len() implies b.valid_opt(#[trigger] b.nands[i].in1)
        && b.valid_opt(b.nands[i].in2) by {
        assert(a.valid_opt(a.nands[i].in1));
    }
    assert forall|i: int| 0 <= i < b.outputs.len() implies b.valid_source(#[trigger] b.outputs[i].out) by {
        assert(a.valid_source(a.outputs[i].out));
    }
    if a.complete() {
        assert forall|i: int| 0 <= i < b.nands.len() implies (#[trigger] b.nands[i]).in1 is Some
            && b.nands[i].in2 is Some by {
            assert(a.nands[i].in1 is Some);
        }
        assert forall|i: int| 0 <= i < b.outputs.len() implies (#[trigger] b.outputs[i]).out is Some by {
            assert(a.outputs[i].out is Some);
        }
    }
}

pub proof fn lemma_settles_trans(a: Graph, b: Graph, c: Graph, tick: u64)
    requires
        settles(a, b, tick),
        settles(b, c, tick),
    ensures
        settles(a, c, tick),
{
    assert forall|i: int| 0 <= i < a.nands.len() implies (#[trigger] c.nands[i]).in1 == a.nands[i].in1 by {
        assert(b.nands[i].in1 == a.nands[i].in1);
    }
    assert forall|i: int| 0 <= i < a.outputs.len() implies (#[trigger] c.outputs[i]).out == a.outputs[i].out by {
        assert(b.outputs[i].out == a.outputs[i].out);
    }
}


pub proof fn lemma_budget(k: nat, u1: nat, u2: nat, fuel: nat, r1: nat, r2: nat)
    requires
        u1 >= 1,
        u2 <= u1 - 1,
        r2 < k,
        fuel > k * u1 + r1,
    ensures
        (fuel - 1) as nat > k * u2 + r2,
{
    assert(k * u2 <= k * ((u1 - 1) as nat)) by (nonlinear_arith)
        requires
            u2 <= u1 - 1,
    ;
    assert(k * ((u1 - 1) as nat) + k == k * u1) by (nonlinear_arith)
        requires
            u1 >= 1,
    ;
}

/// The ids and the arena invariant carry over to a circuit whose graph settled.
pub proof fn lemma_settles_inv(a: &Circuit, b: &Circuit, tick: u64)
    requires
        a.inv(),
        settles(a@, b@, tick),
        b.user_inputs@ == a.user_inputs@,
        b.chip_inputs@ == a.chip_inputs@,
        b.wrappers@ == a.wrappers@,
        b.chips@ == a.chips@,
        b.nands@ == b@.nands,
    ensures
        b.inv(),
        a@.complete() ==> b@.complete(),
{
    lemma_settles_wf(a@, b@, tick);
    assert forall|i: int| 0 <= i < b.nands.len() implies (#[trigger] b.nands@[i]).identifier == i by {
        assert(b@.nands[i].identifier == a@.nands[i].identifier);
        assert(a.nands@[i].identifier == i);
    }
    assert forall|i: int| 0 <= i < b.chip_outputs.len() implies (#[trigger] b.chip_outputs@[i]).id == i by {
        assert(b@.outputs[i].id == a@.outputs[i].id);
        assert(a.chip_outputs@[i].id == i);
    }
}


/// Evaluation only settles caches: the wiring stays, and stamps only move to
/// `tick`.
pub proof fn lemma_eval_settles(g: Graph, x: Input, tick: u64, fuel: nat)
    requires
        g.wf(),
        g.complete(),
        g.valid_input(x),
    ensures
        settles(g, eval_fuel(g, x, tick, fuel).0, tick),
    decreases fuel,
{
    if fuel > 0 {
        match x {
            Input::UserInput(_) => {},
            Input::ChipInput(i) => {
                assert(g.valid_input(g.chip_inputs[i as int]));
                lemma_eval_settles(g, g.chip_inputs[i as int], tick, (fuel - 1) as nat);
            },
            Input::NandInput(n) => {
                let node = g.nands[n as int];
                if node.iteration != tick {
                    let g1 = Graph { nands: g.nands.update(n as int, Nand { iteration: tick, ..node }), ..g };
                    assert(settles(g, g1, tick));
                    lemma_settles_wf(g, g1, tick);
                    assert(g.valid_opt(node.in1) && g.valid_opt(node.in2));
                    lemma_eval_settles(g1, node.in1.unwrap(), tick, (fuel - 1) as nat);
                    let g2 = eval_fuel(g1, node.in1.unwrap(), tick, (fuel - 1) as nat).0;
                    lemma_settles_wf(g1, g2, tick);
                    lemma_eval_settles(g2, node.in2.unwrap(), tick, (fuel - 1) as nat);
                    let (g3, b) = eval_fuel(g2, node.in2.unwrap(), tick, (fuel - 1) as nat);
                    let a = eval_fuel(g1, node.in1.unwrap(), tick, (fuel - 1) as nat).1;
                    let g4 = Graph { nands: g3.nands.update(n as int, Nand { value: !(a && b), ..g3.nands[n as int] }), ..g3 };
                    assert(settles(g3, g4, tick));
                    lemma_settles_trans(g, g1, g2, tick);
                    lemma_settles_trans(g, g2, g3, tick);
                    lemma_settles_trans(g, g3, g4, tick);
                }
            },
            Input::ChipOutput(w) => {
                let o = g.wrappers[w as int];
                let node = g.outputs[o as int];
                if node.iteration != tick {
                    let g1 = Graph { outputs: g.outputs.update(o as int, ChipOutput { iteration: tick, ..node }), ..g };
                    assert(settles(g, g1, tick));
                    lemma_settles_wf(g, g1, tick);
                    assert(g.valid_source(node.out));
                    let src = node.out.unwrap().spec_as_input();
                    lemma_eval_settles(g1, src, tick, (fuel - 1) as nat);
                    let (g2, v) = eval_fuel(g1, src, tick, (fuel - 1) as nat);
                    let g3 = Graph { outputs: g2.outputs.update(o as int, ChipOutput { value: v, ..g2.outputs[o as int] }), ..g2 };
                    assert(settles(g2, g3, tick));
                    lemma_settles_trans(g, g1, g2, tick);
                    lemma_settles_trans(g, g2, g3, tick);
                }
            },
        }
    }
}

/// A gate already stamped with `tick` answers from its cache and changes nothing.
pub proof fn lemma_memo_hit(g: Graph, n: usize, tick: u64, fuel: nat)
    requires
        fuel > 0,
        g.nands[n as int].iteration == tick,
    ensures
        eval_fuel(g, Input::NandInput(n), tick, fuel) == (g, g.nands[n as int].value),
{
}

/// Within one tick a gate is computed at most once: once evaluated it is
/// stamped with the tick and holds its value, so evaluating it again, directly
/// or through another reader, returns that value and changes nothing.
pub proof fn lemma_computed_once(g: Graph, n: usize, tick: u64)
    requires
        g.wf(),
        g.complete(),
        n < g.nands.len(),
    ensures
        ({
            let (g1, v) = eval(g, Input::NandInput(n), tick);
            &&& g1.nands[n as int].iteration == tick
            &&& g1.nands[n as int].value == v
            &&& eval(g1, Input::NandInput(n), tick) == (g1, v)
        }),
{
    let x = Input::NandInput(n);
    let fuel = potential(g, x, tick) + 1;
    let node = g.nands[n as int];
    if node.iteration != tick {
        let g1 = Graph { nands: g.nands.update(n as int, Nand { iteration: tick, ..node }), ..g };
        assert(settles(g, g1, tick));
        lemma_settles_wf(g, g1, tick);
        assert(g.valid_opt(node.in1) && g.valid_opt(node.in2));
        let f = (fuel - 1) as nat;
        lemma_eval_settles(g1, node.in1.unwrap(), tick, f);
        let (g2, a) = eval_fuel(g1, node.in1.unwrap(), tick, f);
        lemma_settles_wf(g1, g2, tick);
        lemma_eval_settles(g2, node.in2.unwrap(), tick, f);
        let g3 = eval_fuel(g2, node.in2.unwrap(), tick, f).0;
        assert(g1.nands[n as int].iteration == tick);
        assert(g2.nands[n as int].iteration == tick);
        assert(g3.nands[n as int].iteration == tick);
    }
    let (g1, v) = eval(g, x, tick);
    lemma_memo_hit(g1, n, tick, potential(g1, x, tick) + 1);
}

/// A NAND gate reading two input cells, not yet stamped at `tick`, computes
/// the NAND of their values.
pub proof fn lemma_nand_truth(g: Graph, n: usize, i: usize, j: usize, tick: u64)
    requires
        n < g.nands.len(),
        i < g.users.len(),
        j < g.users.len(),
        g.nands[n as int].in1 == Some(Input::UserInput(i)),
        g.nands[n as int].in2 == Some(Input::UserInput(j)),
        g.nands[n as int].iteration != tick,
    ensures
        eval(g, Input::NandInput(n), tick).1 == !(g.users[i as int] && g.users[j as int]),
{
    let fuel = potential(g, Input::NandInput(n), tick) + 1;
    assert(fuel >= 2) by {
        let (na, oa) = (nand_stamps(g), output_stamps(g));
        lemma_stale_update(na, n as int, tick);
        assert(nand_stamps(g)[n as int] != tick);
        assert(unstamped(g, tick) >= 1);
        assert((g.chip_inputs.len() + 2) * unstamped(g, tick) >= 1) by (nonlinear_arith)
            requires
                unstamped(g, tick) >= 1,
        ;
    }
    let node = g.nands[n as int];
    let g1 = Graph { nands: g.nands.update(n as int, Nand { iteration: tick, ..node }), ..g };
    let f = (fuel - 1) as nat;
    assert(eval_fuel(g1, Input::UserInput(i), tick, f) == (g1, g.users[i as int]));
    assert(eval_fuel(g1, Input::UserInput(j), tick, f) == (g1, g.users[j as int]));
}

/// Two cross-coupled NAND gates `q` and `nq`, fed by the input cells `s` and
/// `r` (active low), settle in one evaluation: a low `s` sets `q`, a low `r`
/// alone resets it, and with both high `q` keeps the value it held.
pub proof fn lemma_latch_settles(g: Graph, q: usize, nq: usize, s: usize, r: usize, tick: u64)
    requires
        q < g.nands.len(),
        nq < g.nands.len(),
        q != nq,
        s < g.users.len(),
        r < g.users.len(),
        g.nands[q as int].in1 == Some(Input::UserInput(s)),
        g.nands[q as int].in2 == Some(Input::NandInput(nq)),
        g.nands[nq as int].in1 == Some(Input::UserInput(r)),
        g.nands[nq as int].in2 == Some(Input::NandInput(q)),
        g.nands[q as int].iteration != tick,
        g.nands[nq as int].iteration != tick,
    ensures
        ({
            let v = eval(g, Input::NandInput(q), tick).1;
            &&& !g.users[s as int] ==> v
            &&& g.users[s as int] && !g.users[r as int] ==> !v
            &&& g.users[s as int] && g.users[r as int] ==> v == g.nands[q as int].value
        }),
{
    let x = Input::NandInput(q);
    let fuel = potential(g, x, tick) + 1;
    let ns = nand_stamps(g);
    lemma_stale_update(ns, q as int, tick);
    let ns1 = ns.update(q as int, tick);
    lemma_stale_update(ns1, nq as int, tick);
    assert(unstamped(g, tick) >= 2);
    assert((g.chip_inputs.len() + 2) * unstamped(g, tick) >= 4) by (nonlinear_arith)
        requires
            unstamped(g, tick) >= 2,
    ;
    let f1 = (fuel - 1) as nat;
    let f2 = (f1 - 1) as nat;
    let nodeq = g.nands[q as int];
    let g1 = Graph { nands: g.nands.update(q as int, Nand { iteration: tick, ..nodeq }), ..g };
    assert(eval_fuel(g1, Input::UserInput(s), tick, f1) == (g1, g.users[s as int]));
    let nodenq = g1.nands[nq as int];
    let h1 = Graph { nands: g1.nands.update(nq as int, Nand { iteration: tick, ..nodenq }), ..g1 };
    assert(eval_fuel(h1, Input::UserInput(r), tick, f2) == (h1, g.users[r as int]));
    assert(h1.nands[q as int].iteration == tick);
    assert(eval_fuel(h1, Input::NandInput(q), tick, f2) == (h1, g.nands[q as int].value));
    let b = !(g.users[r as int] && g.nands[q as int].value);
    assert(eval_fuel(g1, Input::NandInput(nq), tick, f1).1 == b);
    assert(eval_fuel(g, x, tick, fuel).1 == !(g.users[s as int] && b));
}

impl Circuit {
    /// Evaluates the wire `x` at `tick`, following the memoization protocol.
    pub fn evaluate(&mut self, x: Input, tick: u64) -> (r: bool)
        requires
            old(self).inv(),
            old(self)@.complete(),
            old(self)@.valid_input(x),
        ensures
            (final(self)@, r) == eval(old(self)@, x, tick),
            settles(old(self)@, final(self)@, tick),
            final(self).inv(),
            final(self)@.complete(),
            final(self).user_inputs@ == old(self).user_inputs@,
            final(self).chip_inputs@ == old(self).chip_inputs@,
            final(self).wrappers@ == old(self).wrappers@,
            final(self).chips@ == old(self).chips@,
    {
        Input::process(x, self, tick, Ghost(potential(self@, x, tick) + 1))
    }
}

impl Input {
    /// Evaluates the wire `x` at `tick`.
    pub fn process(x: Input, alloc: &mut Circuit, tick: u64, Ghost(fuel): Ghost<nat>) -> (r: bool)
        requires
            old(alloc).inv(),
            old(alloc)@.complete(),
            old(alloc)@.valid_input(x),
            fuel > potential(old(alloc)@, x, tick),
        ensures
            (final(alloc)@, r) == eval_fuel(old(alloc)@, x, tick, fuel),
            settles(old(alloc)@, final(alloc)@, tick),
            final(alloc).inv(),
            final(alloc)@.complete(),
            final(alloc).user_inputs@ == old(alloc).user_inputs@,
            final(alloc).chip_inputs@ == old(alloc).chip_inputs@,
            final(alloc).wrappers@ == old(alloc).wrappers@,
            final(alloc).chips@ == old(alloc).chips@,
        decreases fuel, 2nat,
    {
        match x {
            Input::UserInput(i) => {
                proof {
                    lemma_settles_inv(old(alloc), alloc, tick);
                }
                alloc.user_inputs[i].value
            },
            Input::ChipOutput(w) => ChipOutputWrapper::process(w, alloc, tick, Ghost(fuel)),
            Input::ChipInput(i) => ChipInput::process(i, alloc, tick, Ghost(fuel)),
            Input::NandInput(n) => Nand::process(n, alloc, tick, Ghost(fuel)),
        }
    }
}

impl ChipInput {
    /// Evaluates chip input `i` at `tick`: the value of its source.
    fn process(i: usize, alloc: &mut Circuit, tick: u64, Ghost(fuel): Ghost<nat>) -> (r: bool)
        requires
            old(alloc).inv(),
            old(alloc)@.complete(),
            i < old(alloc)@.chip_inputs.len(),
            fuel > potential(old(alloc)@, Input::ChipInput(i), tick),
        ensures
            (final(alloc)@, r) == eval_fuel(old(alloc)@, Input::ChipInput(i), tick, fuel),
            settles(old(alloc)@, final(alloc)@, tick),
            final(alloc).inv(),
            final(alloc)@.complete(),
            final(alloc).user_inputs@ == old(alloc).user_inputs@,
            final(alloc).chip_inputs@ == old(alloc).chip_inputs@,
            final(alloc).wrappers@ == old(alloc).wrappers@,
            final(alloc).chips@ == old(alloc).chips@,
        decreases fuel, 0nat,
    {
        let src = alloc.chip_inputs[i].in_;
        proof {
            let g = alloc@;
            assert(g.chip_inputs[i as int] == src);
            assert(g.valid_input(g.chip_inputs[i as int]));
        }
        Input::process(src, alloc, tick, Ghost((fuel - 1) as nat))
    }
}

impl ChipOutputWrapper {
    /// Evaluates the output behind wrapper `w` at `tick`.
    fn process(w: usize, alloc: &mut Circuit, tick: u64, Ghost(fuel): Ghost<nat>) -> (r: bool)
        requires
            old(alloc).inv(),
            old(alloc)@.complete(),
            w < old(alloc)@.wrappers.len(),
            fuel > potential(old(alloc)@, Input::ChipOutput(w), tick),
        ensures
            (final(alloc)@, r) == eval_fuel(old(alloc)@, Input::ChipOutput(w), tick, fuel),
            settles(old(alloc)@, final(alloc)@, tick),
            final(alloc).inv(),
            final(alloc)@.complete(),
            final(alloc).user_inputs@ == old(alloc).user_inputs@,
            final(alloc).chip_inputs@ == old(alloc).chip_inputs@,
            final(alloc).wrappers@ == old(alloc).wrappers@,
            final(alloc).chips@ == old(alloc).chips@,
        decreases fuel, 1nat,
    {
        let o = alloc.wrappers[w].inner;
        proof {
            let g = alloc@;
            assert(g.wrappers[w as int] == o);
        }
        ChipOutput::process(o, alloc, tick, Ghost(fuel))
    }
}

impl ChipOutput {
    /// Evaluates output `o` at `tick`, at most once per tick.
    fn process(o: usize, alloc: &mut Circuit, tick: u64, Ghost(fuel): Ghost<nat>) -> (r: bool)
        requires
            old(alloc).inv(),
            old(alloc)@.complete(),
            o < old(alloc)@.outputs.len(),
            fuel > (old(alloc)@.chip_inputs.len() + 2) * unstamped(old(alloc)@, tick) + 1,
        ensures
            ({
                let g = old(alloc)@;
                let node = g.outputs[o as int];
                &&& node.iteration == tick ==> final(alloc)@ == g && r == node.value
                &&& node.iteration != tick ==> {
                    let g1 = Graph { outputs: g.outputs.update(o as int, ChipOutput { iteration: tick, ..node }), ..g };
                    let (g2, v) = eval_fuel(g1, node.out.unwrap().spec_as_input(), tick, (fuel - 1) as nat);
                    &&& r == v
                    &&& final(alloc)@ == Graph { outputs: g2.outputs.update(o as int, ChipOutput { value: v, ..g2.outputs[o as int] }), ..g2 }
                }
            }),
            settles(old(alloc)@, final(alloc)@, tick),
            final(alloc).inv(),
            final(alloc)@.complete(),
            final(alloc).user_inputs@ == old(alloc).user_inputs@,
            final(alloc).chip_inputs@ == old(alloc).chip_inputs@,
            final(alloc).wrappers@ == old(alloc).wrappers@,
            final(alloc).chips@ == old(alloc).chips@,
        decreases fuel, 0nat,
    {
        let node = alloc.chip_outputs[o];
        if node.iteration == tick {
            proof {
                lemma_settles_inv(old(alloc), alloc, tick);
            }
            return node.value;
        }
        let ghost g = alloc@;
        let mut stamped = node;
        stamped.iteration = tick;
        alloc.chip_outputs.set(o, stamped);
        let ghost g1 = alloc@;
        proof {
            assert(g1.outputs =~= g.outputs.update(o as int, stamped));
            assert(output_stamps(g1) =~= output_stamps(g).update(o as int, tick));
            assert(nand_stamps(g1) =~= nand_stamps(g));
            lemma_stale_update(output_stamps(g), o as int, tick);
            assert(settles(g, g1, tick));
            lemma_settles_inv(old(alloc), alloc, tick);
            let src = node.out.unwrap().spec_as_input();
            assert(g.valid_source(g.outputs[o as int].out));
            lemma_budget((g.chip_inputs.len() + 2) as nat, unstamped(g, tick), unstamped(g1, tick), fuel, 1, rank(src));
        }
        let src = node.out.unwrap().as_input();
        let v = Input::process(src, alloc, tick, Ghost((fuel - 1) as nat));
        let ghost g2 = alloc@;
        let mut done = alloc.chip_outputs[o];
        done.value = v;
        alloc.chip_outputs.set(o, done);
        proof {
            assert(alloc@.outputs =~= g2.outputs.update(o as int, done));
            assert(alloc@ == Graph { outputs: g2.outputs.update(o as int, ChipOutput { value: v, ..g2.outputs[o as int] }), ..g2 });
            lemma_settles_trans(g, g1, g2, tick);
            lemma_settles_trans(g, g2, alloc@, tick);
            lemma_settles_inv(old(alloc), alloc, tick);
        }
        v
    }
}

impl Nand {
    /// Evaluates gate `n` at `tick`, at most once per tick.
    fn process(n: usize, alloc: &mut Circuit, tick: u64, Ghost(fuel): Ghost<nat>) -> (r: bool)
        requires
            old(alloc).inv(),
            old(alloc)@.complete(),
            n < old(alloc)@.nands.len(),
            fuel > potential(old(alloc)@, Input::NandInput(n), tick),
        ensures
            (final(alloc)@, r) == eval_fuel(old(alloc)@, Input::NandInput(n), tick, fuel),
            settles(old(alloc)@, final(alloc)@, tick),
            final(alloc).inv(),
            final(alloc)@.complete(),
            final(alloc).user_inputs@ == old(alloc).user_inputs@,
            final(alloc).chip_inputs@ == old(alloc).chip_inputs@,
            final(alloc).wrappers@ == old(alloc).wrappers@,
            final(alloc).chips@ == old(alloc).chips@,
        decreases fuel, 0nat,
    {
        let node = alloc.nands[n];
        if node.iteration == tick {
            proof {
                lemma_settles_inv(old(alloc), alloc, tick);
            }
            return node.value;
        }
        let ghost g = alloc@;
        let mut stamped = node;
        stamped.iteration = tick;
        alloc.nands.set(n, stamped);
        let ghost g1 = alloc@;
        proof {
            assert(g1.nands =~= g.nands.update(n as int, stamped));
            assert(nand_stamps(g1) =~= nand_stamps(g).update(n as int, tick));
            assert(output_stamps(g1) =~= output_stamps(g));
            lemma_stale_update(nand_stamps(g), n as int, tick);
            assert(settles(g, g1, tick));
            lemma_settles_inv(old(alloc), alloc, tick);
            assert(g.valid_opt(g.nands[n as int].in1));
            lemma_budget((g.chip_inputs.len() + 2) as nat, unstamped(g, tick), unstamped(g1, tick), fuel, 1, rank(node.in1.unwrap()));
        }
        let a = Input::process(node.in1.unwrap(), alloc, tick, Ghost((fuel - 1) as nat));
        let ghost g2 = alloc@;
        proof {
            lemma_settles_unstamped(g1, g2, tick);
            assert(g.valid_opt(g.nands[n as int].in2));
            lemma_budget((g.chip_inputs.len() + 2) as nat, unstamped(g, tick), unstamped(g2, tick), fuel, 1, rank(node.in2.unwrap()));
        }
        let b = Input::process(node.in2.unwrap(), alloc, tick, Ghost((fuel - 1) as nat));
        let ghost g3 = alloc@;
        let v = !(a && b);
        let mut done = alloc.nands[n];
        done.value = v;
        alloc.nands.set(n, done);
        proof {
            assert(alloc@.nands =~= g3.nands.update(n as int, done));
            lemma_settles_trans(g, g1, g2, tick);
            lemma_settles_trans(g, g2, g3, tick);
            lemma_settles_trans(g, g3, alloc@, tick);
            lemma_settles_inv(old(alloc), alloc, tick);
        }
        v
    }
}

} // verus!
