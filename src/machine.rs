//! The top-level driver: external inputs, captured outputs, and the tick.
use vstd::prelude::*;
use crate::eval::{eval, lemma_settles_trans, settles};
use crate::graph::{unstamp, Circuit, Graph, Input, UserInput};
use crate::logic::{comb, defined, lemma_eval_all_logic, value_is, wired_like};

verus! {

/// One captured output of the top-level chip, with its display identifier.
pub struct Output {
    pub output: usize,
    pub identifier: usize,
}

impl Output {
    /// Captures wrapper `output` under an identifier that no output of
    /// `earlier` carries: one past the largest of theirs.
    pub fn new(output: usize, earlier: &Vec<Output>) -> (r: Output)
        requires
            forall|j: int| 0 <= j < earlier.len() ==> (#[trigger] earlier@[j]).identifier < usize::MAX,
        ensures
            r.output == output,
            forall|j: int| 0 <= j < earlier.len() ==> (#[trigger] earlier@[j]).identifier != r.identifier,
            (forall|j: int| 0 <= j < earlier.len() ==> (#[trigger] earlier@[j]).identifier == j) ==> r.identifier
                == earlier.len(),
    {
        let mut next: usize = 0;
        let mut k: usize = 0;
        while k < earlier.len()
            invariant
                k <= earlier.len(),
                forall|j: int| 0 <= j < earlier.len() ==> (#[trigger] earlier@[j]).identifier < usize::MAX,
                forall|j: int| 0 <= j < k ==> (#[trigger] earlier@[j]).identifier < next,
                (forall|j: int| 0 <= j < earlier.len() ==> (#[trigger] earlier@[j]).identifier == j) ==> next == k,
            decreases earlier.len() - k,
        {
            if earlier[k].identifier >= next {
                next = earlier[k].identifier + 1;
            }
            k = k + 1;
        }
        Output { output, identifier: next }
    }
}

/// The input cells after writing `vals[k]` into cell `idx[k]`, in order.
pub open spec fn assign(users: Seq<bool>, idx: Seq<usize>, vals: Seq<bool>) -> Seq<bool>
    decreases idx.len(),
{
    if idx.len() == 0 || vals.len() == 0 {
        users
    } else {
        assign(users, idx.drop_last(), vals.drop_last()).update(idx.last() as int, vals.last())
    }
}

proof fn lemma_assign_len(users: Seq<bool>, idx: Seq<usize>, vals: Seq<bool>)
    requires
        forall|k: int| 0 <= k < idx.len() ==> #[trigger] idx[k] < users.len(),
    ensures
        assign(users, idx, vals).len() == users.len(),
    decreases idx.len(),
{
    if idx.len() > 0 && vals.len() > 0 {
        assert forall|k: int| 0 <= k < idx.len() - 1 implies #[trigger] idx.drop_last()[k] < users.len() by {
            assert(idx.drop_last()[k] == idx[k]);
        }
        lemma_assign_len(users, idx.drop_last(), vals.drop_last());
        let inner = assign(users, idx.drop_last(), vals.drop_last());
        assert(assign(users, idx, vals) == inner.update(idx.last() as int, vals.last()));
    }
}

/// The graph and the values after evaluating the outputs behind wrappers `ws`
/// in order at `tick`.
pub open spec fn eval_all(g: Graph, ws: Seq<usize>, tick: u64) -> (Graph, Seq<bool>)
    decreases ws.len(),
{
    if ws.len() == 0 {
        (g, Seq::empty())
    } else {
        let (g1, vs) = eval_all(g, ws.drop_last(), tick);
        let (g2, v) = eval(g1, Input::ChipOutput(ws.last()), tick);
        (g2, vs.push(v))
    }
}

/// Every cache stamp is at most `tick`.
pub open spec fn stamps_at_most(g: Graph, tick: u64) -> bool {
    &&& forall|i: int| 0 <= i < g.nands.len() ==> (#[trigger] g.nands[i]).iteration <= tick
    &&& forall|i: int| 0 <= i < g.outputs.len() ==> (#[trigger] g.outputs[i]).iteration <= tick
}

/// A circuit under simulation.
pub struct Machine {
    pub alloc: Circuit,
    pub inputs: Vec<usize>,
    pub outputs: Vec<Output>,
    pub iteration: u64,
}

impl Machine {
    /// The wrappers of the captured outputs, in order.
    pub open spec fn output_wires(&self) -> Seq<usize> {
        self.outputs@.map_values(|o: Output| o.output)
    }

    pub open spec fn inv(&self) -> bool {
        &&& self.alloc.inv()
        &&& self.alloc@.complete()
        &&& forall|i: int| 0 <= i < self.inputs.len() ==> #[trigger] self.inputs@[i] < self.alloc@.users.len()
        &&& forall|i: int| 0 <= i < self.outputs.len() ==> (#[trigger] self.outputs@[i]).output < self.alloc@.wrappers.len()
        &&& stamps_at_most(self.alloc@, self.iteration)
    }

    /// A machine driving input cells `inputs` and reading the outputs behind
    /// wrappers `outputs`; every cache starts unstamped, at tick zero.
    pub fn new(alloc: Circuit, inputs: Vec<usize>, outputs: Vec<usize>) -> (r: Machine)
        requires
            alloc.inv(),
            alloc@.complete(),
            forall|i: int| 0 <= i < inputs.len() ==> #[trigger] inputs@[i] < alloc@.users.len(),
            forall|i: int| 0 <= i < outputs.len() ==> #[trigger] outputs@[i] < alloc@.wrappers.len(),
        ensures
            r.inv(),
            r.iteration == 0,
            r.alloc@ == unstamp(alloc@),
            wired_like(alloc@, r.alloc@),
            r.alloc@.users == alloc@.users,
            r.alloc.chips@ == alloc.chips@,
            r.inputs@ == inputs@,
            r.output_wires() == outputs@,
            forall|i: int| 0 <= i < outputs.len() ==> (#[trigger] r.outputs@[i]).identifier == i,
    {
        let mut alloc = alloc;
        alloc.clear_stamps();
        let mut r: Vec<Output> = Vec::new();
        let mut i: usize = 0;
        while i < outputs.len()
            invariant
                i <= outputs.len(),
                r.len() == i,
                forall|j: int| 0 <= j < i ==> (#[trigger] r@[j]).output == outputs@[j] && r@[j].identifier == j,
            decreases outputs.len() - i,
        {
            r.push(Output::new(outputs[i], &r));
            i = i + 1;
        }
        let m = Machine { alloc, inputs, outputs: r, iteration: 0 };
        proof {
            assert(m.output_wires() =~= outputs@);
        }
        m
    }

    /// Writes `input[k]` into input cell `k` in order, advances the tick by one,
    /// and evaluates every captured output, in order, at the new tick.
    pub fn process(&mut self, input: Vec<bool>) -> (r: Vec<bool>)
        requires
            old(self).inv(),
            input.len() == old(self).inputs.len(),
            old(self).iteration < u64::MAX,
        ensures
            final(self).inv(),
            final(self).iteration == old(self).iteration + 1,
            final(self).inputs@ == old(self).inputs@,
            final(self).outputs@ == old(self).outputs@,
            ({
                let g = old(self).alloc@;
                let set = Graph { users: assign(g.users, old(self).inputs@, input@), ..g };
                eval_all(set, old(self).output_wires(), final(self).iteration) == (final(self).alloc@, r@)
            }),
            ({
                let g = old(self).alloc@;
                let set = Graph { users: assign(g.users, old(self).inputs@, input@), ..g };
                let ws = old(self).output_wires();
                (forall|j: int| 0 <= j < ws.len() ==> defined(set, Input::ChipOutput(#[trigger] ws[j])))
                    ==> forall|k: int, f: nat|
                    0 <= k < ws.len() && (#[trigger] comb(set, Input::ChipOutput(ws[k]), f)) is Some
                        ==> Some(r@[k]) == comb(set, Input::ChipOutput(ws[k]), f)
            }),
            ({
                let g = old(self).alloc@;
                let set = Graph { users: assign(g.users, old(self).inputs@, input@), ..g };
                let ws = old(self).output_wires();
                (forall|j: int| 0 <= j < ws.len() ==> defined(set, Input::ChipOutput(#[trigger] ws[j])))
                    ==> forall|k: int, v: bool|
                    0 <= k < ws.len() && #[trigger] value_is(set, Input::ChipOutput(ws[k]), v) ==> r@[k] == v
            }),
            wired_like(old(self).alloc@, final(self).alloc@),
            final(self).alloc@.users == assign(old(self).alloc@.users, old(self).inputs@, input@),
    {
        let ghost g = self.alloc@;
        let mut k: usize = 0;
        while k < input.len()
            invariant
                k <= input.len(),
                input.len() == self.inputs.len(),
                self.inputs@ == old(self).inputs@,
                self.outputs@ == old(self).outputs@,
                self.iteration == old(self).iteration,
                self.inv(),
                g == old(self).alloc@,
                self.alloc@ == (Graph { users: assign(g.users, self.inputs@.take(k as int), input@.take(k as int)), ..g }),
                self.alloc.chips@ == old(self).alloc.chips@,
                self.alloc.chip_inputs@ == old(self).alloc.chip_inputs@,
                self.alloc.wrappers@ == old(self).alloc.wrappers@,
                self.alloc.nands@ == old(self).alloc.nands@,
                self.alloc.chip_outputs@ == old(self).alloc.chip_outputs@,
            decreases input.len() - k,
        {
            let cell = self.inputs[k];
            let ghost before = self.alloc@.users;
            UserInput::set(&mut self.alloc, cell, input[k]);
            proof {
                assert(self.inputs@.take(k + 1).drop_last() =~= self.inputs@.take(k as int));
                assert(input@.take(k + 1).drop_last() =~= input@.take(k as int));
            }
            k = k + 1;
        }
        proof {
            assert(self.inputs@.take(k as int) =~= self.inputs@);
            assert(input@.take(k as int) =~= input@);
        }
        self.iteration = self.iteration + 1;
        let tick = self.iteration;
        let ghost set = self.alloc@;
        proof {
            let ws = self.output_wires();
            if forall|j: int| 0 <= j < ws.len() ==> defined(set, Input::ChipOutput(#[trigger] ws[j])) {
                assert forall|k: int| 0 <= k < ws.len() implies #[trigger] ws[k] < set.wrappers.len() by {
                    assert(self.outputs@[k].output < set.wrappers.len());
                }
                lemma_eval_all_logic(set, ws, tick);
            }
        }
        let mut r: Vec<bool> = Vec::new();
        let mut i: usize = 0;
        while i < self.outputs.len()
            invariant
                i <= self.outputs.len(),
                self.outputs@ == old(self).outputs@,
                self.inputs@ == old(self).inputs@,
                self.iteration == tick,
                tick == old(self).iteration + 1,
                self.alloc.inv(),
                self.alloc@.complete(),
                settles(set, self.alloc@, tick),
                stamps_at_most(self.alloc@, tick),
                forall|j: int| 0 <= j < self.outputs.len() ==> (#[trigger] self.outputs@[j]).output < self.alloc@.wrappers.len(),
                forall|j: int| 0 <= j < self.inputs.len() ==> #[trigger] self.inputs@[j] < self.alloc@.users.len(),
                eval_all(set, self.output_wires().take(i as int), tick) == (self.alloc@, r@),
            decreases self.outputs.len() - i,
        {
            let w = self.outputs[i].output;
            let ghost before = self.alloc@;
            let v = self.alloc.evaluate(Input::ChipOutput(w), tick);
            r.push(v);
            proof {
                assert(self.output_wires().take(i + 1).drop_last() =~= self.output_wires().take(i as int));
                assert(self.output_wires()[i as int] == w);
                lemma_settles_trans(set, before, self.alloc@, tick);
            }
            i = i + 1;
        }
        proof {
            assert(self.output_wires().take(i as int) =~= self.output_wires());
            assert forall|k: int| 0 <= k < old(self).inputs@.len() implies #[trigger] old(self).inputs@[k] < g.users.len() by {
                assert(old(self).inputs@[k] < old(self).alloc@.users.len());
            }
            lemma_assign_len(g.users, old(self).inputs@, input@);
            let fin = self.alloc@;
            assert forall|n: int| 0 <= n < g.nands.len() implies (#[trigger] fin.nands[n]).in1 == g.nands[n].in1
                && fin.nands[n].in2 == g.nands[n].in2 by {
                assert(set.nands[n] == g.nands[n]);
            }
            assert forall|o: int| 0 <= o < g.outputs.len() implies (#[trigger] fin.outputs[o]).out == g.outputs[o].out by {
                assert(set.outputs[o] == g.outputs[o]);
            }
            assert(wired_like(g, fin));
            let ws = self.output_wires();
            assert forall|k: int, v: bool|
                (forall|j: int| 0 <= j < ws.len() ==> defined(set, Input::ChipOutput(#[trigger] ws[j]))) && 0 <= k
                    < ws.len() && #[trigger] value_is(set, Input::ChipOutput(ws[k]), v) implies r@[k] == v by {
                let f = choose|f: nat| #[trigger] comb(set, Input::ChipOutput(ws[k]), f) == Some(v);
                assert(comb(set, Input::ChipOutput(ws[k]), f) is Some);
            }
        }
        r
    }
}

} // verus!
