//! The circuit arena: one vector per node kind, nodes referenced by index.
use vstd::prelude::*;
use crate::structured::NandInputs;

verus! {

/// A reference to a boolean source that a wire may be driven by.
#[derive(Clone, Copy, PartialEq, Eq, Structural, Debug)]
pub enum Input {
    UserInput(usize),
    ChipOutput(usize),
    ChipInput(usize),
    NandInput(usize),
}

/// What a chip output forwards: a nested chip's output, a gate, or one of the
/// chip's own inputs passed through.
#[derive(Clone, Copy, PartialEq, Eq, Structural, Debug)]
pub enum ChipOutputType {
    ChipOutput(usize),
    NandOutput(usize),
    ChipInput(usize),
}

impl ChipOutputType {
    pub open spec fn spec_as_input(self) -> Input {
        match self {
            ChipOutputType::ChipOutput(w) => Input::ChipOutput(w),
            ChipOutputType::NandOutput(n) => Input::NandInput(n),
            ChipOutputType::ChipInput(i) => Input::ChipInput(i),
        }
    }

    /// The wire that carries the same value as this output source.
    pub fn as_input(self) -> (r: Input)
        ensures
            r == self.spec_as_input(),
    {
        match self {
            ChipOutputType::ChipOutput(w) => Input::ChipOutput(w),
            ChipOutputType::NandOutput(n) => Input::NandInput(n),
            ChipOutputType::ChipInput(i) => Input::ChipInput(i),
        }
    }
}

/// One externally driven input cell.
pub struct UserInput {
    pub value: bool,
    pub id: usize,
}

/// A declared input port of a chip instance, bound to its source.
pub struct ChipInput {
    pub in_: Input,
    pub id: usize,
    pub label: &'static str,
}

/// A declared output port of a chip instance; memoized per tick.
#[derive(Clone, Copy)]
pub struct ChipOutput {
    pub out: Option<ChipOutputType>,
    pub value: bool,
    pub iteration: u64,
    pub id: usize,
}

/// Pairs a chip output with the chip instance that owns it.
#[derive(Clone, Copy)]
pub struct ChipOutputWrapper {
    pub inner: usize,
    pub parent: usize,
}

/// The primitive gate; memoized per tick.
#[derive(Clone, Copy)]
pub struct Nand {
    pub in1: Option<Input>,
    pub in2: Option<Input>,
    pub iteration: u64,
    pub value: bool,
    pub identifier: usize,
}

/// Identity of a chip instance, for display only.
pub struct ChipRecord {
    pub label: &'static str,
    pub id: usize,
}

/// Identity of a node that owns outputs.
pub trait Chip {
    fn get_id(&self) -> usize;

    fn get_label(&self) -> &'static str;
}

impl Chip for ChipRecord {
    fn get_id(&self) -> usize {
        self.id
    }

    fn get_label(&self) -> &'static str {
        self.label
    }
}

/// The mathematical model of a circuit: what evaluation reads and writes.
pub struct Graph {
    pub users: Seq<bool>,
    pub chip_inputs: Seq<Input>,
    pub outputs: Seq<ChipOutput>,
    pub wrappers: Seq<usize>,
    pub nands: Seq<Nand>,
}

/// The arena that owns every node of one circuit.
pub struct Circuit {
    pub user_inputs: Vec<UserInput>,
    pub chip_inputs: Vec<ChipInput>,
    pub chip_outputs: Vec<ChipOutput>,
    pub wrappers: Vec<ChipOutputWrapper>,
    pub nands: Vec<Nand>,
    pub chips: Vec<ChipRecord>,
}

impl Graph {
    /// `x` names a node that exists.
    pub open spec fn valid_input(self, x: Input) -> bool {
        match x {
            Input::UserInput(i) => i < self.users.len(),
            Input::ChipOutput(w) => w < self.wrappers.len(),
            Input::ChipInput(i) => i < self.chip_inputs.len(),
            Input::NandInput(n) => n < self.nands.len(),
        }
    }

    pub open spec fn valid_opt(self, x: Option<Input>) -> bool {
        match x {
            Some(i) => self.valid_input(i),
            None => true,
        }
    }

    pub open spec fn valid_source(self, x: Option<ChipOutputType>) -> bool {
        match x {
            Some(t) => self.valid_input(t.spec_as_input()),
            None => true,
        }
    }

    /// Every reference names an existing node, and a chip input bound to another
    /// chip input refers to an earlier one.
    pub open spec fn wf(self) -> bool {
        &&& forall|i: int|
            0 <= i < self.chip_inputs.len() ==> {
                &&& self.valid_input(#[trigger] self.chip_inputs[i])
                &&& (self.chip_inputs[i] matches Input::ChipInput(j) ==> j < i)
            }
        &&& forall|i: int|
            0 <= i < self.nands.len() ==> self.valid_opt(#[trigger] self.nands[i].in1)
                && self.valid_opt(self.nands[i].in2)
        &&& forall|i: int|
            0 <= i < self.outputs.len() ==> self.valid_source(#[trigger] self.outputs[i].out)
        &&& forall|i: int| 0 <= i < self.wrappers.len() ==> #[trigger] self.wrappers[i] < self.outputs.len()
    }

    /// Every gate input and every chip output source is bound.
    pub open spec fn complete(self) -> bool {
        &&& forall|i: int|
            0 <= i < self.nands.len() ==> (#[trigger] self.nands[i]).in1 is Some
                && self.nands[i].in2 is Some
        &&& forall|i: int| 0 <= i < self.outputs.len() ==> (#[trigger] self.outputs[i]).out is Some
    }

    /// `b` holds every node of `a` unchanged, and possibly more after them.
    pub open spec fn grows_to(self, b: Graph) -> bool {
        &&& self.users.len() <= b.users.len()
        &&& self.chip_inputs.len() <= b.chip_inputs.len()
        &&& self.outputs.len() <= b.outputs.len()
        &&& self.wrappers.len() <= b.wrappers.len()
        &&& self.nands.len() <= b.nands.len()
        &&& forall|i: int| 0 <= i < self.users.len() ==> b.users[i] == self.users[i]
        &&& forall|i: int| 0 <= i < self.chip_inputs.len() ==> b.chip_inputs[i] == self.chip_inputs[i]
        &&& forall|i: int| 0 <= i < self.outputs.len() ==> b.outputs[i] == self.outputs[i]
        &&& forall|i: int| 0 <= i < self.wrappers.len() ==> b.wrappers[i] == self.wrappers[i]
        &&& forall|i: int| 0 <= i < self.nands.len() ==> b.nands[i] == self.nands[i]
    }
}

impl View for Circuit {
    type V = Graph;

    open spec fn view(&self) -> Graph {
        Graph {
            users: self.user_inputs@.map_values(|u: UserInput| u.value),
            chip_inputs: self.chip_inputs@.map_values(|c: ChipInput| c.in_),
            outputs: self.chip_outputs@,
            wrappers: self.wrappers@.map_values(|w: ChipOutputWrapper| w.inner),
            nands: self.nands@,
        }
    }
}

impl Circuit {
    /// Identifiers equal positions, and every wrapper's owner exists.
    pub open spec fn ids_ok(&self) -> bool {
        &&& forall|i: int| 0 <= i < self.user_inputs.len() ==> (#[trigger] self.user_inputs@[i]).id == i
        &&& forall|i: int| 0 <= i < self.chip_inputs.len() ==> (#[trigger] self.chip_inputs@[i]).id == i
        &&& forall|i: int| 0 <= i < self.chip_outputs.len() ==> (#[trigger] self.chip_outputs@[i]).id == i
        &&& forall|i: int| 0 <= i < self.nands.len() ==> (#[trigger] self.nands@[i]).identifier == i
        &&& forall|i: int| 0 <= i < self.chips.len() ==> (#[trigger] self.chips@[i]).id == i
        &&& forall|i: int| 0 <= i < self.wrappers.len() ==> (#[trigger] self.wrappers@[i]).parent < self.chips.len()
    }

    /// The arena invariant.
    pub open spec fn inv(&self) -> bool {
        self@.wf() && self.ids_ok()
    }

    /// An empty arena.
    pub fn new() -> (r: Circuit)
        ensures
            r.inv(),
            r@.complete(),
            r@.users.len() == 0,
            r@.chip_inputs.len() == 0,
            r@.outputs.len() == 0,
            r@.wrappers.len() == 0,
            r@.nands.len() == 0,
            r.chips.len() == 0,
    {
        let r = Circuit {
            user_inputs: Vec::new(),
            chip_inputs: Vec::new(),
            chip_outputs: Vec::new(),
            wrappers: Vec::new(),
            nands: Vec::new(),
            chips: Vec::new(),
        };
        proof {
            assert(r@.users =~= Seq::<bool>::empty());
        }
        r
    }
}


/// `new` holds every node of `old` unchanged, and possibly more after them.
pub open spec fn grown(old: &Circuit, new: &Circuit) -> bool {
    &&& old@.grows_to(new@)
    &&& old.chips.len() <= new.chips.len()
}

/// Every gate and every chip output added after those of `a` is bound.
pub open spec fn adds_bound(a: Graph, b: Graph) -> bool {
    &&& forall|i: int|
        a.nands.len() <= i < b.nands.len() ==> (#[trigger] b.nands[i]).in1 is Some
            && b.nands[i].in2 is Some
    &&& forall|i: int| a.outputs.len() <= i < b.outputs.len() ==> (#[trigger] b.outputs[i]).out is Some
}

/// Adding nodes after the existing ones keeps a well-formed graph well formed.
proof fn lemma_wf_grow(a: Graph, b: Graph)
    requires
        a.wf(),
        a.grows_to(b),
        b.chip_inputs.len() == a.chip_inputs.len(),
        b.nands.len() == a.nands.len(),
        b.outputs.len() == a.outputs.len(),
        b.wrappers.len() == a.wrappers.len(),
    ensures
        b.wf(),
{
    assert(b.chip_inputs =~= a.chip_inputs);
    assert(b.nands =~= a.nands);
    assert(b.outputs =~= a.outputs);
    assert(b.wrappers =~= a.wrappers);
    assert forall|x: Input| a.valid_input(x) implies b.valid_input(x) by {}
}

impl UserInput {
    /// A new input cell holding `val`.
    pub fn from(alloc: &mut Circuit, val: bool) -> (r: Input)
        requires
            old(alloc).inv(),
        ensures
            final(alloc).inv(),
            grown(old(alloc), final(alloc)),
            old(alloc)@.complete() ==> final(alloc)@.complete(),
            r == Input::UserInput(old(alloc)@.users.len() as usize),
            final(alloc)@.users == old(alloc)@.users.push(val),
            final(alloc)@.nands == old(alloc)@.nands,
            final(alloc)@.chip_inputs == old(alloc)@.chip_inputs,
            final(alloc)@.outputs == old(alloc)@.outputs,
            final(alloc)@.wrappers == old(alloc)@.wrappers,
            final(alloc).chips@ == old(alloc).chips@,
    {
        let id = alloc.user_inputs.len();
        alloc.user_inputs.push(UserInput { value: val, id });
        proof {
            assert(alloc@.users =~= old(alloc)@.users.push(val));
            assert(alloc.user_inputs@[id as int].id == id);
            lemma_wf_grow(old(alloc)@, alloc@);
        }
        Input::UserInput(id)
    }

    /// Writes `value` into input cell `idx`.
    pub fn set(alloc: &mut Circuit, idx: usize, value: bool)
        requires
            old(alloc).inv(),
            idx < old(alloc)@.users.len(),
        ensures
            final(alloc).inv(),
            final(alloc)@ == (Graph { users: old(alloc)@.users.update(idx as int, value), ..old(alloc)@ }),
            final(alloc).chips@ == old(alloc).chips@,
            final(alloc).chip_inputs@ == old(alloc).chip_inputs@,
            final(alloc).wrappers@ == old(alloc).wrappers@,
            final(alloc).nands@ == old(alloc).nands@,
            final(alloc).chip_outputs@ == old(alloc).chip_outputs@,
    {
        alloc.user_inputs.set(idx, UserInput { value, id: idx });
        proof {
            let a = old(alloc)@;
            let b = alloc@;
            assert(b.users =~= a.users.update(idx as int, value));
            assert(b.chip_inputs =~= a.chip_inputs);
            assert(b.wrappers =~= a.wrappers);
            assert forall|x: Input| a.valid_input(x) implies b.valid_input(x) by {}
            assert forall|i: int| 0 <= i < alloc.user_inputs.len() implies (#[trigger] alloc.user_inputs@[i]).id == i by {
                if i != idx {
                    assert(alloc.user_inputs@[i] == old(alloc).user_inputs@[i]);
                }
            }
        }
    }

    /// A new input cell holding `false`.
    pub fn new(alloc: &mut Circuit) -> (r: Input)
        requires
            old(alloc).inv(),
        ensures
            final(alloc).inv(),
            grown(old(alloc), final(alloc)),
            old(alloc)@.complete() ==> final(alloc)@.complete(),
            r == Input::UserInput(old(alloc)@.users.len() as usize),
            final(alloc)@.users == old(alloc)@.users.push(false),
    {
        UserInput::from(alloc, false)
    }
}


impl Circuit {
    /// Registers a chip instance and returns its index.
    pub fn new_chip(&mut self, label: &'static str) -> (r: usize)
        requires
            old(self).inv(),
        ensures
            final(self).inv(),
            grown(old(self), final(self)),
            final(self)@ == old(self)@,
            r == old(self).chips.len(),
            final(self).chips.len() == old(self).chips.len() + 1,
    {
        let id = self.chips.len();
        self.chips.push(ChipRecord { label, id });
        proof {
            assert(self.chips@[id as int].id == id);
        }
        id
    }
}

impl ChipInput {
    /// A new input port bound to `in_`; the result is its index.
    pub fn new(alloc: &mut Circuit, in_: Input, label: &'static str) -> (r: usize)
        requires
            old(alloc).inv(),
            old(alloc)@.valid_input(in_),
        ensures
            final(alloc).inv(),
            grown(old(alloc), final(alloc)),
            old(alloc)@.complete() ==> final(alloc)@.complete(),
            r == old(alloc)@.chip_inputs.len(),
            final(alloc)@.chip_inputs == old(alloc)@.chip_inputs.push(in_),
            final(alloc)@.users == old(alloc)@.users,
            final(alloc)@.nands == old(alloc)@.nands,
            final(alloc)@.outputs == old(alloc)@.outputs,
            final(alloc)@.wrappers == old(alloc)@.wrappers,
            final(alloc).chips@ == old(alloc).chips@,
    {
        let id = alloc.chip_inputs.len();
        alloc.chip_inputs.push(ChipInput { in_, id, label });
        proof {
            let a = old(alloc)@;
            let b = alloc@;
            assert(b.chip_inputs =~= a.chip_inputs.push(in_));
            assert(alloc.chip_inputs@[id as int].id == id);
            assert forall|x: Input| a.valid_input(x) implies b.valid_input(x) by {}
            assert(b.nands =~= a.nands);
            assert(b.outputs =~= a.outputs);
            assert(b.wrappers =~= a.wrappers);
            assert forall|i: int| 0 <= i < b.chip_inputs.len() implies {
                &&& b.valid_input(#[trigger] b.chip_inputs[i])
                &&& (b.chip_inputs[i] matches Input::ChipInput(j) ==> j < i)
            } by {
                if i < a.chip_inputs.len() {
                    assert(b.chip_inputs[i] == a.chip_inputs[i]);
                }
            }
        }
        id
    }
}

impl ChipOutput {
    /// A new output port forwarding `out`; the result is its index.
    pub fn new(alloc: &mut Circuit, out: ChipOutputType) -> (r: usize)
        requires
            old(alloc).inv(),
            old(alloc)@.valid_input(out.spec_as_input()),
        ensures
            final(alloc).inv(),
            grown(old(alloc), final(alloc)),
            old(alloc)@.complete() ==> final(alloc)@.complete(),
            r == old(alloc)@.outputs.len(),
            final(alloc)@.outputs == old(alloc)@.outputs.push(
                ChipOutput { out: Some(out), value: false, iteration: 0, id: r },
            ),
            final(alloc)@.users == old(alloc)@.users,
            final(alloc)@.nands == old(alloc)@.nands,
            final(alloc)@.chip_inputs == old(alloc)@.chip_inputs,
            final(alloc)@.wrappers == old(alloc)@.wrappers,
            final(alloc).chips@ == old(alloc).chips@,
    {
        ChipOutput::new_from_option(alloc, Some(out))
    }

    /// A new output port, bound now or, with `None`, later through `set_out`.
    pub fn new_from_option(alloc: &mut Circuit, out: Option<ChipOutputType>) -> (r: usize)
        requires
            old(alloc).inv(),
            old(alloc)@.valid_source(out),
        ensures
            final(alloc).inv(),
            grown(old(alloc), final(alloc)),
            out is Some ==> (old(alloc)@.complete() ==> final(alloc)@.complete()),
            r == old(alloc)@.outputs.len(),
            final(alloc)@.outputs == old(alloc)@.outputs.push(
                ChipOutput { out, value: false, iteration: 0, id: r },
            ),
            final(alloc)@.users == old(alloc)@.users,
            final(alloc)@.nands == old(alloc)@.nands,
            final(alloc)@.chip_inputs == old(alloc)@.chip_inputs,
            final(alloc)@.wrappers == old(alloc)@.wrappers,
            final(alloc).chips@ == old(alloc).chips@,
    {
        let id = alloc.chip_outputs.len();
        alloc.chip_outputs.push(ChipOutput { out, value: false, iteration: 0, id });
        proof {
            let a = old(alloc)@;
            let b = alloc@;
            assert(alloc.chip_outputs@[id as int].id == id);
            assert forall|x: Input| a.valid_input(x) implies b.valid_input(x) by {}
            assert forall|i: int| 0 <= i < b.outputs.len() implies b.valid_source(
                #[trigger] b.outputs[i].out,
            ) by {
                if i < a.outputs.len() {
                    assert(b.outputs[i] == a.outputs[i]);
                }
            }
            assert(b.chip_inputs =~= a.chip_inputs);
            assert(b.nands =~= a.nands);
            assert(b.wrappers =~= a.wrappers);
        }
        id
    }

    /// Binds (or rebinds) the source of output `idx`.
    pub fn set_out(alloc: &mut Circuit, idx: usize, out: ChipOutputType)
        requires
            old(alloc).inv(),
            idx < old(alloc)@.outputs.len(),
            old(alloc)@.valid_input(out.spec_as_input()),
        ensures
            final(alloc).inv(),
            final(alloc)@ == (Graph {
                outputs: old(alloc)@.outputs.update(
                    idx as int,
                    ChipOutput { out: Some(out), ..old(alloc)@.outputs[idx as int] },
                ),
                ..old(alloc)@
            }),
            final(alloc).chips@ == old(alloc).chips@,
    {
        let mut o = alloc.chip_outputs[idx];
        o.out = Some(out);
        alloc.chip_outputs.set(idx, o);
        proof {
            let a = old(alloc)@;
            let b = alloc@;
            assert(b.outputs =~= a.outputs.update(idx as int, o));
            assert(alloc.chip_outputs@[idx as int].id == idx);
            assert forall|i: int| 0 <= i < b.outputs.len() implies b.valid_source(
                #[trigger] b.outputs[i].out,
            ) by {
                if i != idx {
                    assert(b.outputs[i] == a.outputs[i]);
                }
            }
        }
    }

    /// The bound source of output `idx`.
    pub fn get_out(alloc: &Circuit, idx: usize) -> (r: ChipOutputType)
        requires
            idx < alloc@.outputs.len(),
            alloc@.outputs[idx as int].out is Some,
        ensures
            Some(r) == alloc@.outputs[idx as int].out,
    {
        alloc.chip_outputs[idx].out.unwrap()
    }
}

impl ChipOutputWrapper {
    /// Associates output `inner` with its owning chip `parent`; the result is
    /// the wrapper's index.
    pub fn new(alloc: &mut Circuit, inner: usize, parent: usize) -> (r: usize)
        requires
            old(alloc).inv(),
            inner < old(alloc)@.outputs.len(),
            parent < old(alloc).chips.len(),
        ensures
            final(alloc).inv(),
            grown(old(alloc), final(alloc)),
            old(alloc)@.complete() ==> final(alloc)@.complete(),
            r == old(alloc)@.wrappers.len(),
            final(alloc)@.wrappers == old(alloc)@.wrappers.push(inner),
            final(alloc)@.users == old(alloc)@.users,
            final(alloc)@.nands == old(alloc)@.nands,
            final(alloc)@.chip_inputs == old(alloc)@.chip_inputs,
            final(alloc)@.outputs == old(alloc)@.outputs,
            final(alloc).chips@ == old(alloc).chips@,
    {
        let id = alloc.wrappers.len();
        alloc.wrappers.push(ChipOutputWrapper { inner, parent });
        proof {
            let a = old(alloc)@;
            let b = alloc@;
            assert(b.wrappers =~= a.wrappers.push(inner));
            assert(alloc.wrappers@[id as int].parent == parent);
            assert forall|x: Input| a.valid_input(x) implies b.valid_input(x) by {}
            assert(b.chip_inputs =~= a.chip_inputs);
            assert(b.nands =~= a.nands);
            assert(b.outputs =~= a.outputs);
        }
        id
    }
}


impl Nand {
    /// A new gate with both inputs unbound, to be bound by `set_inputs`;
    /// the result is its index.
    pub fn new_unbound(alloc: &mut Circuit) -> (r: usize)
        requires
            old(alloc).inv(),
        ensures
            final(alloc).inv(),
            grown(old(alloc), final(alloc)),
            r == old(alloc)@.nands.len(),
            final(alloc)@.nands == old(alloc)@.nands.push(
                Nand { in1: None, in2: None, iteration: 0, value: false, identifier: r },
            ),
            final(alloc)@.users == old(alloc)@.users,
            final(alloc)@.chip_inputs == old(alloc)@.chip_inputs,
            final(alloc)@.outputs == old(alloc)@.outputs,
            final(alloc)@.wrappers == old(alloc)@.wrappers,
            final(alloc).chips@ == old(alloc).chips@,
    {
        let id = alloc.nands.len();
        alloc.nands.push(Nand { in1: None, in2: None, iteration: 0, value: false, identifier: id });
        proof {
            let a = old(alloc)@;
            let b = alloc@;
            assert(alloc.nands@[id as int].identifier == id);
            assert forall|x: Input| a.valid_input(x) implies b.valid_input(x) by {}
            assert forall|i: int| 0 <= i < b.nands.len() implies b.valid_opt(
                #[trigger] b.nands[i].in1,
            ) && b.valid_opt(b.nands[i].in2) by {
                if i < a.nands.len() {
                    assert(b.nands[i] == a.nands[i]);
                }
            }
            assert(b.chip_inputs =~= a.chip_inputs);
            assert(b.outputs =~= a.outputs);
            assert(b.wrappers =~= a.wrappers);
        }
        id
    }

    /// Binds both inputs of gate `idx`.
    pub fn set_inputs(alloc: &mut Circuit, idx: usize, input: NandInputs<Input>)
        requires
            old(alloc).inv(),
            idx < old(alloc)@.nands.len(),
            old(alloc)@.valid_input(input.in1),
            old(alloc)@.valid_input(input.in2),
        ensures
            final(alloc).inv(),
            final(alloc)@ == (Graph {
                nands: old(alloc)@.nands.update(
                    idx as int,
                    Nand { in1: Some(input.in1), in2: Some(input.in2), ..old(alloc)@.nands[idx as int] },
                ),
                ..old(alloc)@
            }),
            final(alloc).chips@ == old(alloc).chips@,
    {
        let mut n = alloc.nands[idx];
        n.in1 = Some(input.in1);
        n.in2 = Some(input.in2);
        alloc.nands.set(idx, n);
        proof {
            let a = old(alloc)@;
            let b = alloc@;
            assert(b.nands =~= a.nands.update(idx as int, n));
            assert(alloc.nands@[idx as int].identifier == idx);
            assert forall|i: int| 0 <= i < b.nands.len() implies b.valid_opt(
                #[trigger] b.nands[i].in1,
            ) && b.valid_opt(b.nands[i].in2) by {
                if i != idx {
                    assert(b.nands[i] == a.nands[i]);
                }
            }
        }
    }

    /// A new gate reading `in1` and `in2`; the result is its index.
    pub fn new(alloc: &mut Circuit, in1: Input, in2: Input) -> (r: usize)
        requires
            old(alloc).inv(),
            old(alloc)@.valid_input(in1),
            old(alloc)@.valid_input(in2),
        ensures
            final(alloc).inv(),
            grown(old(alloc), final(alloc)),
            old(alloc)@.complete() ==> final(alloc)@.complete(),
            r == old(alloc)@.nands.len(),
            final(alloc)@.nands == old(alloc)@.nands.push(
                Nand { in1: Some(in1), in2: Some(in2), iteration: 0, value: false, identifier: r },
            ),
            final(alloc)@.users == old(alloc)@.users,
            final(alloc)@.chip_inputs == old(alloc)@.chip_inputs,
            final(alloc)@.outputs == old(alloc)@.outputs,
            final(alloc)@.wrappers == old(alloc)@.wrappers,
            final(alloc).chips@ == old(alloc).chips@,
    {
        let r = Nand::new_unbound(alloc);
        Nand::set_inputs(alloc, r, NandInputs { in1, in2 });
        proof {
            assert(alloc@.nands =~= old(alloc)@.nands.push(
                Nand { in1: Some(in1), in2: Some(in2), iteration: 0, value: false, identifier: r },
            ));
        }
        r
    }

    /// The two bound inputs of gate `idx`.
    pub fn get_inputs(alloc: &Circuit, idx: usize) -> (r: [Input; 2])
        requires
            idx < alloc@.nands.len(),
            alloc@.nands[idx as int].in1 is Some,
            alloc@.nands[idx as int].in2 is Some,
        ensures
            Some(r[0]) == alloc@.nands[idx as int].in1,
            Some(r[1]) == alloc@.nands[idx as int].in2,
    {
        let n = alloc.nands[idx];
        [n.in1.unwrap(), n.in2.unwrap()]
    }
}

/// `g` with every cache stamp cleared.
pub open spec fn unstamp(g: Graph) -> Graph {
    Graph {
        nands: g.nands.map_values(|n: Nand| Nand { iteration: 0, ..n }),
        outputs: g.outputs.map_values(|o: ChipOutput| ChipOutput { iteration: 0, ..o }),
        ..g
    }
}

impl Circuit {
    /// Clears every cache stamp, as if nothing had been evaluated yet.
    pub fn clear_stamps(&mut self)
        requires
            old(self).inv(),
        ensures
            final(self).inv(),
            final(self)@ == unstamp(old(self)@),
            final(self).chips@ == old(self).chips@,
            final(self).user_inputs@ == old(self).user_inputs@,
            final(self).chip_inputs@ == old(self).chip_inputs@,
            final(self).wrappers@ == old(self).wrappers@,
            old(self)@.complete() ==> final(self)@.complete(),
    {
        let ghost g0 = self@;
        let mut k: usize = 0;
        while k < self.nands.len()
            invariant
                k <= self.nands.len(),
                self.nands.len() == g0.nands.len(),
                self.inv(),
                g0.wf(),
                old(self).inv(),
                self@.users == g0.users,
                self@.chip_inputs == g0.chip_inputs,
                self@.outputs == g0.outputs,
                self@.wrappers == g0.wrappers,
                self.chips@ == old(self).chips@,
                self.user_inputs@ == old(self).user_inputs@,
                self.chip_inputs@ == old(self).chip_inputs@,
                self.wrappers@ == old(self).wrappers@,
                g0 == old(self)@,
                forall|i: int| 0 <= i < k ==> #[trigger] self@.nands[i] == (Nand { iteration: 0, ..g0.nands[i] }),
                forall|i: int| k <= i < self.nands.len() ==> #[trigger] self@.nands[i] == g0.nands[i],
            decreases self.nands.len() - k,
        {
            let mut n = self.nands[k];
            n.iteration = 0;
            self.nands.set(k, n);
            proof {
                assert forall|i: int| 0 <= i < self.nands.len() implies self@.valid_opt(#[trigger] self@.nands[i].in1)
                    && self@.valid_opt(self@.nands[i].in2) by {
                    assert(g0.valid_opt(g0.nands[i].in1));
                    assert(g0.valid_opt(g0.nands[i].in2));
                }
                assert forall|i: int| 0 <= i < self.nands.len() implies (#[trigger] self.nands@[i]).identifier == i by {
                    assert(old(self).nands@[i].identifier == i);
                }
            }
            k = k + 1;
        }
        let mut k: usize = 0;
        while k < self.chip_outputs.len()
            invariant
                k <= self.chip_outputs.len(),
                self.chip_outputs.len() == g0.outputs.len(),
                self.inv(),
                g0.wf(),
                old(self).inv(),
                self@.users == g0.users,
                self@.chip_inputs == g0.chip_inputs,
                self@.nands == unstamp(g0).nands,
                self@.wrappers == g0.wrappers,
                self.chips@ == old(self).chips@,
                self.user_inputs@ == old(self).user_inputs@,
                self.chip_inputs@ == old(self).chip_inputs@,
                self.wrappers@ == old(self).wrappers@,
                g0 == old(self)@,
                forall|i: int| 0 <= i < k ==> #[trigger] self@.outputs[i] == (ChipOutput { iteration: 0, ..g0.outputs[i] }),
                forall|i: int| k <= i < self.chip_outputs.len() ==> #[trigger] self@.outputs[i] == g0.outputs[i],
            decreases self.chip_outputs.len() - k,
        {
            let mut o = self.chip_outputs[k];
            o.iteration = 0;
            self.chip_outputs.set(k, o);
            proof {
                assert forall|i: int| 0 <= i < self.chip_outputs.len() implies self@.valid_source(#[trigger] self@.outputs[i].out) by {
                    assert(g0.valid_source(g0.outputs[i].out));
                }
                assert forall|i: int| 0 <= i < self.chip_outputs.len() implies (#[trigger] self.chip_outputs@[i]).id == i by {
                    assert(old(self).chip_outputs@[i].id == i);
                }
            }
            k = k + 1;
        }
        proof {
            assert(self@.nands =~= unstamp(g0).nands);
            assert(self@.outputs =~= unstamp(g0).outputs);
            if g0.complete() {
                assert forall|i: int| 0 <= i < self@.nands.len() implies (#[trigger] self@.nands[i]).in1 is Some
                    && self@.nands[i].in2 is Some by {
                    assert(g0.nands[i].in1 is Some && g0.nands[i].in2 is Some);
                }
                assert forall|i: int| 0 <= i < self@.outputs.len() implies (#[trigger] self@.outputs[i]).out is Some by {
                    assert(g0.outputs[i].out is Some);
                }
            }
        }
    }
}


/// A wire of one of two mutually referencing gates: a given wire, or the
/// output of the other gate.
#[derive(Clone, Copy, PartialEq, Eq, Structural, Debug)]
pub enum Peer {
    Wire(Input),
    Other,
}

impl Peer {
    pub open spec fn spec_resolve(self, other: usize) -> Input {
        match self {
            Peer::Wire(x) => x,
            Peer::Other => Input::NandInput(other),
        }
    }

    /// The wire this stands for, given the other gate's index.
    pub fn resolve(self, other: usize) -> (r: Input)
        ensures
            r == self.spec_resolve(other),
    {
        match self {
            Peer::Wire(x) => x,
            Peer::Other => Input::NandInput(other),
        }
    }
}

/// Builds two mutually referencing gates: both are allocated unbound, then the
/// first is bound to `in1` read against the second, and the second to `in2`
/// read against the first. The result is the pair of indices.
pub fn create_subchip(alloc: &mut Circuit, in1: NandInputs<Peer>, in2: NandInputs<Peer>) -> (r: (usize, usize))
    requires
        old(alloc).inv(),
        in1.in1 matches Peer::Wire(x) ==> old(alloc)@.valid_input(x),
        in1.in2 matches Peer::Wire(x) ==> old(alloc)@.valid_input(x),
        in2.in1 matches Peer::Wire(x) ==> old(alloc)@.valid_input(x),
        in2.in2 matches Peer::Wire(x) ==> old(alloc)@.valid_input(x),
    ensures
        final(alloc).inv(),
        grown(old(alloc), final(alloc)),
        adds_bound(old(alloc)@, final(alloc)@),
        old(alloc)@.complete() ==> final(alloc)@.complete(),
        final(alloc).chips@ == old(alloc).chips@,
        r.0 == old(alloc)@.nands.len(),
        r.1 == r.0 + 1,
        final(alloc)@.nands.len() == r.1 + 1,
        final(alloc)@.nands[r.0 as int].in1 == Some(in1.in1.spec_resolve(r.1)),
        final(alloc)@.nands[r.0 as int].in2 == Some(in1.in2.spec_resolve(r.1)),
        final(alloc)@.nands[r.1 as int].in1 == Some(in2.in1.spec_resolve(r.0)),
        final(alloc)@.nands[r.1 as int].in2 == Some(in2.in2.spec_resolve(r.0)),
        final(alloc)@.nands[r.0 as int].iteration == 0 && final(alloc)@.nands[r.0 as int].value == false,
        final(alloc)@.nands[r.1 as int].iteration == 0 && final(alloc)@.nands[r.1 as int].value == false,
{
    let ghost g0 = alloc@;
    let chip1 = Nand::new_unbound(alloc);
    let chip2 = Nand::new_unbound(alloc);
    let x1 = NandInputs { in1: in1.in1.resolve(chip2), in2: in1.in2.resolve(chip2) };
    Nand::set_inputs(alloc, chip1, x1);
    let x2 = NandInputs { in1: in2.in1.resolve(chip1), in2: in2.in2.resolve(chip1) };
    Nand::set_inputs(alloc, chip2, x2);
    proof {
        let g = alloc@;
        assert forall|i: int| 0 <= i < g0.nands.len() implies g.nands[i] == g0.nands[i] by {}
        assert(g.users == g0.users);
        assert(g.outputs == g0.outputs);
        if g0.complete() {
            assert forall|i: int| 0 <= i < g.nands.len() implies (#[trigger] g.nands[i]).in1 is Some
                && g.nands[i].in2 is Some by {
                if i < g0.nands.len() {
                    assert(g0.nands[i].in1 is Some);
                }
            }
        }
    }
    (chip1, chip2)
}

} // verus!
