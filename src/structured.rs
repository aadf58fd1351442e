//! The mapping between a flat sequence of wires and a named record.
use vstd::prelude::*;

verus! {

/// A record that is, losslessly, a flat sequence of `arity()` elements,
/// its fields concatenated in declared order.
pub trait StructuredData<T>: Sized {
    spec fn arity() -> nat;

    /// The fields of the record, concatenated in declared order.
    spec fn flat_view(&self) -> Seq<T>;

    /// The flat view has the record's arity.
    proof fn lemma_flat_len(&self)
        ensures
            self.flat_view().len() == Self::arity(),
    ;

    /// Two records with the same flat view are the same record.
    proof fn lemma_flat_injective(a: &Self, b: &Self)
        requires
            a.flat_view() == b.flat_view(),
        ensures
            a == b,
    ;

    fn from_flat(input: Vec<T>) -> (r: Self)
        requires
            input.len() == Self::arity(),
        ensures
            r.flat_view() == input@,
    ;

    fn to_flat(self) -> (r: Vec<T>)
        ensures
            r@ == self.flat_view(),
    ;
}

/// Flattening a record and rebuilding it from the flat sequence gives the
/// record back.
pub fn round_trip<T, S: StructuredData<T>>(x: S) -> (r: S)
    ensures
        r == x,
{
    let ghost xv = x.flat_view();
    proof {
        x.lemma_flat_len();
    }
    let flat = x.to_flat();
    let r = S::from_flat(flat);
    proof {
        S::lemma_flat_injective(&r, &x);
    }
    r
}

/// Rebuilding a record from a flat sequence and flattening it gives the
/// sequence back.
pub fn flat_round_trip<T, S: StructuredData<T>>(a: Vec<T>) -> (r: Vec<T>)
    requires
        a.len() == S::arity(),
    ensures
        r@ == a@,
{
    let x = S::from_flat(a);
    x.to_flat()
}

/// The two inputs of a NAND gate.
#[derive(Debug, PartialEq, Eq)]
pub struct NandInputs<T> {
    pub in1: T,
    pub in2: T,
}

/// The output of a NAND gate.
#[derive(Debug, PartialEq, Eq)]
pub struct NandOutputs<T> {
    pub out: T,
}

impl<T> StructuredData<T> for NandInputs<T> {
    open spec fn arity() -> nat {
        2
    }

    open spec fn flat_view(&self) -> Seq<T> {
        seq![self.in1, self.in2]
    }

    proof fn lemma_flat_len(&self) {
    }

    proof fn lemma_flat_injective(a: &Self, b: &Self) {
        assert(a.flat_view()[0] == b.flat_view()[0]);
        assert(a.flat_view()[1] == b.flat_view()[1]);
    }

    fn from_flat(input: Vec<T>) -> (r: Self) {
        let ghost s = input@;
        let mut input = input;
        let in2 = input.pop().unwrap();
        let in1 = input.pop().unwrap();
        let r = NandInputs { in1, in2 };
        proof {
            assert(r.flat_view() =~= s);
        }
        r
    }

    fn to_flat(self) -> (r: Vec<T>) {
        let mut v = Vec::new();
        v.push(self.in1);
        v.push(self.in2);
        proof {
            assert(v@ =~= self.flat_view());
        }
        v
    }
}

impl<T> StructuredData<T> for NandOutputs<T> {
    open spec fn arity() -> nat {
        1
    }

    open spec fn flat_view(&self) -> Seq<T> {
        seq![self.out]
    }

    proof fn lemma_flat_len(&self) {
    }

    proof fn lemma_flat_injective(a: &Self, b: &Self) {
        assert(seq![a.out][0] == a.out);
        assert(seq![b.out][0] == b.out);
    }

    fn from_flat(input: Vec<T>) -> (r: Self) {
        let ghost s = input@;
        let mut input = input;
        let out = input.pop().unwrap();
        let r = NandOutputs { out };
        proof {
            assert(r.flat_view() =~= s);
        }
        r
    }

    fn to_flat(self) -> (r: Vec<T>) {
        let mut v = Vec::new();
        v.push(self.out);
        proof {
            assert(v@ =~= self.flat_view());
        }
        v
    }
}


/// The shape of one field of a record: one element, or an array of `n`.
#[derive(Clone, Copy, PartialEq, Eq, Structural, Debug)]
pub enum FieldShape {
    Scalar,
    Array(usize),
}

/// One field of a record.
#[derive(Clone, Debug, PartialEq)]
pub enum Field<T> {
    Scalar(T),
    Array(Vec<T>),
}

/// The mathematical model of a field.
pub enum FieldView<T> {
    Scalar(T),
    Array(Seq<T>),
}

impl<T> FieldView<T> {
    /// The elements of the field, in order.
    pub open spec fn items(self) -> Seq<T> {
        match self {
            FieldView::Scalar(x) => seq![x],
            FieldView::Array(s) => s,
        }
    }

    pub open spec fn shape(self) -> FieldShape {
        match self {
            FieldView::Scalar(_) => FieldShape::Scalar,
            FieldView::Array(s) => FieldShape::Array(s.len() as usize),
        }
    }

    /// An array field's length fits its shape.
    pub open spec fn fits(self) -> bool {
        match self {
            FieldView::Scalar(_) => true,
            FieldView::Array(s) => s.len() <= usize::MAX,
        }
    }
}

impl<T> View for Field<T> {
    type V = FieldView<T>;

    open spec fn view(&self) -> FieldView<T> {
        match self {
            Field::Scalar(x) => FieldView::Scalar(*x),
            Field::Array(v) => FieldView::Array(v@),
        }
    }
}

/// How many elements a record of this shape holds.
pub open spec fn width(shape: Seq<FieldShape>) -> nat
    decreases shape.len(),
{
    if shape.len() == 0 {
        0
    } else {
        width(shape.drop_last()) + match shape.last() {
            FieldShape::Scalar => 1nat,
            FieldShape::Array(n) => n as nat,
        }
    }
}

/// The fields' elements concatenated in declared order.
pub open spec fn flat_of<T>(fs: Seq<FieldView<T>>) -> Seq<T>
    decreases fs.len(),
{
    if fs.len() == 0 {
        Seq::empty()
    } else {
        flat_of(fs.drop_last()) + fs.last().items()
    }
}

pub open spec fn shape_of<T>(fs: Seq<FieldView<T>>) -> Seq<FieldShape> {
    fs.map_values(|f: FieldView<T>| f.shape())
}

/// The model of each field.
pub open spec fn views<T>(fs: Seq<Field<T>>) -> Seq<FieldView<T>> {
    fs.map_values(|f: Field<T>| f@)
}

/// A record of scalar and array fields, in declared order.
#[derive(Clone, Debug, PartialEq)]
pub struct Record<T> {
    pub fields: Vec<Field<T>>,
}

impl<T> View for Record<T> {
    type V = Seq<FieldView<T>>;

    open spec fn view(&self) -> Seq<FieldView<T>> {
        views(self.fields@)
    }
}

proof fn lemma_flat_len<T>(fs: Seq<FieldView<T>>)
    requires
        forall|i: int| 0 <= i < fs.len() ==> (#[trigger] fs[i]).fits(),
    ensures
        flat_of(fs).len() == width(shape_of(fs)),
    decreases fs.len(),
{
    if fs.len() > 0 {
        assert(shape_of(fs).drop_last() =~= shape_of(fs.drop_last()));
        lemma_flat_len(fs.drop_last());
        assert(fs.last().fits());
    }
}

/// Two records of one shape with the same elements are the same record.
pub proof fn lemma_record_injective<T>(a: Seq<FieldView<T>>, b: Seq<FieldView<T>>)
    requires
        forall|i: int| 0 <= i < a.len() ==> (#[trigger] a[i]).fits(),
        forall|i: int| 0 <= i < b.len() ==> (#[trigger] b[i]).fits(),
        shape_of(a) == shape_of(b),
        flat_of(a) == flat_of(b),
    ensures
        a == b,
    decreases a.len(),
{
    assert(a.len() == shape_of(a).len());
    assert(b.len() == shape_of(b).len());
    if a.len() > 0 {
        let (pa, pb) = (a.drop_last(), b.drop_last());
        assert(shape_of(a).drop_last() =~= shape_of(pa));
        assert(shape_of(b).drop_last() =~= shape_of(pb));
        lemma_flat_len(pa);
        lemma_flat_len(pb);
        let k = flat_of(pa).len() as int;
        assert(flat_of(a).subrange(0, k) =~= flat_of(pa));
        assert(flat_of(b).subrange(0, k) =~= flat_of(pb));
        lemma_record_injective(pa, pb);
        let (la, lb) = (a.last(), b.last());
        assert(shape_of(a)[a.len() - 1] == shape_of(b)[a.len() - 1]);
        assert(flat_of(a).subrange(k, flat_of(a).len() as int) =~= la.items());
        assert(flat_of(b).subrange(k, flat_of(b).len() as int) =~= lb.items());
        assert(la.items() == lb.items());
        assert(shape_of(a)[a.len() - 1] == la.shape());
        assert(shape_of(b)[a.len() - 1] == lb.shape());
        assert(la.fits() && lb.fits());
        match (la, lb) {
            (FieldView::Scalar(x), FieldView::Scalar(y)) => {
                assert(la.items()[0] == x);
                assert(lb.items()[0] == y);
                assert(la == lb);
            },
            (FieldView::Array(s), FieldView::Array(t)) => {
                assert(s == la.items());
                assert(t == lb.items());
                assert(la == lb);
            },
            (FieldView::Scalar(_), FieldView::Array(_)) => {
                assert(la.shape() != lb.shape());
            },
            (FieldView::Array(_), FieldView::Scalar(_)) => {
                assert(la.shape() != lb.shape());
            },
        }
        assert(la == lb);
        assert forall|i: int| 0 <= i < a.len() implies a[i] == b[i] by {
            if i < a.len() - 1 {
                assert(a[i] == pa[i]);
                assert(b[i] == pb[i]);
            }
        }
        assert(a =~= b);
    }
}

impl<T: Copy> Record<T> {
    /// The record of shape `shape` whose elements, in declared order, are
    /// `input`.
    pub fn from_flat(shape: &Vec<FieldShape>, input: Vec<T>) -> (r: Record<T>)
        requires
            input.len() == width(shape@),
        ensures
            shape_of(r@) == shape@,
            flat_of(r@) == input@,
            forall|i: int| 0 <= i < r@.len() ==> (#[trigger] r@[i]).fits(),
    {
        let mut fields: Vec<Field<T>> = Vec::new();
        let mut pos: usize = 0;
        let mut k: usize = 0;
        while k < shape.len()
            invariant
                k <= shape.len(),
                input.len() == width(shape@),
                fields.len() == k,
                pos == width(shape@.take(k as int)),
                shape_of(views(fields@)) == shape@.take(k as int),
                flat_of(views(fields@)) == input@.take(pos as int),
                forall|i: int| 0 <= i < k ==> (#[trigger] views(fields@)[i]).fits(),
            decreases shape.len() - k,
        {
            proof {
                lemma_width_prefix(shape@, k as int);
            }
            let ghost before = views(fields@);
            let field = match shape[k] {
                FieldShape::Scalar => Field::Scalar(input[pos]),
                FieldShape::Array(n) => {
                    let mut v: Vec<T> = Vec::new();
                    let mut j: usize = 0;
                    while j < n
                        invariant
                            j <= n,
                            pos + n <= input.len(),
                            v@ == input@.subrange(pos as int, pos + j),
                        decreases n - j,
                    {
                        v.push(input[pos + j]);
                        j = j + 1;
                        proof {
                            assert(v@ =~= input@.subrange(pos as int, pos + j));
                        }
                    }
                    Field::Array(v)
                },
            };
            let step: usize = match shape[k] {
                FieldShape::Scalar => 1,
                FieldShape::Array(n) => n,
            };
            fields.push(field);
            proof {
                let now = views(fields@);
                assert(now.drop_last() =~= before);
                assert(now.last().fits());
                assert(forall|i: int| 0 <= i < k ==> now[i] == before[i]);
                assert(shape@.take(k + 1).drop_last() =~= shape@.take(k as int));
                assert(shape_of(now) =~= shape@.take(k + 1));
                assert(now.last().items() =~= input@.subrange(pos as int, pos + step));
                assert(input@.take(pos + step) =~= input@.take(pos as int) + input@.subrange(pos as int, pos + step));
            }
            pos = pos + step;
            k = k + 1;
        }
        proof {
            assert(shape@.take(k as int) =~= shape@);
            assert(input@.take(pos as int) =~= input@);
        }
        Record { fields }
    }

    /// The elements of the record, in declared order.
    pub fn to_flat(&self) -> (r: Vec<T>)
        ensures
            r@ == flat_of(self@),
    {
        let mut r: Vec<T> = Vec::new();
        let mut k: usize = 0;
        while k < self.fields.len()
            invariant
                k <= self.fields.len(),
                r@ == flat_of(self@.take(k as int)),
            decreases self.fields.len() - k,
        {
            let ghost before = r@;
            match &self.fields[k] {
                Field::Scalar(x) => {
                    r.push(*x);
                },
                Field::Array(v) => {
                    let mut j: usize = 0;
                    while j < v.len()
                        invariant
                            j <= v.len(),
                            r@ == before + v@.take(j as int),
                        decreases v.len() - j,
                    {
                        r.push(v[j]);
                        j = j + 1;
                        proof {
                            assert(r@ =~= before + v@.take(j as int));
                        }
                    }
                    proof {
                        assert(v@.take(j as int) =~= v@);
                    }
                },
            }
            proof {
                assert(self@.take(k + 1).drop_last() =~= self@.take(k as int));
                assert(r@ =~= before + self@[k as int].items());
            }
            k = k + 1;
        }
        proof {
            assert(self@.take(k as int) =~= self@);
        }
        r
    }

    /// The shape of the record.
    pub fn shape(&self) -> (r: Vec<FieldShape>)
        ensures
            r@ == shape_of(self@),
    {
        let mut r: Vec<FieldShape> = Vec::new();
        let mut k: usize = 0;
        while k < self.fields.len()
            invariant
                k <= self.fields.len(),
                r@ == shape_of(self@.take(k as int)),
            decreases self.fields.len() - k,
        {
            let s = match &self.fields[k] {
                Field::Scalar(_) => FieldShape::Scalar,
                Field::Array(v) => FieldShape::Array(v.len()),
            };
            r.push(s);
            proof {
                assert(r@ =~= shape_of(self@.take(k + 1)));
            }
            k = k + 1;
        }
        proof {
            assert(self@.take(k as int) =~= self@);
        }
        r
    }
}

proof fn lemma_width_prefix(shape: Seq<FieldShape>, k: int)
    requires
        0 <= k < shape.len(),
    ensures
        width(shape.take(k + 1)) == width(shape.take(k)) + match shape[k] {
            FieldShape::Scalar => 1nat,
            FieldShape::Array(n) => n as nat,
        },
        width(shape.take(k + 1)) <= width(shape),
{
    assert(shape.take(k + 1).drop_last() =~= shape.take(k));
    lemma_width_mono(shape, k + 1);
}

proof fn lemma_width_mono(shape: Seq<FieldShape>, k: int)
    requires
        0 <= k <= shape.len(),
    ensures
        width(shape.take(k)) <= width(shape),
    decreases shape.len() - k,
{
    if k < shape.len() {
        assert(shape.take(k + 1).drop_last() =~= shape.take(k));
        lemma_width_mono(shape, k + 1);
    } else {
        assert(shape.take(k) =~= shape);
    }
}

impl<T: Copy> Record<T> {
    /// Flattening the record and rebuilding it with its own shape gives the
    /// record back.
    pub fn round_trip(&self) -> (r: Record<T>)
        requires
            forall|i: int| 0 <= i < self@.len() ==> (#[trigger] self@[i]).fits(),
        ensures
            r@ == self@,
    {
        let shape = self.shape();
        let flat = self.to_flat();
        proof {
            lemma_flat_len(self@);
        }
        let r = Record::from_flat(&shape, flat);
        proof {
            lemma_record_injective(r@, self@);
        }
        r
    }

    /// Rebuilding a record of shape `shape` from `a` and flattening it gives
    /// `a` back.
    pub fn flat_round_trip(shape: &Vec<FieldShape>, a: Vec<T>) -> (r: Vec<T>)
        requires
            a.len() == width(shape@),
        ensures
            r@ == a@,
    {
        let x = Record::from_flat(shape, a);
        x.to_flat()
    }
}

} // verus!
