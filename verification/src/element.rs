//! The value model: the tagged element type shared by parser and
//! evaluator, its mathematical view, and its accessors.

use vstd::prelude::*;
use vstd::string::StringExecFns;

use crate::errors::{EvalError, Kind, kind_of};

verus! {

/// The built-in behaviors that the base scope is pre-populated with.
///
/// The registry maps operator words to callables; each callable is one
/// variant, and the stack machine dispatches on it.
#[derive(Debug, PartialEq, Eq, Structural, Clone, Copy)]
pub enum NativeOperation {
    Add,
    Subtract,
    Multiply,
    Divide,
    LessThan,
    If,
    Def,
    For,
    While,
    Puts,
    Pop,
    Dup,
    Exch,
    Index,
}

/// Mathematical model of an `Element`: numbers are unbounded integers,
/// strings are character sequences, blocks are value sequences.
pub enum ElemV {
    Num(int),
    Op(Seq<char>),
    Sym(Seq<char>),
    Blk(Seq<ElemV>),
    Native(NativeOperation),
}

/// A value of the language: parser output and the currency of the evaluator.
#[derive(Debug, PartialEq)]
pub enum Element {
    /// A numeric literal. The language has a single numeric kind: a 32-bit
    /// integer with wrap-around arithmetic.
    Number(i32),
    /// A deferred name, looked up in scope at evaluation time.
    Operation(String),
    /// An inert name produced from a `/name` token; the target of `def`.
    Symbol(String),
    /// An unevaluated sub-program.
    Block(Block),
    /// A built-in behavior; only the registry installs these, never source text.
    NativeOperation(NativeOperation),
}

/// An immutable, ordered sequence of elements: a deferred sub-program.
#[derive(Debug, PartialEq)]
pub struct Block {
    pub tokens: Vec<Element>,
}

/// The model of an element.
pub open spec fn elem_view(e: Element) -> ElemV
    decreases e,
{
    match e {
        Element::Number(n) => ElemV::Num(n as int),
        Element::Operation(s) => ElemV::Op(s@),
        Element::Symbol(s) => ElemV::Sym(s@),
        Element::Block(b) => ElemV::Blk(elems_view(b.tokens@)),
        Element::NativeOperation(n) => ElemV::Native(n),
    }
}

/// The models of a sequence of elements, in order.
pub open spec fn elems_view(ts: Seq<Element>) -> Seq<ElemV>
    decreases ts,
{
    if ts.len() == 0 {
        Seq::empty()
    } else {
        elems_view(ts.drop_last()).push(elem_view(ts.last()))
    }
}

/// `elems_view` maps the sequence pointwise.
pub broadcast proof fn lemma_elems_view_len(ts: Seq<Element>)
    ensures
        #[trigger] elems_view(ts).len() == ts.len(),
    decreases ts.len(),
{
    if ts.len() > 0 {
        lemma_elems_view_len(ts.drop_last());
    }
}

/// Each position of `elems_view` is the view of the element at that position.
pub broadcast proof fn lemma_elems_view_index(ts: Seq<Element>, i: int)
    requires
        0 <= i < ts.len(),
    ensures
        #[trigger] elems_view(ts)[i] == elem_view(ts[i]),
    decreases ts.len(),
{
    lemma_elems_view_len(ts);
    if i < ts.len() - 1 {
        lemma_elems_view_index(ts.drop_last(), i);
        lemma_elems_view_len(ts.drop_last());
    }
}


/// Appending one element appends its model to the sequence view.
pub proof fn lemma_elems_view_push(ts: Seq<Element>, e: Element)
    ensures
        elems_view(ts.push(e)) == elems_view(ts).push(elem_view(e)),
{
    assert(ts.push(e).drop_last() =~= ts);
    assert(ts.push(e).last() == e);
}

/// Dropping the last element drops the last model.
pub proof fn lemma_elems_view_drop_last(ts: Seq<Element>)
    requires
        ts.len() > 0,
    ensures
        elems_view(ts.drop_last()) == elems_view(ts).drop_last(),
{
    assert(elems_view(ts.drop_last()).push(elem_view(ts.last())).drop_last() =~= elems_view(
        ts.drop_last(),
    ));
}

/// Every number in an element sequence's model fits in 32 signed bits.
pub proof fn lemma_elems_view_num_range(ts: Seq<Element>, i: int)
    requires
        0 <= i < ts.len(),
    ensures
        elems_view(ts)[i] is Num ==> -0x8000_0000 <= elems_view(ts)[i]->Num_0 < 0x8000_0000,
    decreases ts.len(),
{
    lemma_elems_view_len(ts);
    lemma_elems_view_len(ts.drop_last());
    if i < ts.len() - 1 {
        lemma_elems_view_num_range(ts.drop_last(), i);
    } else {
        assert(elems_view(ts)[i] == elem_view(ts.last()));
    }
}

impl DeepView for Element {
    type V = ElemV;

    open spec fn deep_view(&self) -> ElemV {
        elem_view(*self)
    }
}

impl DeepView for Block {
    type V = Seq<ElemV>;

    open spec fn deep_view(&self) -> Seq<ElemV> {
        elems_view(self.tokens@)
    }
}

/// A deep copy of a sequence of elements.
pub(crate) fn clone_elems(ts: &Vec<Element>) -> (res: Vec<Element>)
    ensures
        elems_view(res@) == elems_view(ts@),
    decreases ts,
{
    let mut res: Vec<Element> = Vec::new();
    let mut i: usize = 0;
    while i < ts.len()
        invariant
            i <= ts.len(),
            res@.len() == i,
            forall|j: int| 0 <= j < i ==> elem_view(res@[j]) == elem_view(ts@[j]),
        decreases ts.len() - i,
    {
        proof {
            assert(decreases_to!(ts => ts@[i as int]));
        }
        res.push(ts[i].clone());
        i = i + 1;
    }
    proof {
        broadcast use {lemma_elems_view_len, lemma_elems_view_index};

        assert(elems_view(res@) =~= elems_view(ts@));
    }
    res
}

impl Clone for Block {
    fn clone(&self) -> (res: Self)
        ensures
            res.deep_view() == self.deep_view(),
        decreases self,
    {
        Block { tokens: clone_elems(&self.tokens) }
    }
}

impl Clone for Element {
    fn clone(&self) -> (res: Self)
        ensures
            res.deep_view() == self.deep_view(),
        decreases self,
    {
        match self {
            Element::Number(n) => Element::Number(*n),
            Element::Operation(s) => Element::Operation(s.clone()),
            Element::Symbol(s) => Element::Symbol(s.clone()),
            Element::Block(b) => Element::Block(b.clone()),
            Element::NativeOperation(n) => Element::NativeOperation(*n),
        }
    }
}

impl Element {
    /// The kind tag of this element.
    pub fn kind(&self) -> (k: Kind)
        ensures
            k == kind_of(self.deep_view()),
    {
        match self {
            Element::Number(_) => Kind::Number,
            Element::Operation(_) => Kind::Operation,
            Element::Symbol(_) => Kind::Symbol,
            Element::Block(_) => Kind::Block,
            Element::NativeOperation(_) => Kind::NativeOperation,
        }
    }

    /// The numeric value carried by this element, or a `TypeError`
    /// naming the kind actually found.
    pub fn as_number(&self) -> (r: Result<i32, EvalError>)
        ensures
            match r {
                Ok(n) => self.deep_view() == ElemV::Num(n as int),
                Err(e) => !(self.deep_view() is Num) && e == (EvalError::TypeError {
                    expected: Kind::Number,
                    actual: kind_of(self.deep_view()),
                }),
            },
    {
        match self {
            Element::Number(n) => Ok(*n),
            _ => Err(
                EvalError::TypeError { expected: Kind::Number, actual: self.kind() },
            ),
        }
    }

    /// The name carried by a symbol, or a `TypeError`.
    pub fn as_symbol(&self) -> (r: Result<String, EvalError>)
        ensures
            match r {
                Ok(s) => self.deep_view() == ElemV::Sym(s@),
                Err(e) => !(self.deep_view() is Sym) && e == (EvalError::TypeError {
                    expected: Kind::Symbol,
                    actual: kind_of(self.deep_view()),
                }),
            },
    {
        match self {
            Element::Symbol(s) => Ok(s.clone()),
            _ => Err(
                EvalError::TypeError { expected: Kind::Symbol, actual: self.kind() },
            ),
        }
    }

    /// The elements of a block, or a `TypeError`.
    pub fn to_block_vec(&self) -> (r: Result<Vec<Element>, EvalError>)
        ensures
            match r {
                Ok(v) => self.deep_view() == ElemV::Blk(elems_view(v@)),
                Err(e) => !(self.deep_view() is Blk) && e == (EvalError::TypeError {
                    expected: Kind::Block,
                    actual: kind_of(self.deep_view()),
                }),
            },
    {
        match self {
            Element::Block(b) => Ok(b.to_vec()),
            _ => Err(
                EvalError::TypeError { expected: Kind::Block, actual: self.kind() },
            ),
        }
    }
}

impl Block {
    /// Wraps a sequence of elements as a block.
    pub fn from_vec(tokens: Vec<Element>) -> (b: Block)
        ensures
            b.deep_view() == elems_view(tokens@),
    {
        Block { tokens }
    }

    /// A copy of the block's elements, in order.
    pub fn to_vec(&self) -> (v: Vec<Element>)
        ensures
            elems_view(v@) == self.deep_view(),
    {
        clone_elems(&self.tokens)
    }
}


/// The character of one decimal digit value.
pub open spec fn digit_char(d: nat) -> char {
    ((d + 48) as u8) as char
}

/// The decimal digits of `n`, most significant first.
pub open spec fn dec_digits(n: nat) -> Seq<char>
    decreases n,
{
    if n < 10 {
        seq![digit_char(n)]
    } else {
        dec_digits(n / 10).push(digit_char(n % 10))
    }
}

/// The decimal rendering of an integer, with a leading minus sign when
/// it is negative.
pub open spec fn int_str(v: int) -> Seq<char> {
    if v < 0 {
        seq!['-'] + dec_digits((-v) as nat)
    } else {
        dec_digits(v as nat)
    }
}

/// What an element renders as: numbers in decimal, names as
/// themselves, blocks and natives as fixed tags.
pub open spec fn elem_str(e: ElemV) -> Seq<char> {
    match e {
        ElemV::Num(n) => int_str(n),
        ElemV::Op(s) => s,
        ElemV::Sym(s) => s,
        ElemV::Blk(_) => "<Block>"@,
        ElemV::Native(_) => "<NativeOp>"@,
    }
}

/// One decimal digit as text.
fn digit_str(d: u32) -> (r: &'static str)
    requires
        d < 10,
    ensures
        r@ == seq![digit_char(d as nat)],
{
    proof {
        reveal_strlit("0");
        reveal_strlit("1");
        reveal_strlit("2");
        reveal_strlit("3");
        reveal_strlit("4");
        reveal_strlit("5");
        reveal_strlit("6");
        reveal_strlit("7");
        reveal_strlit("8");
        reveal_strlit("9");
    }
    let r = match d {
        0 => "0",
        1 => "1",
        2 => "2",
        3 => "3",
        4 => "4",
        5 => "5",
        6 => "6",
        7 => "7",
        8 => "8",
        _ => "9",
    };
    proof {
        assert(r@ =~= seq![digit_char(d as nat)]);
    }
    r
}

/// The digit characters of a digit stack, least significant last.
spec fn rev_digit_chars(ds: Seq<u32>) -> Seq<char> {
    Seq::new(ds.len(), |i: int| digit_char(ds[ds.len() - 1 - i] as nat))
}

/// The decimal rendering of a 32-bit integer.
fn int_to_string(n: i32) -> (r: String)
    ensures
        r@ == int_str(n as int),
{
    let neg = n < 0;
    let mut m: u32 = if n < 0 {
        (-(n as i64)) as u32
    } else {
        n as u32
    };
    let ghost n0 = m as nat;
    let mut digits: Vec<u32> = Vec::new();
    proof {
        assert(rev_digit_chars(digits@) =~= Seq::<char>::empty());
        assert(dec_digits(n0) + rev_digit_chars(digits@) =~= dec_digits(n0));
    }
    while m >= 10
        invariant
            dec_digits(n0) == dec_digits(m as nat) + rev_digit_chars(digits@),
            forall|k: int| 0 <= k < digits@.len() ==> #[trigger] digits@[k] < 10,
        decreases m,
    {
        let d = m % 10;
        let ghost ds0 = digits@;
        digits.push(d);
        proof {
            assert(rev_digit_chars(digits@) =~= seq![digit_char(d as nat)] + rev_digit_chars(
                ds0,
            ));
            assert(dec_digits((m / 10) as nat).push(digit_char((m % 10) as nat))
                + rev_digit_chars(ds0) =~= dec_digits((m / 10) as nat) + rev_digit_chars(
                digits@,
            ));
            vstd::arithmetic::div_mod::lemma_div_decreases(m as int, 10);
        }
        m = m / 10;
    }
    let ghost ds0 = digits@;
    digits.push(m);
    proof {
        assert(rev_digit_chars(digits@) =~= seq![digit_char(m as nat)] + rev_digit_chars(ds0));
        assert(dec_digits(n0) =~= rev_digit_chars(digits@));
    }
    let mut s = String::new();
    if neg {
        s.append("-");
        proof {
            reveal_strlit("-");
            assert(s@ =~= seq!['-']);
        }
    }
    let ghost sign = s@;
    let ghost target = rev_digit_chars(digits@);
    let mut j = digits.len();
    proof {
        assert(s@ =~= sign + target.take(0));
    }
    while j > 0
        invariant
            j <= digits@.len(),
            target == rev_digit_chars(digits@),
            target.len() == digits@.len(),
            sign == if neg {
                seq!['-']
            } else {
                Seq::<char>::empty()
            },
            forall|k: int| 0 <= k < digits@.len() ==> #[trigger] digits@[k] < 10,
            s@ == sign + target.take(digits@.len() - j),
        decreases j,
    {
        j = j - 1;
        let piece = digit_str(digits[j]);
        s.append(piece);
        proof {
            assert(target[digits@.len() - 1 - j] == digit_char(digits@[j as int] as nat));
            assert(s@ =~= sign + target.take(digits@.len() - j));
        }
    }
    proof {
        assert(target.take(digits@.len() as int) =~= target);
        if neg {
            assert(s@ =~= seq!['-'] + dec_digits((-(n as int)) as nat));
        } else {
            assert(s@ =~= dec_digits(n as nat));
        }
    }
    s
}

impl Element {
    /// Renders the element as text, as its `Debug`-free display form.
    pub fn to_string(&self) -> (r: String)
        ensures
            r@ == elem_str(self.deep_view()),
    {
        match self {
            Element::Number(n) => int_to_string(*n),
            Element::Operation(s) => s.clone(),
            Element::Symbol(s) => s.clone(),
            Element::Block(_) => String::from_str("<Block>"),
            Element::NativeOperation(_) => String::from_str("<NativeOp>"),
        }
    }
}

} // verus!
