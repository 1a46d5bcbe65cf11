//! The executable stack machine: operand stack, scope chain and
//! output buffer, with an evaluator proved to follow the step
//! semantics exactly.

use vstd::prelude::*;
use vstd::string::StringExecFns;

use crate::element::{Block, Element, ElemV, NativeOperation, elem_view, elems_view,
    lemma_elems_view_index, lemma_elems_view_len, lemma_elems_view_push,
    lemma_elems_view_drop_last, lemma_elems_view_num_range, clone_elems};
use crate::errors::{EvalError, Kind, kind_of};
use crate::semantics::{MachineV, ScopeV, StepR, WorkV, apply_native, define, ev_rev, frame_get,
    load, lookup, run, scopes_trunc, step, unwind, work_wf, work_item_wf, stack_num_wf,
    lemma_step_preserves_wf, lemma_run_succ, lemma_run_next_prefix};

verus! {

/// A pending piece of work of the executable machine.
pub(crate) enum Work {
    Ev(Element),
    PopScope,
    IfDone(Vec<Element>, Vec<Element>),
    DefDone,
    ForNext(i64, i64, Vec<Element>),
    WhileDone(Vec<Element>, Vec<Element>),
}

/// The model of a work item.
pub(crate) open spec fn work_view(w: Work) -> WorkV {
    match w {
        Work::Ev(e) => WorkV::Ev(elem_view(e)),
        Work::PopScope => WorkV::PopScope,
        Work::IfDone(t, f) => WorkV::IfDone(elems_view(t@), elems_view(f@)),
        Work::DefDone => WorkV::DefDone,
        Work::ForNext(i, end, b) => WorkV::ForNext(i as int, end as int, elems_view(b@)),
        Work::WhileDone(c, b) => WorkV::WhileDone(elems_view(c@), elems_view(b@)),
    }
}

/// The models of a work stack.
pub(crate) open spec fn works_view(ws: Seq<Work>) -> Seq<WorkV> {
    Seq::new(ws.len(), |i: int| work_view(ws[i]))
}

/// The model of one scope frame.
pub(crate) open spec fn frame_view(f: Seq<(String, Element)>) -> ScopeV {
    Seq::new(f.len(), |i: int| (f[i].0@, elem_view(f[i].1)))
}

/// The models of the scope chain.
pub(crate) open spec fn scopes_view(vs: Seq<Vec<(String, Element)>>) -> Seq<ScopeV> {
    Seq::new(vs.len(), |i: int| frame_view(vs[i]@))
}

/// The models of the output buffer.
pub open spec fn outs_view(os: Seq<i32>) -> Seq<int> {
    Seq::new(os.len(), |i: int| os[i] as int)
}

/// The stack machine: operand stack, scope chain, `puts` output.
#[derive(Debug)]
pub struct Stack {
    list: Vec<Element>,
    variables: Vec<Vec<(String, Element)>>,
    outputs: Vec<i32>,
}

/// The machine state made of a `Stack`'s parts and a work stack.
spec fn machine_at(s: Stack, w: Seq<WorkV>) -> MachineV {
    MachineV {
        stack: elems_view(s.list@),
        scopes: scopes_view(s.variables@),
        outputs: outs_view(s.outputs@),
        work: w,
    }
}

impl View for Stack {
    type V = MachineV;

    closed spec fn view(&self) -> MachineV {
        machine_at(*self, Seq::empty())
    }
}

/// The base scope: the fixed registry of native operations, installed
/// at machine start and shadowable by user `def`.
pub open spec fn base_frame() -> ScopeV {
    seq![
        ("+"@, ElemV::Native(NativeOperation::Add)),
        ("-"@, ElemV::Native(NativeOperation::Subtract)),
        ("*"@, ElemV::Native(NativeOperation::Multiply)),
        ("/"@, ElemV::Native(NativeOperation::Divide)),
        ("<"@, ElemV::Native(NativeOperation::LessThan)),
        ("if"@, ElemV::Native(NativeOperation::If)),
        ("def"@, ElemV::Native(NativeOperation::Def)),
        ("for"@, ElemV::Native(NativeOperation::For)),
        ("while"@, ElemV::Native(NativeOperation::While)),
        ("puts"@, ElemV::Native(NativeOperation::Puts)),
        ("pop"@, ElemV::Native(NativeOperation::Pop)),
        ("dup"@, ElemV::Native(NativeOperation::Dup)),
        ("exch"@, ElemV::Native(NativeOperation::Exch)),
        ("index"@, ElemV::Native(NativeOperation::Index)),
    ]
}

/// The state a machine starts in.
pub open spec fn initial_machine() -> MachineV {
    MachineV {
        stack: Seq::empty(),
        scopes: seq![base_frame()],
        outputs: Seq::empty(),
        work: Seq::empty(),
    }
}

impl Stack {
    /// A machine with an empty operand stack, an empty output buffer,
    /// and the native registry as its one scope frame.
    pub fn new() -> (s: Stack)
        ensures
            s@ == initial_machine(),
    {
        let mut frame: Vec<(String, Element)> = Vec::new();
        frame.push((String::from_str("+"), Element::NativeOperation(NativeOperation::Add)));
        frame.push((String::from_str("-"), Element::NativeOperation(NativeOperation::Subtract)));
        frame.push((String::from_str("*"), Element::NativeOperation(NativeOperation::Multiply)));
        frame.push((String::from_str("/"), Element::NativeOperation(NativeOperation::Divide)));
        frame.push((String::from_str("<"), Element::NativeOperation(NativeOperation::LessThan)));
        frame.push((String::from_str("if"), Element::NativeOperation(NativeOperation::If)));
        frame.push((String::from_str("def"), Element::NativeOperation(NativeOperation::Def)));
        frame.push((String::from_str("for"), Element::NativeOperation(NativeOperation::For)));
        frame.push((String::from_str("while"), Element::NativeOperation(NativeOperation::While)));
        frame.push((String::from_str("puts"), Element::NativeOperation(NativeOperation::Puts)));
        frame.push((String::from_str("pop"), Element::NativeOperation(NativeOperation::Pop)));
        frame.push((String::from_str("dup"), Element::NativeOperation(NativeOperation::Dup)));
        frame.push((String::from_str("exch"), Element::NativeOperation(NativeOperation::Exch)));
        frame.push((String::from_str("index"), Element::NativeOperation(NativeOperation::Index)));
        let mut variables: Vec<Vec<(String, Element)>> = Vec::new();
        variables.push(frame);
        let s = Stack { list: Vec::new(), variables, outputs: Vec::new() };
        proof {
            assert(frame_view(s.variables@[0]@) =~= base_frame());
            assert(scopes_view(s.variables@) =~= seq![base_frame()]);
            assert(s@ =~= initial_machine()) by {
                assert(elems_view(s.list@) =~= Seq::<ElemV>::empty());
                assert(outs_view(s.outputs@) =~= Seq::<int>::empty());
            }
        }
        s
    }

    /// The accumulated `puts` outputs, in order.
    pub fn outputs(&self) -> (r: &Vec<i32>)
        ensures
            outs_view(r@) == self@.outputs,
    {
        &self.outputs
    }

    /// Read-only inspection of the operand stack, bottom first.
    pub fn list(&self) -> (r: &Vec<Element>)
        ensures
            elems_view(r@) == self@.stack,
    {
        &self.list
    }
}


impl Stack {
    /// Removes and returns the top of the operand stack.
    fn pop_elem(&mut self) -> (r: Result<Element, EvalError>)
        ensures
            final(self).variables == old(self).variables,
            final(self).outputs == old(self).outputs,
            match r {
                Ok(e) => {
                    &&& old(self).list@.len() > 0
                    &&& elem_view(e) == elems_view(old(self).list@).last()
                    &&& final(self).list@ == old(self).list@.drop_last()
                },
                Err(er) => {
                    &&& er == EvalError::StackUnderflow
                    &&& old(self).list@.len() == 0
                    &&& final(self).list@ == old(self).list@
                },
            },
    {
        match self.list.pop() {
            Some(e) => {
                proof {
                    lemma_elems_view_len(old(self).list@);
                    assert(self.list@ =~= old(self).list@.drop_last());
                    assert(elems_view(old(self).list@).last() == elem_view(old(self).list@.last()));
                }
                Ok(e)
            },
            None => Err(EvalError::StackUnderflow),
        }
    }

    /// Pops the top of the stack and reads it as a number; popping
    /// happens even when the kind check then fails.
    fn pop_number(&mut self) -> (r: Result<i32, EvalError>)
        ensures
            final(self).variables == old(self).variables,
            final(self).outputs == old(self).outputs,
            match r {
                Ok(n) => {
                    &&& old(self).list@.len() > 0
                    &&& elems_view(old(self).list@).last() == ElemV::Num(n as int)
                    &&& final(self).list@ == old(self).list@.drop_last()
                },
                Err(er) => if old(self).list@.len() == 0 {
                    er == EvalError::StackUnderflow && final(self).list@ == old(self).list@
                } else {
                    let top = elems_view(old(self).list@).last();
                    &&& !(top is Num)
                    &&& er == (EvalError::TypeError {
                        expected: Kind::Number,
                        actual: kind_of(top),
                    })
                    &&& final(self).list@ == old(self).list@.drop_last()
                },
            },
    {
        let e = match self.pop_elem() {
            Ok(e) => e,
            Err(er) => {
                return Err(er);
            },
        };
        match e.as_number() {
            Ok(n) => Ok(n),
            Err(er) => Err(er),
        }
    }

    /// Pops the top of the stack and reads it as a block's elements.
    fn pop_block(&mut self) -> (r: Result<Vec<Element>, EvalError>)
        ensures
            final(self).variables == old(self).variables,
            final(self).outputs == old(self).outputs,
            match r {
                Ok(ts) => {
                    &&& old(self).list@.len() > 0
                    &&& elems_view(old(self).list@).last() == ElemV::Blk(elems_view(ts@))
                    &&& final(self).list@ == old(self).list@.drop_last()
                },
                Err(er) => if old(self).list@.len() == 0 {
                    er == EvalError::StackUnderflow && final(self).list@ == old(self).list@
                } else {
                    let top = elems_view(old(self).list@).last();
                    &&& !(top is Blk)
                    &&& er == (EvalError::TypeError {
                        expected: Kind::Block,
                        actual: kind_of(top),
                    })
                    &&& final(self).list@ == old(self).list@.drop_last()
                },
            },
    {
        let e = match self.pop_elem() {
            Ok(e) => e,
            Err(er) => {
                return Err(er);
            },
        };
        match e.to_block_vec() {
            Ok(ts) => Ok(ts),
            Err(er) => Err(er),
        }
    }

    /// Opens a fresh innermost scope frame.
    fn push_frame(&mut self)
        ensures
            final(self).list == old(self).list,
            final(self).outputs == old(self).outputs,
            scopes_view(final(self).variables@) == scopes_view(old(self).variables@).push(
                Seq::empty(),
            ),
    {
        self.variables.push(Vec::new());
        proof {
            assert(frame_view(self.variables@.last()@) =~= Seq::<(Seq<char>, ElemV)>::empty());
            assert(scopes_view(self.variables@) =~~= scopes_view(old(self).variables@).push(
                Seq::empty(),
            ));
        }
    }

    /// Binds `name` to `value` in the innermost scope frame.
    fn define_var(&mut self, name: String, value: Element)
        requires
            old(self).variables@.len() > 0,
        ensures
            final(self).list == old(self).list,
            final(self).outputs == old(self).outputs,
            scopes_view(final(self).variables@) == define(
                scopes_view(old(self).variables@),
                name@,
                elem_view(value),
            ),
    {
        let ghost v0 = self.variables@;
        let ghost entry = (name@, elem_view(value));
        let mut top = self.variables.pop().unwrap();
        top.push((name, value));
        self.variables.push(top);
        proof {
            assert(frame_view(top@) =~= frame_view(v0.last()@).push(entry));
            assert(scopes_view(self.variables@) =~~= define(scopes_view(v0), entry.0, entry.1));
        }
    }

    /// Resolves `name` through the scope chain, innermost first.
    fn lookup_var(&self, name: &String) -> (r: Option<Element>)
        ensures
            match r {
                Some(e) => lookup(scopes_view(self.variables@), name@) == Some(elem_view(e)),
                None => lookup(scopes_view(self.variables@), name@) is None,
            },
    {
        let ghost chain = scopes_view(self.variables@);
        let mut fi = self.variables.len();
        proof {
            assert(chain.take(fi as int) =~= chain);
        }
        while fi > 0
            invariant
                fi <= self.variables@.len(),
                chain == scopes_view(self.variables@),
                lookup(chain, name@) == lookup(chain.take(fi as int), name@),
            decreases fi,
        {
            let frame = &self.variables[fi - 1];
            let ghost fv = frame_view(frame@);
            proof {
                assert(chain[fi - 1] == fv);
            }
            let mut ei = frame.len();
            proof {
                assert(fv.take(ei as int) =~= fv);
            }
            while ei > 0
                invariant
                    ei <= frame@.len(),
                    0 < fi <= chain.len(),
                    chain == scopes_view(self.variables@),
                    fv == frame_view(self.variables@[fi - 1]@),
                    fv == frame_view(frame@),
                    chain[fi - 1] == fv,
                    lookup(chain, name@) == lookup(chain.take(fi as int), name@),
                    frame_get(fv, name@) == frame_get(fv.take(ei as int), name@),
                decreases ei,
            {
                if frame[ei - 1].0.eq(name) {
                    let found = frame[ei - 1].1.clone();
                    proof {
                        assert(fv[ei - 1] == (frame@[ei - 1].0@, elem_view(frame@[ei - 1].1)));
                        assert(fv.take(ei as int).last() == fv[ei - 1]);
                        assert(frame_get(fv, name@) == Some(elem_view(frame@[ei - 1].1)));
                        assert(chain[fi - 1] == fv);
                        assert(chain.take(fi as int).last() == chain[fi - 1]);
                        assert(lookup(chain.take(fi as int), name@) == Some(
                            elem_view(frame@[ei - 1].1),
                        ));
                        assert(lookup(chain, name@) == Some(elem_view(found)));
                    }
                    return Some(found);
                }
                proof {
                    assert(fv[ei - 1] == (frame@[ei - 1].0@, elem_view(frame@[ei - 1].1)));
                    assert(fv.take(ei as int).last() == fv[ei - 1]);
                    assert(fv.take(ei as int).drop_last() =~= fv.take(ei - 1));
                }
                ei = ei - 1;
            }
            proof {
                assert(fv.take(0) =~= Seq::<(Seq<char>, ElemV)>::empty());
                assert(frame_get(fv, name@) is None);
                assert(chain.take(fi as int).last() == chain[fi - 1]);
                assert(chain.take(fi as int).drop_last() =~= chain.take(fi - 1));
            }
            fi = fi - 1;
        }
        proof {
            assert(chain.take(0) =~= Seq::<ScopeV>::empty());
        }
        None
    }
}

/// Appending a work item appends its model to the view.
proof fn lemma_works_view_push(ws: Seq<Work>, w: Work)
    ensures
        works_view(ws.push(w)) == works_view(ws).push(work_view(w)),
{
    assert(works_view(ws.push(w)) =~= works_view(ws).push(work_view(w)));
}

/// Pushes work items that will evaluate the given elements in order.
fn push_ev_rev(work: &mut Vec<Work>, elems: &Vec<Element>)
    ensures
        works_view(final(work)@) == works_view(old(work)@) + ev_rev(elems_view(elems@)),
{
    let ghost w0 = works_view(old(work)@);
    let ghost target = ev_rev(elems_view(elems@));
    let n = elems.len();
    proof {
        lemma_elems_view_len(elems@);
        assert(works_view(work@) =~= w0 + target.take(0));
    }
    let mut j: usize = n;
    while j > 0
        invariant
            j <= n,
            n == elems@.len(),
            target == ev_rev(elems_view(elems@)),
            target.len() == n,
            w0 == works_view(old(work)@),
            works_view(work@) == w0 + target.take(n - j),
        decreases j,
    {
        j = j - 1;
        let e = elems[j].clone();
        let ghost wpre = work@;
        work.push(Work::Ev(e));
        proof {
            lemma_elems_view_index(elems@, j as int);
            assert(elem_view(e) == elems_view(elems@)[j as int]);
            assert(target[n - j - 1] == WorkV::Ev(elems_view(elems@)[j as int]));
            lemma_works_view_push(wpre, Work::Ev(e));
            assert(works_view(work@) =~= w0 + target.take(n - j));
        }
    }
    proof {
        assert(target.take(n as int) =~= target);
    }
}


/// `signed_crop`, spelled out over the range one addition, subtraction
/// or negation of 32-bit values can reach.
proof fn lemma_signed_crop_cases(x: int)
    requires
        -0x1_0000_0000 <= x < 0x1_0000_0000,
    ensures
        vstd::wrapping::i32_specs::signed_crop(x) as int == if x > 0x7FFF_FFFF {
            x - 0x1_0000_0000
        } else if x < -0x8000_0000 {
            x + 0x1_0000_0000
        } else {
            x
        },
{
    if x >= 0 {
        vstd::arithmetic::div_mod::lemma_small_mod(x as nat, 0x1_0000_0000);
    } else {
        vstd::arithmetic::div_mod::lemma_add_mod_noop(x, 0x1_0000_0000, 0x1_0000_0000);
        vstd::arithmetic::div_mod::lemma_small_mod((x + 0x1_0000_0000) as nat, 0x1_0000_0000);
        vstd::arithmetic::div_mod::lemma_mod_self_0(0x1_0000_0000);
    }
}

impl Stack {
    /// Runs one binary numeric operation: pop rhs, pop lhs, push the
    /// 32-bit wrap-around result; division refuses a zero divisor.
    fn do_binop(&mut self, op: NativeOperation, Ghost(gw): Ghost<Seq<WorkV>>) -> (r: Result<
        (),
        EvalError,
    >)
        requires
            crate::semantics::is_binop(op),
        ensures
            match r {
                Ok(_) => crate::semantics::apply_binop(machine_at(*old(self), gw), op)
                    == StepR::Next(machine_at(*final(self), gw)),
                Err(e) => match crate::semantics::apply_binop(machine_at(*old(self), gw), op) {
                    StepR::Fail(mf, ev) => crate::errors::err_matches(e, ev) && machine_at(
                        *final(self),
                        gw,
                    ) == mf,
                    _ => false,
                },
            },
    {
        let ghost m0 = machine_at(*old(self), gw);
        proof {
            lemma_elems_view_len(old(self).list@);
        }
        let rhs = match self.pop_number() {
            Ok(n) => n,
            Err(e) => {
                proof {
                    if old(self).list@.len() > 0 {
                        lemma_elems_view_drop_last(old(self).list@);
                    }
                }
                return Err(e);
            },
        };
        proof {
            lemma_elems_view_len(self.list@);
            lemma_elems_view_drop_last(old(self).list@);
        }
        let lhs = match self.pop_number() {
            Ok(n) => n,
            Err(e) => {
                proof {
                    if old(self).list@.drop_last().len() > 0 {
                        lemma_elems_view_drop_last(old(self).list@.drop_last());
                    }
                }
                return Err(e);
            },
        };
        proof {
            lemma_elems_view_drop_last(old(self).list@.drop_last());
        }
        let result: i32 = match op {
            NativeOperation::Add => {
                proof {
                    lemma_signed_crop_cases(lhs + rhs);
                }
                lhs.wrapping_add(rhs)
            },
            NativeOperation::Subtract => {
                proof {
                    lemma_signed_crop_cases(lhs - rhs);
                }
                lhs.wrapping_sub(rhs)
            },
            NativeOperation::Multiply => lhs.wrapping_mul(rhs),
            NativeOperation::Divide => {
                if rhs == 0 {
                    return Err(
                        EvalError::ArithmeticError(crate::errors::ArithmeticError::DivideByZero),
                    );
                }
                div_wrapped(lhs, rhs)
            },
            _ => {
                if lhs < rhs {
                    1
                } else {
                    0
                }
            },
        };
        let ghost prepush = self.list@;
        self.list.push(Element::Number(result));
        proof {
            lemma_elems_view_push(prepush, Element::Number(result));
            assert(elems_view(self.list@) == elems_view(prepush).push(ElemV::Num(result as int)));
        }
        Ok(())
    }
}

/// Division truncated toward zero with the one overflowing quotient
/// wrapped, computed on unsigned magnitudes.
fn div_wrapped(lhs: i32, rhs: i32) -> (r: i32)
    requires
        rhs != 0,
    ensures
        r as int == crate::semantics::div32(lhs as int, rhs as int),
{
    let la: u64 = if lhs < 0 {
        (-(lhs as i64)) as u64
    } else {
        lhs as u64
    };
    let lb: u64 = if rhs < 0 {
        (-(rhs as i64)) as u64
    } else {
        rhs as u64
    };
    let q: u64 = la / lb;
    proof {
        vstd::arithmetic::div_mod::lemma_div_basics_5(la as int, lb as int);
    }
    let neg = (lhs < 0) != (rhs < 0);
    if neg {
        if q == 0x8000_0000 {
            proof {
                lemma_signed_crop_cases(-0x8000_0000);
            }
            i32::MIN
        } else {
            proof {
                lemma_signed_crop_cases(-(q as int));
            }
            -(q as i32)
        }
    } else {
        if q == 0x8000_0000 {
            proof {
                lemma_signed_crop_cases(0x8000_0000);
            }
            i32::MIN
        } else {
            proof {
                lemma_signed_crop_cases(q as int);
            }
            q as i32
        }
    }
}


/// The elems-view commutes with dropping up to three trailing elements.
proof fn lemma_elems_view_drops3(ts: Seq<Element>)
    ensures
        ts.len() > 0 ==> elems_view(ts.drop_last()) == elems_view(ts).drop_last(),
        ts.len() > 1 ==> elems_view(ts.drop_last().drop_last()) == elems_view(
            ts,
        ).drop_last().drop_last(),
        ts.len() > 2 ==> elems_view(ts.drop_last().drop_last().drop_last()) == elems_view(
            ts,
        ).drop_last().drop_last().drop_last(),
        elems_view(ts).len() == ts.len(),
{
    lemma_elems_view_len(ts);
    if ts.len() > 0 {
        lemma_elems_view_drop_last(ts);
        if ts.len() > 1 {
            lemma_elems_view_drop_last(ts.drop_last());
            if ts.len() > 2 {
                lemma_elems_view_drop_last(ts.drop_last().drop_last());
            }
        }
    }
}

impl Stack {
    /// Runs one native operation against the machine; control flow
    /// leaves its continuation on the work stack.
    fn do_native(&mut self, work: &mut Vec<Work>, op: NativeOperation) -> (r: Result<
        (),
        EvalError,
    >)
        ensures
            match r {
                Ok(_) => apply_native(machine_at(*old(self), works_view(old(work)@)), op)
                    == StepR::Next(machine_at(*final(self), works_view(final(work)@))),
                Err(e) => match apply_native(
                    machine_at(*old(self), works_view(old(work)@)),
                    op,
                ) {
                    StepR::Fail(mf, ev) => crate::errors::err_matches(e, ev) && machine_at(
                        *final(self),
                        works_view(final(work)@),
                    ) == mf,
                    _ => false,
                },
            },
    {
        let ghost w0 = works_view(work@);
        let ghost m0 = machine_at(*old(self), w0);
        proof {
            lemma_elems_view_drops3(old(self).list@);
        }
        match op {
            NativeOperation::Add => self.do_binop(op, Ghost(w0)),
            NativeOperation::Subtract => self.do_binop(op, Ghost(w0)),
            NativeOperation::Multiply => self.do_binop(op, Ghost(w0)),
            NativeOperation::Divide => self.do_binop(op, Ghost(w0)),
            NativeOperation::LessThan => self.do_binop(op, Ghost(w0)),
            NativeOperation::If => {
                let fb = match self.pop_block() {
                    Ok(v) => v,
                    Err(e) => {
                        return Err(e);
                    },
                };
                let tb = match self.pop_block() {
                    Ok(v) => v,
                    Err(e) => {
                        return Err(e);
                    },
                };
                let cond = match self.pop_block() {
                    Ok(v) => v,
                    Err(e) => {
                        return Err(e);
                    },
                };
                let ghost wpre = work@;
                work.push(Work::IfDone(tb, fb));
                proof {
                    lemma_works_view_push(wpre, work@.last());
                }
                push_ev_rev(work, &cond);
                proof {
                    assert(works_view(work@) =~= w0 + seq![
                        WorkV::IfDone(elems_view(tb@), elems_view(fb@)),
                    ] + ev_rev(elems_view(cond@)));
                }
                Ok(())
            },
            NativeOperation::Def => {
                let v = match self.pop_elem() {
                    Ok(v) => v,
                    Err(e) => {
                        return Err(e);
                    },
                };
                let ghost vv = elem_view(v);
                let ghost wpre0 = work@;
                work.push(Work::DefDone);
                proof {
                    lemma_works_view_push(wpre0, Work::DefDone);
                }
                let ghost wpre1 = work@;
                work.push(Work::Ev(v));
                proof {
                    lemma_works_view_push(wpre1, work@.last());
                    assert(works_view(work@) =~= w0 + seq![WorkV::DefDone, WorkV::Ev(vv)]);
                }
                Ok(())
            },
            NativeOperation::For => {
                let body = match self.pop_block() {
                    Ok(v) => v,
                    Err(e) => {
                        return Err(e);
                    },
                };
                let endv = match self.pop_number() {
                    Ok(n) => n,
                    Err(e) => {
                        return Err(e);
                    },
                };
                let startv = match self.pop_number() {
                    Ok(n) => n,
                    Err(e) => {
                        return Err(e);
                    },
                };
                let ghost wpre = work@;
                work.push(Work::ForNext(startv as i64, endv as i64, body));
                proof {
                    lemma_works_view_push(wpre, work@.last());
                    assert(works_view(work@) =~= w0 + seq![
                        work_view(work@.last()),
                    ]);
                }
                Ok(())
            },
            NativeOperation::While => {
                let body = match self.pop_block() {
                    Ok(v) => v,
                    Err(e) => {
                        return Err(e);
                    },
                };
                let cond = match self.pop_block() {
                    Ok(v) => v,
                    Err(e) => {
                        return Err(e);
                    },
                };
                let cond2 = clone_elems(&cond);
                let ghost wpre = work@;
                work.push(Work::WhileDone(cond2, body));
                proof {
                    lemma_works_view_push(wpre, work@.last());
                }
                push_ev_rev(work, &cond);
                proof {
                    assert(works_view(work@) =~= w0 + seq![
                        WorkV::WhileDone(elems_view(cond@), elems_view(body@)),
                    ] + ev_rev(elems_view(cond@)));
                }
                Ok(())
            },
            NativeOperation::Puts => {
                let x = match self.pop_number() {
                    Ok(n) => n,
                    Err(e) => {
                        return Err(e);
                    },
                };
                let ghost o0 = self.outputs@;
                self.outputs.push(x);
                proof {
                    assert(outs_view(self.outputs@) =~= outs_view(o0).push(x as int));
                }
                Ok(())
            },
            NativeOperation::Pop => {
                match self.pop_elem() {
                    Ok(_) => Ok(()),
                    Err(e) => Err(e),
                }
            },
            NativeOperation::Dup => {
                if self.list.len() == 0 {
                    proof {
                        assert(elems_view(self.list@).len() == 0);
                    }
                    return Err(EvalError::StackUnderflow);
                }
                let e = self.list[self.list.len() - 1].clone();
                let ghost prepush = self.list@;
                self.list.push(e);
                proof {
                    lemma_elems_view_push(prepush, self.list@.last());
                    lemma_elems_view_index(prepush, prepush.len() - 1);
                    assert(elems_view(prepush).last() == elem_view(prepush.last()));
                }
                Ok(())
            },
            NativeOperation::Exch => {
                let a = match self.pop_elem() {
                    Ok(v) => v,
                    Err(e) => {
                        return Err(e);
                    },
                };
                let b = match self.pop_elem() {
                    Ok(v) => v,
                    Err(e) => {
                        return Err(e);
                    },
                };
                let ghost pre0 = self.list@;
                let ghost av = elem_view(a);
                let ghost bv = elem_view(b);
                self.list.push(a);
                proof {
                    lemma_elems_view_push(pre0, self.list@.last());
                }
                let ghost pre1 = self.list@;
                self.list.push(b);
                proof {
                    lemma_elems_view_push(pre1, self.list@.last());
                    assert(elems_view(self.list@) == elems_view(pre0).push(av).push(bv));
                }
                Ok(())
            },
            _ => {
                // NativeOperation::Index
                let x = match self.pop_number() {
                    Ok(n) => n,
                    Err(e) => {
                        return Err(e);
                    },
                };
                if x < 0 {
                    return Err(EvalError::StackUnderflow);
                }
                let idx = x as usize;
                proof {
                    lemma_elems_view_len(self.list@);
                }
                if idx >= self.list.len() {
                    return Err(EvalError::StackUnderflow);
                }
                let pos = self.list.len() - 1 - idx;
                let e = self.list[pos].clone();
                let ghost prepush = self.list@;
                self.list.push(e);
                proof {
                    lemma_elems_view_push(prepush, self.list@.last());
                    lemma_elems_view_index(prepush, pos as int);
                }
                Ok(())
            },
        }
    }
}

/// The number of machine steps one `evaluate` call may take. At any
/// realistic speed the clock outlives the hardware, so the bound is
/// only formal; it lets every loop in the machine terminate.
pub const STEP_BUDGET: u64 = 0xFFFF_FFFF_FFFF_FFFF;

impl Stack {
    /// Evaluates one element: literals and blocks are pushed, an
    /// operation word is resolved and run, to completion. On an error
    /// the effects up to the failing step remain, except that scope
    /// frames this call opened are unwound; the machine stays usable.
    ///
    /// The contract ties the call to the step semantics: on success the
    /// machine has run, in some number of steps, from the loaded start
    /// state to exactly the final state; on failure it has reached the
    /// failing step, with the reported error.
    pub fn evaluate(&mut self, element: Element) -> (r: Result<(), EvalError>)
        ensures
            match r {
                Ok(_) => exists|n: nat|
                    #![trigger run(load(old(self)@, elem_view(element)), n)]
                    run(load(old(self)@, elem_view(element)), n) == StepR::Done(final(self)@),
                Err(e) => if e == EvalError::StepLimit {
                    &&& forall|n: nat|
                        n <= STEP_BUDGET ==> #[trigger] run(
                            load(old(self)@, elem_view(element)),
                            n,
                        ) is Next
                    &&& exists|n: nat|
                        #![trigger run(load(old(self)@, elem_view(element)), n)]
                        match run(load(old(self)@, elem_view(element)), n) {
                            StepR::Next(mid) => final(self)@ == unwind(
                                mid,
                                old(self)@.scopes.len() as int,
                            ),
                            _ => false,
                        }
                } else {
                    exists|n: nat|
                        #![trigger run(load(old(self)@, elem_view(element)), n)]
                        match run(load(old(self)@, elem_view(element)), n) {
                            StepR::Fail(mf, ev) => crate::errors::err_matches(e, ev)
                                && final(self)@ == unwind(mf, old(self)@.scopes.len() as int),
                            _ => false,
                        }
                },
            },
    {
        let ghost st0 = self@;
        let ghost m_init = load(st0, elem_view(element));
        let entry_depth = self.variables.len();
        let mut work: Vec<Work> = Vec::new();
        work.push(Work::Ev(element));
        let mut fuel: u64 = STEP_BUDGET;
        let ghost mut steps: nat = 0nat;
        proof {
            assert(works_view(work@) =~= seq![WorkV::Ev(elem_view(element))]);
            assert(machine_at(*self, works_view(work@)) == m_init);
            assert(work_wf(works_view(work@)));
        }
        loop
            invariant
                st0 == old(self)@,
                m_init == load(st0, elem_view(element)),
                entry_depth == st0.scopes.len(),
                steps + fuel == STEP_BUDGET as nat,
                run(m_init, steps) == StepR::Next(machine_at(*self, works_view(work@))),
                work_wf(works_view(work@)),
            decreases fuel,
        {
            if work.len() == 0 {
                proof {
                    let cur = machine_at(*self, works_view(work@));
                    assert(works_view(work@) =~= Seq::<WorkV>::empty());
                    assert(cur == self@);
                    assert(step(cur) == StepR::Done(cur));
                    lemma_run_succ(m_init, steps, cur);
                }
                return Ok(());
            }
            if fuel == 0 {
                let ghost mid = machine_at(*self, works_view(work@));
                proof {
                    assert forall|n: nat| n <= STEP_BUDGET implies run(m_init, n) is Next by {
                        lemma_run_next_prefix(m_init, steps, n);
                    }
                }
                let ghost prevars = self.variables@;
                self.variables.truncate(entry_depth);
                proof {
                    lemma_truncate_scopes(prevars, self.variables@, entry_depth as int);
                    assert(self@ == unwind(mid, entry_depth as int));
                }
                return Err(EvalError::StepLimit);
            }
            let ghost cur = machine_at(*self, works_view(work@));
            let ghost curw = works_view(work@);
            let ghost lcur = self.list@;
            proof {
                assert(stack_num_wf(cur.stack)) by {
                    assert forall|k: int| 0 <= k < cur.stack.len() implies ((#[trigger] cur.stack[k])
                        is Num ==> -0x8000_0000 <= cur.stack[k]->Num_0 < 0x8000_0000) by {
                        lemma_elems_view_len(lcur);
                        lemma_elems_view_num_range(lcur, k);
                    }
                }
            }
            let w = work.pop().unwrap();
            proof {
                assert(works_view(work@) =~= curw.drop_last());
                assert(curw.last() == work_view(w));
            }
            let ghost m0 = machine_at(*self, works_view(work@));
            proof {
                lemma_elems_view_drops3(self.list@);
            }
            let step_result: Result<(), EvalError> = match w {
                Work::Ev(e) => match e {
                    Element::NativeOperation(_) => Err(EvalError::InvalidElement),
                    Element::Operation(name) => match self.lookup_var(&name) {
                        None => Err(EvalError::UndefinedOperation(name)),
                        Some(found) => match found {
                            Element::Block(b) => {
                                self.push_frame();
                                let ghost wp0 = work@;
                                work.push(Work::PopScope);
                                proof {
                                    lemma_works_view_push(wp0, Work::PopScope);
                                }
                                let ts = b.to_vec();
                                push_ev_rev(&mut work, &ts);
                                proof {
                                    assert(works_view(work@) =~= m0.work + seq![WorkV::PopScope]
                                        + ev_rev(elems_view(ts@)));
                                }
                                Ok(())
                            },
                            Element::NativeOperation(opn) => self.do_native(&mut work, opn),
                            other => {
                                let ghost pre = self.list@;
                                self.list.push(other);
                                proof {
                                    lemma_elems_view_push(pre, self.list@.last());
                                }
                                Ok(())
                            },
                        },
                    },
                    other => {
                        let ghost pre = self.list@;
                        self.list.push(other);
                        proof {
                            lemma_elems_view_push(pre, self.list@.last());
                        }
                        Ok(())
                    },
                },
                Work::PopScope => {
                    if self.variables.len() == 0 {
                        proof {
                            assert(scopes_view(self.variables@).len() == 0);
                        }
                        Err(EvalError::InvalidElement)
                    } else {
                        let ghost vs = self.variables@;
                        self.variables.pop().unwrap();
                        proof {
                            assert(scopes_view(self.variables@) =~~= scopes_view(vs).drop_last());
                        }
                        Ok(())
                    }
                },
                Work::IfDone(tb, fb) => match self.pop_number() {
                    Err(e) => Err(e),
                    Ok(c) => {
                        if c == 0 {
                            push_ev_rev(&mut work, &fb);
                        } else {
                            push_ev_rev(&mut work, &tb);
                        }
                        Ok(())
                    },
                },
                Work::DefDone => match self.pop_elem() {
                    Err(e) => Err(e),
                    Ok(v) => match self.pop_elem() {
                        Err(e) => Err(e),
                        Ok(sym) => match sym.as_symbol() {
                            Err(e) => Err(e),
                            Ok(name) => {
                                if self.variables.len() == 0 {
                                    proof {
                                        assert(scopes_view(self.variables@).len() == 0);
                                    }
                                    Err(EvalError::InvalidElement)
                                } else {
                                    self.define_var(name, v);
                                    Ok(())
                                }
                            },
                        },
                    },
                },
                Work::ForNext(i, end, body) => {
                    if i > end {
                        Ok(())
                    } else {
                        proof {
                            assert(work_item_wf(curw.last()));
                        }
                        let body2 = clone_elems(&body);
                        let ghost wp0 = work@;
                        work.push(Work::ForNext(i + 1, end, body2));
                        proof {
                            lemma_works_view_push(wp0, work@.last());
                        }
                        push_ev_rev(&mut work, &body);
                        proof {
                            assert(works_view(work@) =~= m0.work + seq![
                                WorkV::ForNext(i + 1, end as int, elems_view(body@)),
                            ] + ev_rev(elems_view(body@)));
                        }
                        Ok(())
                    }
                },
                Work::WhileDone(cond, body) => match self.pop_number() {
                    Err(e) => Err(e),
                    Ok(c) => {
                        if c != 0 {
                            let cond2 = clone_elems(&cond);
                            let body2 = clone_elems(&body);
                            let ghost wp0 = work@;
                            work.push(Work::WhileDone(cond2, body2));
                            proof {
                                lemma_works_view_push(wp0, work@.last());
                            }
                            push_ev_rev(&mut work, &cond);
                            push_ev_rev(&mut work, &body);
                            proof {
                                assert(works_view(work@) =~= m0.work + seq![
                                    WorkV::WhileDone(elems_view(cond@), elems_view(body@)),
                                ] + ev_rev(elems_view(cond@)) + ev_rev(elems_view(body@)));
                            }
                        }
                        Ok(())
                    },
                },
            };
            match step_result {
                Ok(_) => {
                    proof {
                        let nxt = machine_at(*self, works_view(work@));
                        assert(step(cur) == StepR::Next(nxt));
                        lemma_run_succ(m_init, steps, cur);
                        assert(run(m_init, steps + 1) == StepR::Next(nxt));
                        lemma_step_preserves_wf(cur);
                        assert(work_wf(works_view(work@)));
                        steps = steps + 1nat;
                    }
                    fuel = fuel - 1;
                },
                Err(e) => {
                    let ghost mf = machine_at(*self, works_view(work@));
                    proof {
                        assert(match step(cur) {
                            StepR::Fail(fm, ev) => fm == mf && crate::errors::err_matches(e, ev),
                            _ => false,
                        });
                        lemma_run_succ(m_init, steps, cur);
                    }
                    let ghost prevars = self.variables@;
                    self.variables.truncate(entry_depth);
                    proof {
                        lemma_truncate_scopes(prevars, self.variables@, entry_depth as int);
                        assert(self@ == unwind(mf, entry_depth as int));
                    }
                    return Err(e);
                },
            }
        }
    }
}

/// Truncating the frame vector is the model-level scope truncation.
proof fn lemma_truncate_scopes(
    pre_vars: Seq<Vec<(String, Element)>>,
    post_vars: Seq<Vec<(String, Element)>>,
    depth: int,
)
    requires
        0 <= depth,
        depth <= pre_vars.len() ==> post_vars == pre_vars.subrange(0, depth),
        depth > pre_vars.len() ==> post_vars == pre_vars,
    ensures
        scopes_view(post_vars) == scopes_trunc(scopes_view(pre_vars), depth),
{
    if depth <= pre_vars.len() {
        if depth == pre_vars.len() {
            assert(post_vars =~= pre_vars);
        } else {
            assert(scopes_view(post_vars) =~~= scopes_view(pre_vars).take(depth));
        }
    }
}

} // verus!
