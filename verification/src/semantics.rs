//! The machine semantics: a small-step interpreter over the
//! mathematical machine state, which the executable machine is proved
//! to follow step for step, and the laws that hold of it.

use vstd::prelude::*;

use crate::element::{ElemV, NativeOperation};
use crate::errors::{ErrV, Kind, kind_of};

verus! {

/// One scope frame: bindings in the order they were made; a later
/// binding of a name shadows an earlier one.
pub type ScopeV = Seq<(Seq<char>, ElemV)>;

/// The value bound to `name` in one frame, latest binding first.
pub open spec fn frame_get(f: ScopeV, name: Seq<char>) -> Option<ElemV>
    decreases f.len(),
{
    if f.len() == 0 {
        None
    } else if f.last().0 == name {
        Some(f.last().1)
    } else {
        frame_get(f.drop_last(), name)
    }
}

/// Innermost-to-outermost resolution of `name` along the scope chain.
/// The innermost frame is last.
pub open spec fn lookup(scopes: Seq<ScopeV>, name: Seq<char>) -> Option<ElemV>
    decreases scopes.len(),
{
    if scopes.len() == 0 {
        None
    } else {
        match frame_get(scopes.last(), name) {
            Some(v) => Some(v),
            None => lookup(scopes.drop_last(), name),
        }
    }
}

/// Binds `name` to `v` in the innermost frame.
pub open spec fn define(scopes: Seq<ScopeV>, name: Seq<char>, v: ElemV) -> Seq<ScopeV> {
    scopes.update(scopes.len() - 1, scopes.last().push((name, v)))
}

/// A pending piece of evaluation work, innermost first from the end.
pub enum WorkV {
    /// Evaluate one element.
    Ev(ElemV),
    /// Leave the scope frame a block invocation pushed.
    PopScope,
    /// The condition of `if` has run: pick a branch by its result.
    IfDone(Seq<ElemV>, Seq<ElemV>),
    /// The value of `def` has run: pop it, pop the symbol, bind.
    DefDone,
    /// Run the loop body for each counter value still left.
    ForNext(int, int, Seq<ElemV>),
    /// The condition of `while` has run: stop on zero, else loop.
    WhileDone(Seq<ElemV>, Seq<ElemV>),
}

/// The full state of the stack machine: operand stack (top last), scope
/// chain (innermost last), `puts` output, and the work stack (next last).
pub struct MachineV {
    pub stack: Seq<ElemV>,
    pub scopes: Seq<ScopeV>,
    pub outputs: Seq<int>,
    pub work: Seq<WorkV>,
}

/// The outcome of one machine step.
pub enum StepR {
    /// No work left.
    Done(MachineV),
    Next(MachineV),
    /// Evaluation fails here; the state records the effects so far.
    Fail(MachineV, ErrV),
}

/// Work items that evaluate a sub-program's elements in order: the
/// first element comes last, so it is handled first.
pub open spec fn ev_rev(ts: Seq<ElemV>) -> Seq<WorkV> {
    Seq::new(ts.len(), |i: int| WorkV::Ev(ts[ts.len() - 1 - i]))
}

/// 32-bit wrap-around of an integer, the numeric policy of the machine.
pub open spec fn wrap32(v: int) -> int {
    vstd::wrapping::i32_specs::signed_crop(v) as int
}

/// Division truncated toward zero, wrapped into 32 bits; callers rule
/// out a zero divisor.
pub open spec fn div32(a: int, b: int) -> int {
    let q = if a == 0 {
        0
    } else if a > 0 && b > 0 {
        a / b
    } else if a < 0 && b < 0 {
        (a * -1) / (b * -1)
    } else if a < 0 {
        ((a * -1) / b) * -1
    } else {
        (a / (b * -1)) * -1
    };
    wrap32(q)
}

/// Whether a native operation is a binary numeric operation.
pub open spec fn is_binop(op: NativeOperation) -> bool {
    match op {
        NativeOperation::Add => true,
        NativeOperation::Subtract => true,
        NativeOperation::Multiply => true,
        NativeOperation::Divide => true,
        NativeOperation::LessThan => true,
        _ => false,
    }
}

/// The value a binary numeric operation pushes, from lhs and rhs.
pub open spec fn binop_val(op: NativeOperation, a: int, b: int) -> int {
    match op {
        NativeOperation::Add => wrap32(a + b),
        NativeOperation::Subtract => wrap32(a - b),
        NativeOperation::Multiply => wrap32(a * b),
        NativeOperation::Divide => div32(a, b),
        _ => if a < b {
            1
        } else {
            0
        },
    }
}

/// A binary numeric operation: pop rhs, pop lhs, check both numeric,
/// check the divisor, push the result.
pub open spec fn apply_binop(m0: MachineV, op: NativeOperation) -> StepR {
    if m0.stack.len() == 0 {
        StepR::Fail(m0, ErrV::StackUnderflow)
    } else {
        let rhs = m0.stack.last();
        let m1 = MachineV { stack: m0.stack.drop_last(), ..m0 };
        if !(rhs is Num) {
            StepR::Fail(m1, ErrV::TypeError(Kind::Number, kind_of(rhs)))
        } else if m1.stack.len() == 0 {
            StepR::Fail(m1, ErrV::StackUnderflow)
        } else {
            let lhs = m1.stack.last();
            let m2 = MachineV { stack: m1.stack.drop_last(), ..m1 };
            if !(lhs is Num) {
                StepR::Fail(m2, ErrV::TypeError(Kind::Number, kind_of(lhs)))
            } else if op is Divide && rhs->Num_0 == 0 {
                StepR::Fail(m2, ErrV::DivideByZero)
            } else {
                StepR::Next(
                    MachineV {
                        stack: m2.stack.push(ElemV::Num(binop_val(op, lhs->Num_0, rhs->Num_0))),
                        ..m2
                    },
                )
            }
        }
    }
}

/// A native operation applied to a machine whose work stack has already
/// had the triggering item removed.
pub open spec fn apply_native(m0: MachineV, op: NativeOperation) -> StepR {
    if is_binop(op) {
        apply_binop(m0, op)
    } else {
        match op {
            NativeOperation::If => {
                // top to bottom: false branch, true branch, condition
                if m0.stack.len() == 0 {
                    StepR::Fail(m0, ErrV::StackUnderflow)
                } else {
                    let fb = m0.stack.last();
                    let m1 = MachineV { stack: m0.stack.drop_last(), ..m0 };
                    if !(fb is Blk) {
                        StepR::Fail(m1, ErrV::TypeError(Kind::Block, kind_of(fb)))
                    } else if m1.stack.len() == 0 {
                        StepR::Fail(m1, ErrV::StackUnderflow)
                    } else {
                        let tb = m1.stack.last();
                        let m2 = MachineV { stack: m1.stack.drop_last(), ..m1 };
                        if !(tb is Blk) {
                            StepR::Fail(m2, ErrV::TypeError(Kind::Block, kind_of(tb)))
                        } else if m2.stack.len() == 0 {
                            StepR::Fail(m2, ErrV::StackUnderflow)
                        } else {
                            let cond = m2.stack.last();
                            let m3 = MachineV { stack: m2.stack.drop_last(), ..m2 };
                            if !(cond is Blk) {
                                StepR::Fail(m3, ErrV::TypeError(Kind::Block, kind_of(cond)))
                            } else {
                                StepR::Next(
                                    MachineV {
                                        work: m3.work + seq![
                                            WorkV::IfDone(tb->Blk_0, fb->Blk_0),
                                        ] + ev_rev(cond->Blk_0),
                                        ..m3
                                    },
                                )
                            }
                        }
                    }
                }
            },
            NativeOperation::Def => {
                // pop the value and evaluate it before binding
                if m0.stack.len() == 0 {
                    StepR::Fail(m0, ErrV::StackUnderflow)
                } else {
                    let v = m0.stack.last();
                    let m1 = MachineV { stack: m0.stack.drop_last(), ..m0 };
                    StepR::Next(
                        MachineV { work: m1.work + seq![WorkV::DefDone, WorkV::Ev(v)], ..m1 },
                    )
                }
            },
            NativeOperation::For => {
                // top to bottom: loop body, end, start
                if m0.stack.len() == 0 {
                    StepR::Fail(m0, ErrV::StackUnderflow)
                } else {
                    let body = m0.stack.last();
                    let m1 = MachineV { stack: m0.stack.drop_last(), ..m0 };
                    if !(body is Blk) {
                        StepR::Fail(m1, ErrV::TypeError(Kind::Block, kind_of(body)))
                    } else if m1.stack.len() == 0 {
                        StepR::Fail(m1, ErrV::StackUnderflow)
                    } else {
                        let endv = m1.stack.last();
                        let m2 = MachineV { stack: m1.stack.drop_last(), ..m1 };
                        if !(endv is Num) {
                            StepR::Fail(m2, ErrV::TypeError(Kind::Number, kind_of(endv)))
                        } else if m2.stack.len() == 0 {
                            StepR::Fail(m2, ErrV::StackUnderflow)
                        } else {
                            let startv = m2.stack.last();
                            let m3 = MachineV { stack: m2.stack.drop_last(), ..m2 };
                            if !(startv is Num) {
                                StepR::Fail(m3, ErrV::TypeError(Kind::Number, kind_of(startv)))
                            } else {
                                StepR::Next(
                                    MachineV {
                                        work: m3.work + seq![
                                            WorkV::ForNext(
                                                startv->Num_0,
                                                endv->Num_0,
                                                body->Blk_0,
                                            ),
                                        ],
                                        ..m3
                                    },
                                )
                            }
                        }
                    }
                }
            },
            NativeOperation::While => {
                // top to bottom: loop body, condition
                if m0.stack.len() == 0 {
                    StepR::Fail(m0, ErrV::StackUnderflow)
                } else {
                    let body = m0.stack.last();
                    let m1 = MachineV { stack: m0.stack.drop_last(), ..m0 };
                    if !(body is Blk) {
                        StepR::Fail(m1, ErrV::TypeError(Kind::Block, kind_of(body)))
                    } else if m1.stack.len() == 0 {
                        StepR::Fail(m1, ErrV::StackUnderflow)
                    } else {
                        let cond = m1.stack.last();
                        let m2 = MachineV { stack: m1.stack.drop_last(), ..m1 };
                        if !(cond is Blk) {
                            StepR::Fail(m2, ErrV::TypeError(Kind::Block, kind_of(cond)))
                        } else {
                            StepR::Next(
                                MachineV {
                                    work: m2.work + seq![
                                        WorkV::WhileDone(cond->Blk_0, body->Blk_0),
                                    ] + ev_rev(cond->Blk_0),
                                    ..m2
                                },
                            )
                        }
                    }
                }
            },
            NativeOperation::Puts => {
                if m0.stack.len() == 0 {
                    StepR::Fail(m0, ErrV::StackUnderflow)
                } else {
                    let x = m0.stack.last();
                    let m1 = MachineV { stack: m0.stack.drop_last(), ..m0 };
                    if !(x is Num) {
                        StepR::Fail(m1, ErrV::TypeError(Kind::Number, kind_of(x)))
                    } else {
                        StepR::Next(MachineV { outputs: m1.outputs.push(x->Num_0), ..m1 })
                    }
                }
            },
            NativeOperation::Pop => {
                if m0.stack.len() == 0 {
                    StepR::Fail(m0, ErrV::StackUnderflow)
                } else {
                    StepR::Next(MachineV { stack: m0.stack.drop_last(), ..m0 })
                }
            },
            NativeOperation::Dup => {
                if m0.stack.len() == 0 {
                    StepR::Fail(m0, ErrV::StackUnderflow)
                } else {
                    StepR::Next(MachineV { stack: m0.stack.push(m0.stack.last()), ..m0 })
                }
            },
            NativeOperation::Exch => {
                if m0.stack.len() == 0 {
                    StepR::Fail(m0, ErrV::StackUnderflow)
                } else {
                    let a = m0.stack.last();
                    let m1 = MachineV { stack: m0.stack.drop_last(), ..m0 };
                    if m1.stack.len() == 0 {
                        StepR::Fail(m1, ErrV::StackUnderflow)
                    } else {
                        let b = m1.stack.last();
                        let m2 = MachineV { stack: m1.stack.drop_last(), ..m1 };
                        StepR::Next(MachineV { stack: m2.stack.push(a).push(b), ..m2 })
                    }
                }
            },
            _ => {
                // NativeOperation::Index
                if m0.stack.len() == 0 {
                    StepR::Fail(m0, ErrV::StackUnderflow)
                } else {
                    let x = m0.stack.last();
                    let m1 = MachineV { stack: m0.stack.drop_last(), ..m0 };
                    if !(x is Num) {
                        StepR::Fail(m1, ErrV::TypeError(Kind::Number, kind_of(x)))
                    } else {
                        let n = x->Num_0;
                        if n < 0 || n >= m1.stack.len() {
                            StepR::Fail(m1, ErrV::StackUnderflow)
                        } else {
                            StepR::Next(
                                MachineV {
                                    stack: m1.stack.push(m1.stack[m1.stack.len() - 1 - n]),
                                    ..m1
                                },
                            )
                        }
                    }
                }
            },
        }
    }
}

/// One step of the machine: take the top work item and act on it. This
/// function is the semantics of the language.
pub open spec fn step(m: MachineV) -> StepR {
    if m.work.len() == 0 {
        StepR::Done(m)
    } else {
        let w = m.work.last();
        let m0 = MachineV { work: m.work.drop_last(), ..m };
        match w {
            WorkV::Ev(e) => match e {
                ElemV::Num(_) => StepR::Next(MachineV { stack: m0.stack.push(e), ..m0 }),
                ElemV::Sym(_) => StepR::Next(MachineV { stack: m0.stack.push(e), ..m0 }),
                ElemV::Blk(_) => StepR::Next(MachineV { stack: m0.stack.push(e), ..m0 }),
                ElemV::Native(_) => StepR::Fail(m0, ErrV::InvalidElement),
                ElemV::Op(name) => match lookup(m0.scopes, name) {
                    None => StepR::Fail(m0, ErrV::UndefinedOperation(name)),
                    Some(v) => match v {
                        ElemV::Blk(ts) => StepR::Next(
                            MachineV {
                                scopes: m0.scopes.push(Seq::empty()),
                                work: m0.work + seq![WorkV::PopScope] + ev_rev(ts),
                                ..m0
                            },
                        ),
                        ElemV::Native(op) => apply_native(m0, op),
                        _ => StepR::Next(MachineV { stack: m0.stack.push(v), ..m0 }),
                    },
                },
            },
            WorkV::PopScope => {
                if m0.scopes.len() == 0 {
                    StepR::Fail(m0, ErrV::InvalidElement)
                } else {
                    StepR::Next(MachineV { scopes: m0.scopes.drop_last(), ..m0 })
                }
            },
            WorkV::IfDone(tb, fb) => {
                if m0.stack.len() == 0 {
                    StepR::Fail(m0, ErrV::StackUnderflow)
                } else {
                    let c = m0.stack.last();
                    let m1 = MachineV { stack: m0.stack.drop_last(), ..m0 };
                    if !(c is Num) {
                        StepR::Fail(m1, ErrV::TypeError(Kind::Number, kind_of(c)))
                    } else if c->Num_0 == 0 {
                        StepR::Next(MachineV { work: m1.work + ev_rev(fb), ..m1 })
                    } else {
                        StepR::Next(MachineV { work: m1.work + ev_rev(tb), ..m1 })
                    }
                }
            },
            WorkV::DefDone => {
                if m0.stack.len() == 0 {
                    StepR::Fail(m0, ErrV::StackUnderflow)
                } else {
                    let v = m0.stack.last();
                    let m1 = MachineV { stack: m0.stack.drop_last(), ..m0 };
                    if m1.stack.len() == 0 {
                        StepR::Fail(m1, ErrV::StackUnderflow)
                    } else {
                        let s = m1.stack.last();
                        let m2 = MachineV { stack: m1.stack.drop_last(), ..m1 };
                        if !(s is Sym) {
                            StepR::Fail(m2, ErrV::TypeError(Kind::Symbol, kind_of(s)))
                        } else if m2.scopes.len() == 0 {
                            StepR::Fail(m2, ErrV::InvalidElement)
                        } else {
                            StepR::Next(
                                MachineV { scopes: define(m2.scopes, s->Sym_0, v), ..m2 },
                            )
                        }
                    }
                }
            },
            WorkV::ForNext(i, end, body) => {
                if i > end {
                    StepR::Next(m0)
                } else {
                    StepR::Next(
                        MachineV {
                            work: m0.work + seq![WorkV::ForNext(i + 1, end, body)] + ev_rev(
                                body,
                            ),
                            ..m0
                        },
                    )
                }
            },
            WorkV::WhileDone(cond, body) => {
                if m0.stack.len() == 0 {
                    StepR::Fail(m0, ErrV::StackUnderflow)
                } else {
                    let c = m0.stack.last();
                    let m1 = MachineV { stack: m0.stack.drop_last(), ..m0 };
                    if !(c is Num) {
                        StepR::Fail(m1, ErrV::TypeError(Kind::Number, kind_of(c)))
                    } else if c->Num_0 == 0 {
                        StepR::Next(m1)
                    } else {
                        StepR::Next(
                            MachineV {
                                work: m1.work + seq![WorkV::WhileDone(cond, body)] + ev_rev(
                                    cond,
                                ) + ev_rev(body),
                                ..m1
                            },
                        )
                    }
                }
            },
        }
    }
}

/// `n` machine steps from `m`; a finished or failed machine stays as it
/// is, so the result for a large enough `n` is the final outcome.
pub open spec fn run(m: MachineV, n: nat) -> StepR
    decreases n,
{
    if n == 0 {
        StepR::Next(m)
    } else {
        match step(m) {
            StepR::Next(m2) => run(m2, (n - 1) as nat),
            r => r,
        }
    }
}


/// The machine about to evaluate one element from a resting state.
pub open spec fn load(m: MachineV, v: ElemV) -> MachineV {
    MachineV { work: seq![WorkV::Ev(v)], ..m }
}

/// The scope chain cut back to at most `depth` frames.
pub open spec fn scopes_trunc(s: Seq<ScopeV>, depth: int) -> Seq<ScopeV> {
    if s.len() <= depth {
        s
    } else {
        s.take(depth)
    }
}

/// The state an aborted evaluation leaves behind: its effects so far,
/// scope frames it opened unwound, no work pending.
pub open spec fn unwind(m: MachineV, depth: int) -> MachineV {
    MachineV { scopes: scopes_trunc(m.scopes, depth), work: Seq::empty(), ..m }
}

/// Whether one work item keeps its loop bounds inside 32 bits, as every
/// item the machine builds does.
pub open spec fn work_item_wf(w: WorkV) -> bool {
    match w {
        WorkV::ForNext(i, end, _) => -0x8000_0000 <= i <= 0x8000_0000 && -0x8000_0000 <= end
            < 0x8000_0000,
        _ => true,
    }
}

/// Every pending work item is well-formed.
pub open spec fn work_wf(ws: Seq<WorkV>) -> bool {
    forall|i: int| 0 <= i < ws.len() ==> work_item_wf(#[trigger] ws[i])
}


/// Every number on the modelled stack fits in 32 signed bits, as every
/// value the executable machine holds does.
pub open spec fn stack_num_wf(s: Seq<ElemV>) -> bool {
    forall|k: int|
        0 <= k < s.len() ==> ((#[trigger] s[k]) is Num ==> -0x8000_0000 <= s[k]->Num_0
            < 0x8000_0000)
}

/// Well-formedness joins over concatenation.
proof fn lemma_wf_concat(a: Seq<WorkV>, b: Seq<WorkV>)
    requires
        work_wf(a),
        work_wf(b),
    ensures
        work_wf(a + b),
{
    assert forall|i: int| 0 <= i < (a + b).len() implies work_item_wf(#[trigger] (a + b)[i]) by {
        if i < a.len() {
            assert((a + b)[i] == a[i]);
        } else {
            assert((a + b)[i] == b[i - a.len()]);
        }
    }
}

/// Element-evaluation items are always well-formed.
proof fn lemma_wf_ev_rev(ts: Seq<ElemV>)
    ensures
        work_wf(ev_rev(ts)),
{
    assert forall|i: int| 0 <= i < ev_rev(ts).len() implies work_item_wf(
        #[trigger] ev_rev(ts)[i],
    ) by {
        assert(ev_rev(ts)[i] == WorkV::Ev(ts[ts.len() - 1 - i]));
    }
}

/// A single well-formed item is a well-formed work sequence.
proof fn lemma_wf_one(w: WorkV)
    requires
        work_item_wf(w),
    ensures
        work_wf(seq![w]),
{
    assert(seq![w][0] == w);
}

/// Two well-formed items make a well-formed work sequence.
proof fn lemma_wf_two(w1: WorkV, w2: WorkV)
    requires
        work_item_wf(w1),
        work_item_wf(w2),
    ensures
        work_wf(seq![w1, w2]),
{
    assert(seq![w1, w2][0] == w1);
    assert(seq![w1, w2][1] == w2);
}

/// A step of a machine with well-formed work and 32-bit stack numbers
/// leaves the work well-formed.
pub proof fn lemma_step_preserves_wf(m: MachineV)
    requires
        work_wf(m.work),
        stack_num_wf(m.stack),
    ensures
        match step(m) {
            StepR::Next(m2) => work_wf(m2.work),
            _ => true,
        },
{
    if m.work.len() == 0 {
        return ;
    }
    let w = m.work.last();
    let m0 = MachineV { work: m.work.drop_last(), ..m };
    assert(work_wf(m0.work)) by {
        assert forall|i: int| 0 <= i < m0.work.len() implies work_item_wf(
            #[trigger] m0.work[i],
        ) by {
            assert(m0.work[i] == m.work[i]);
        }
    }
    assert(work_item_wf(w));
    match w {
        WorkV::Ev(e) => {
            if e is Op {
                match lookup(m0.scopes, e->Op_0) {
                    Some(v) => match v {
                        ElemV::Blk(ts) => {
                            lemma_wf_one(WorkV::PopScope);
                            lemma_wf_ev_rev(ts);
                            lemma_wf_concat(m0.work, seq![WorkV::PopScope]);
                            lemma_wf_concat(m0.work + seq![WorkV::PopScope], ev_rev(ts));
                        },
                        ElemV::Native(op) => {
                            lemma_native_preserves_wf(m0, op);
                        },
                        _ => {},
                    },
                    None => {},
                }
            }
        },
        WorkV::PopScope => {},
        WorkV::IfDone(tb, fb) => {
            if m0.stack.len() > 0 {
                lemma_wf_ev_rev(tb);
                lemma_wf_ev_rev(fb);
                lemma_wf_concat(m0.work, ev_rev(tb));
                lemma_wf_concat(m0.work, ev_rev(fb));
            }
        },
        WorkV::DefDone => {},
        WorkV::ForNext(i, end, body) => {
            if i <= end {
                lemma_wf_one(WorkV::ForNext(i + 1, end, body));
                lemma_wf_ev_rev(body);
                lemma_wf_concat(m0.work, seq![WorkV::ForNext(i + 1, end, body)]);
                lemma_wf_concat(m0.work + seq![WorkV::ForNext(i + 1, end, body)], ev_rev(body));
            }
        },
        WorkV::WhileDone(cond, body) => {
            if m0.stack.len() > 0 {
                lemma_wf_one(WorkV::WhileDone(cond, body));
                lemma_wf_ev_rev(cond);
                lemma_wf_ev_rev(body);
                lemma_wf_concat(m0.work, seq![WorkV::WhileDone(cond, body)]);
                lemma_wf_concat(m0.work + seq![WorkV::WhileDone(cond, body)], ev_rev(cond));
                lemma_wf_concat(
                    m0.work + seq![WorkV::WhileDone(cond, body)] + ev_rev(cond),
                    ev_rev(body),
                );
            }
        },
    }
}

/// As `lemma_step_preserves_wf`, for the native operations.
proof fn lemma_native_preserves_wf(m0: MachineV, op: NativeOperation)
    requires
        work_wf(m0.work),
        stack_num_wf(m0.stack),
    ensures
        match apply_native(m0, op) {
            StepR::Next(m2) => work_wf(m2.work),
            _ => true,
        },
{
    match op {
        NativeOperation::If => {
            if m0.stack.len() >= 3 {
                let tb = m0.stack[m0.stack.len() - 2];
                let fb = m0.stack.last();
                let cond = m0.stack[m0.stack.len() - 3];
                if tb is Blk && fb is Blk && cond is Blk {
                    lemma_wf_one(WorkV::IfDone(tb->Blk_0, fb->Blk_0));
                    lemma_wf_ev_rev(cond->Blk_0);
                    lemma_wf_concat(m0.work, seq![WorkV::IfDone(tb->Blk_0, fb->Blk_0)]);
                    lemma_wf_concat(
                        m0.work + seq![WorkV::IfDone(tb->Blk_0, fb->Blk_0)],
                        ev_rev(cond->Blk_0),
                    );
                }
            }
        },
        NativeOperation::Def => {
            if m0.stack.len() > 0 {
                lemma_wf_two(WorkV::DefDone, WorkV::Ev(m0.stack.last()));
                lemma_wf_concat(m0.work, seq![WorkV::DefDone, WorkV::Ev(m0.stack.last())]);
            }
        },
        NativeOperation::For => {
            if m0.stack.len() >= 3 {
                let body = m0.stack.last();
                let endv = m0.stack[m0.stack.len() - 2];
                let startv = m0.stack[m0.stack.len() - 3];
                if body is Blk && endv is Num && startv is Num {
                    let item = WorkV::ForNext(startv->Num_0, endv->Num_0, body->Blk_0);
                    assert(work_item_wf(item));
                    lemma_wf_one(item);
                    lemma_wf_concat(m0.work, seq![item]);
                }
            }
        },
        NativeOperation::While => {
            if m0.stack.len() >= 2 {
                let body = m0.stack.last();
                let cond = m0.stack[m0.stack.len() - 2];
                if body is Blk && cond is Blk {
                    let item = WorkV::WhileDone(cond->Blk_0, body->Blk_0);
                    lemma_wf_one(item);
                    lemma_wf_ev_rev(cond->Blk_0);
                    lemma_wf_concat(m0.work, seq![item]);
                    lemma_wf_concat(m0.work + seq![item], ev_rev(cond->Blk_0));
                }
            }
        },
        _ => {},
    }
}

/// A finished or failed outcome does not change with more steps.
pub proof fn lemma_run_extend(m: MachineV, n1: nat, n2: nat)
    requires
        n1 <= n2,
        !(run(m, n1) is Next),
    ensures
        run(m, n2) == run(m, n1),
    decreases n1,
{
    if n1 == 0 {
    } else {
        match step(m) {
            StepR::Next(m2) => {
                lemma_run_extend(m2, (n1 - 1) as nat, (n2 - 1) as nat);
            },
            _ => {},
        }
    }
}

/// After `n` steps the machine is mid-run; one more step acts on that
/// intermediate state.
pub proof fn lemma_run_succ(m: MachineV, n: nat, mid: MachineV)
    requires
        run(m, n) == StepR::Next(mid),
    ensures
        run(m, n + 1) == match step(mid) {
            StepR::Next(m2) => StepR::Next(m2),
            r => r,
        },
    decreases n,
{
    if n == 0 {
        assert(mid == m);
        match step(m) {
            StepR::Next(m2) => {
                assert(run(m, 1) == run(m2, 0));
            },
            _ => {},
        }
    } else {
        match step(m) {
            StepR::Next(m2) => {
                lemma_run_succ(m2, (n - 1) as nat, mid);
            },
            _ => {},
        }
    }
}

/// A run still going after `n` steps was going at every earlier point.
pub proof fn lemma_run_next_prefix(m: MachineV, n: nat, k: nat)
    requires
        k <= n,
        run(m, n) is Next,
    ensures
        run(m, k) is Next,
    decreases k,
{
    if k > 0 {
        match step(m) {
            StepR::Next(m2) => {
                lemma_run_next_prefix(m2, (n - 1) as nat, (k - 1) as nat);
            },
            _ => {
                assert(!(run(m, n) is Next));
            },
        }
    }
}


/// A binding made by `def` shadows every earlier binding of the name:
/// all lookups after it, from any scope at or inside the defining one,
/// see the new value.
pub proof fn lemma_define_shadows(scopes: Seq<ScopeV>, name: Seq<char>, v: ElemV)
    requires
        scopes.len() > 0,
    ensures
        lookup(define(scopes, name, v), name) == Some(v),
{
    let d = define(scopes, name, v);
    assert(d.last() == scopes.last().push((name, v)));
    assert(frame_get(d.last(), name) == Some(v));
}

/// A binding made by `def` changes no other name: lookups of every
/// other name resolve exactly as before.
pub proof fn lemma_define_preserves_others(
    scopes: Seq<ScopeV>,
    name: Seq<char>,
    v: ElemV,
    other: Seq<char>,
)
    requires
        scopes.len() > 0,
        other != name,
    ensures
        lookup(define(scopes, name, v), other) == lookup(scopes, other),
{
    let d = define(scopes, name, v);
    assert(d.last() == scopes.last().push((name, v)));
    assert(d.last().drop_last() =~= scopes.last());
    assert(frame_get(d.last(), other) == frame_get(scopes.last(), other));
    assert(d.drop_last() =~= scopes.drop_last());
}

/// A `def` made inside an invoked block's frame vanishes with the
/// frame: once the frame is popped the whole chain is as it was, so
/// function-local definitions do not leak to the caller.
pub proof fn lemma_local_define_vanishes(
    scopes: Seq<ScopeV>,
    frame: ScopeV,
    name: Seq<char>,
    v: ElemV,
)
    ensures
        define(scopes.push(frame), name, v).drop_last() == scopes,
{
    assert(define(scopes.push(frame), name, v).drop_last() =~= scopes);
}

/// An operation word is resolved when it is evaluated, not before: the
/// step taken for `Ev(Op(name))` reads the scope chain of that moment,
/// so a redefinition affects every later call, including calls made
/// from blocks built earlier.
pub proof fn lemma_operation_resolves_at_call(m: MachineV, name: Seq<char>, v: ElemV)
    requires
        m.work.len() > 0,
        m.work.last() == WorkV::Ev(ElemV::Op(name)),
        lookup(m.scopes, name) == Some(v),
        !(v is Blk),
        !(v is Native),
    ensures
        step(m) == StepR::Next(
            MachineV { stack: m.stack.push(v), work: m.work.drop_last(), ..m },
        ),
{
}

/// Every native operation begins by popping an operand, so on an empty
/// operand stack it fails with `StackUnderflow` at once and the stack
/// is left unchanged: still empty, with nothing consumed.
pub proof fn lemma_native_underflow(m: MachineV, name: Seq<char>, op: NativeOperation)
    requires
        m.work == seq![WorkV::Ev(ElemV::Op(name))],
        m.stack.len() == 0,
        lookup(m.scopes, name) == Some(ElemV::Native(op)),
    ensures
        run(m, 1) == StepR::Fail(
            MachineV { work: Seq::empty(), ..m },
            ErrV::StackUnderflow,
        ),
{
    assert(m.work.last() == WorkV::Ev(ElemV::Op(name)));
    assert(m.work.drop_last() =~= Seq::<WorkV>::empty());
    let m0 = MachineV { work: Seq::empty(), ..m };
    assert(MachineV { work: m.work.drop_last(), ..m } == m0);
    assert(apply_native(m0, op) == StepR::Fail(m0, ErrV::StackUnderflow));
}


/// The machine is deterministic: any two runs from one start state
/// that reach an outcome reach the same outcome. An outcome a contract
/// names is therefore the only one possible.
pub proof fn lemma_outcome_unique(m: MachineV, n1: nat, n2: nat)
    requires
        !(run(m, n1) is Next),
        !(run(m, n2) is Next),
    ensures
        run(m, n1) == run(m, n2),
{
    if n1 <= n2 {
        lemma_run_extend(m, n1, n2);
    } else {
        lemma_run_extend(m, n2, n1);
    }
}


/// One step only ever appends to the output buffer.
pub proof fn lemma_step_outputs_grow(m: MachineV)
    ensures
        match step(m) {
            StepR::Done(m2) => m.outputs.is_prefix_of(m2.outputs),
            StepR::Next(m2) => m.outputs.is_prefix_of(m2.outputs),
            StepR::Fail(m2, _) => m.outputs.is_prefix_of(m2.outputs),
        },
{
    assert(m.outputs.is_prefix_of(m.outputs)) by {
        assert(m.outputs.take(m.outputs.len() as int) =~= m.outputs);
    }
    if m.work.len() > 0 {
        let m0 = MachineV { work: m.work.drop_last(), ..m };
        match step(m) {
            StepR::Done(m2) => {},
            StepR::Next(m2) => {
                if m2.outputs != m.outputs {
                    assert(m2.outputs == m.outputs.push(m2.outputs.last()));
                    assert(m.outputs.is_prefix_of(m2.outputs)) by {
                        assert(m2.outputs.take(m.outputs.len() as int) =~= m.outputs);
                    }
                }
            },
            StepR::Fail(m2, _) => {},
        }
    }
}

/// The output buffer is append-only for the machine's lifetime: what a
/// run has reported stays, whatever comes after, even a failure.
pub proof fn lemma_run_outputs_grow(m: MachineV, n: nat)
    ensures
        match run(m, n) {
            StepR::Done(m2) => m.outputs.is_prefix_of(m2.outputs),
            StepR::Next(m2) => m.outputs.is_prefix_of(m2.outputs),
            StepR::Fail(m2, _) => m.outputs.is_prefix_of(m2.outputs),
        },
    decreases n,
{
    assert(m.outputs.is_prefix_of(m.outputs)) by {
        assert(m.outputs.take(m.outputs.len() as int) =~= m.outputs);
    }
    if n > 0 {
        lemma_step_outputs_grow(m);
        match step(m) {
            StepR::Next(m2) => {
                lemma_run_outputs_grow(m2, (n - 1) as nat);
                match run(m2, (n - 1) as nat) {
                    StepR::Done(m3) => lemma_prefix_trans(m.outputs, m2.outputs, m3.outputs),
                    StepR::Next(m3) => lemma_prefix_trans(m.outputs, m2.outputs, m3.outputs),
                    StepR::Fail(m3, _) => lemma_prefix_trans(m.outputs, m2.outputs, m3.outputs),
                }
            },
            _ => {},
        }
    }
}

/// Prefixes compose.
proof fn lemma_prefix_trans(a: Seq<int>, b: Seq<int>, c: Seq<int>)
    requires
        a.is_prefix_of(b),
        b.is_prefix_of(c),
    ensures
        a.is_prefix_of(c),
{
    assert(c.take(a.len() as int) =~= b.take(a.len() as int));
}

} // verus!
