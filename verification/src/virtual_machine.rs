//! The machine behind its entry points, and the whole batch pipeline
//! from source lines to outputs.

use vstd::prelude::*;

use crate::element::{Element, ElemV, elem_view, elems_view, lemma_elems_view_len,
    lemma_elems_view_index};
use crate::errors::{Error, ErrV, EvalError, ParseError, err_matches};
use crate::parser::{Parser, word_run, words_of, strs_view};
use crate::semantics::{MachineV, StepR, load, run, unwind};
use crate::stack::{Stack, initial_machine, outs_view, STEP_BUDGET};

verus! {

/// One completed evaluation: from resting state `m`, evaluating `v`
/// runs the machine to the resting state `m2`.
pub open spec fn machine_runs_to(m: MachineV, v: ElemV, m2: MachineV) -> bool {
    exists|n: nat| #![trigger run(load(m, v), n)] run(load(m, v), n) == StepR::Done(m2)
}

/// One failed evaluation: from resting state `m`, evaluating `v` fails
/// with `ev` in machine state `mf`.
pub open spec fn machine_fails(m: MachineV, v: ElemV, mf: MachineV, ev: ErrV) -> bool {
    exists|n: nat| #![trigger run(load(m, v), n)] run(load(m, v), n) == StepR::Fail(mf, ev)
}

/// Each element evaluated in order, every one to completion.
pub open spec fn eval_elems_ok(m: MachineV, es: Seq<ElemV>, m2: MachineV) -> bool
    decreases es.len(),
{
    if es.len() == 0 {
        m2 == m
    } else {
        exists|mid: MachineV|
            #![auto]
            eval_elems_ok(m, es.drop_last(), mid) && machine_runs_to(mid, es.last(), m2)
    }
}

/// The whole pipeline over a sequence of lines: each line parsed with
/// the parser state carried over, its completed elements evaluated at
/// once, with no failure anywhere.
pub open spec fn batch_ok(
    pst: Seq<Seq<ElemV>>,
    m: MachineV,
    lines: Seq<Seq<char>>,
    pst2: Seq<Seq<ElemV>>,
    m2: MachineV,
) -> bool
    decreases lines.len(),
{
    if lines.len() == 0 {
        pst2 == pst && m2 == m
    } else {
        exists|pmid: Seq<Seq<ElemV>>, mmid: MachineV, es: Seq<ElemV>|
            #![auto]
            {
                &&& batch_ok(pst, m, lines.drop_last(), pmid, mmid)
                &&& word_run(pmid, words_of(lines.last())) == Some((pst2, es))
                &&& eval_elems_ok(mmid, es, m2)
            }
    }
}

/// Extending a completed element run by one more completed evaluation.
proof fn lemma_eval_elems_snoc(m: MachineV, es: Seq<ElemV>, m1: MachineV, v: ElemV, m2: MachineV)
    requires
        eval_elems_ok(m, es, m1),
        machine_runs_to(m1, v, m2),
    ensures
        eval_elems_ok(m, es.push(v), m2),
{
    assert(es.push(v).drop_last() =~= es);
    assert(es.push(v).last() == v);
    assert(eval_elems_ok(m, es.push(v).drop_last(), m1) && machine_runs_to(
        m1,
        es.push(v).last(),
        m2,
    ));
}

/// Extending a completed batch by one more completed line.
proof fn lemma_batch_snoc(
    pst: Seq<Seq<ElemV>>,
    m: MachineV,
    lines: Seq<Seq<char>>,
    pst1: Seq<Seq<ElemV>>,
    m1: MachineV,
    line: Seq<char>,
    pst2: Seq<Seq<ElemV>>,
    es: Seq<ElemV>,
    m2: MachineV,
)
    requires
        batch_ok(pst, m, lines, pst1, m1),
        word_run(pst1, words_of(line)) == Some((pst2, es)),
        eval_elems_ok(m1, es, m2),
    ensures
        batch_ok(pst, m, lines.push(line), pst2, m2),
{
    assert(lines.push(line).drop_last() =~= lines);
    assert(lines.push(line).last() == line);
    assert({
        &&& batch_ok(pst, m, lines.push(line).drop_last(), pst1, m1)
        &&& word_run(pst1, words_of(lines.push(line).last())) == Some((pst2, es))
        &&& eval_elems_ok(m1, es, m2)
    });
}

/// The stack machine together with its entry point: feeds elements to
/// the operand stack evaluator.
#[derive(Debug)]
pub struct VirtualMachine {
    stack: Stack,
}

impl View for VirtualMachine {
    type V = MachineV;

    closed spec fn view(&self) -> MachineV {
        self.stack@
    }
}

impl VirtualMachine {
    /// A machine in its start state.
    pub fn new() -> (vm: VirtualMachine)
        ensures
            vm@ == initial_machine(),
    {
        VirtualMachine { stack: Stack::new() }
    }

    /// Evaluates one element, as `Stack::evaluate` does.
    pub fn evaluate(&mut self, element: Element) -> (r: Result<(), EvalError>)
        ensures
            match r {
                Ok(_) => machine_runs_to(old(self)@, elem_view(element), final(self)@),
                Err(e) => if e == EvalError::StepLimit {
                    forall|n: nat|
                        n <= STEP_BUDGET ==> #[trigger] run(
                            load(old(self)@, elem_view(element)),
                            n,
                        ) is Next
                } else {
                    exists|mf: MachineV, ev: ErrV|
                        #![auto]
                        machine_fails(old(self)@, elem_view(element), mf, ev) && err_matches(e, ev)
                            && final(self)@ == unwind(mf, old(self)@.scopes.len() as int)
                },
            },
    {
        let r = self.stack.evaluate(element);
        proof {
            let m = old(self).stack@;
            let v = elem_view(element);
            match &r {
                Ok(_) => {
                    let n = choose|n: nat|
                        #![trigger run(load(m, v), n)]
                        run(load(m, v), n) == StepR::Done(self.stack@);
                    assert(run(load(old(self)@, v), n) == StepR::Done(self@));
                },
                Err(e) => {
                    let e = *e;
                    if e == EvalError::StepLimit {
                        assert forall|n: nat| n <= STEP_BUDGET implies #[trigger] run(
                            load(old(self)@, v),
                            n,
                        ) is Next by {
                            assert(run(load(m, v), n) is Next);
                        }
                    } else {
                        let n = choose|n: nat|
                            #![trigger run(load(m, v), n)]
                            match run(load(m, v), n) {
                                StepR::Fail(mf, ev) => err_matches(e, ev) && self.stack@ == unwind(
                                    mf,
                                    m.scopes.len() as int,
                                ),
                                _ => false,
                            };
                        match run(load(m, v), n) {
                            StepR::Fail(mf, ev) => {
                                assert(run(load(old(self)@, v), n) == StepR::Fail(mf, ev));
                                assert(machine_fails(old(self)@, v, mf, ev));
                            },
                            _ => {
                                assert(false);
                            },
                        }
                    }
                },
            }
        }
        r
    }

    /// Read-only access to the machine state.
    pub fn stack(&self) -> (r: &Stack)
        ensures
            r@ == self@,
    {
        &self.stack
    }

    /// The accumulated `puts` outputs, in order.
    pub fn outputs(&self) -> (r: &Vec<i32>)
        ensures
            outs_view(r@) == self@.outputs,
    {
        self.stack.outputs()
    }
}

/// Feeds every line through one parser into one machine and reports
/// the `puts` outputs, or the first failure. This is the whole batch
/// pipeline; reading the lines and printing the outputs is left to the
/// embedding.
pub fn parse_batch(lines: Vec<String>) -> (r: Result<Vec<i32>, Error>)
    ensures
        match r {
            Ok(outs) => exists|pst2: Seq<Seq<ElemV>>, m2: MachineV|
                #![auto]
                batch_ok(
                    Seq::empty(),
                    initial_machine(),
                    strs_view(lines@),
                    pst2,
                    m2,
                ) && outs_view(outs@) == m2.outputs,
            Err(e) => match e {
                Error::Parse(pe) => pe == ParseError::UnmatchedCloseBrace && exists|
                    k: int,
                    pst1: Seq<Seq<ElemV>>,
                    m1: MachineV,
                |
                    #![auto]
                    {
                        &&& 0 <= k < lines@.len()
                        &&& batch_ok(
                            Seq::empty(),
                            initial_machine(),
                            strs_view(lines@).take(k),
                            pst1,
                            m1,
                        )
                        &&& word_run(pst1, words_of(lines@[k]@)) is None
                    },
                Error::Eval(e) => exists|
                    k: int,
                    pst1: Seq<Seq<ElemV>>,
                    m1: MachineV,
                    pst2: Seq<Seq<ElemV>>,
                    es: Seq<ElemV>,
                    j: int,
                    mj: MachineV,
                |
                    #![auto]
                    {
                        &&& 0 <= k < lines@.len()
                        &&& batch_ok(
                            Seq::empty(),
                            initial_machine(),
                            strs_view(lines@).take(k),
                            pst1,
                            m1,
                        )
                        &&& word_run(pst1, words_of(lines@[k]@)) == Some((pst2, es))
                        &&& 0 <= j < es.len()
                        &&& eval_elems_ok(m1, es.take(j), mj)
                        &&& if e == EvalError::StepLimit {
                            forall|n: nat|
                                n <= STEP_BUDGET ==> #[trigger] run(load(mj, es[j]), n) is Next
                        } else {
                            exists|mf: MachineV, ev: ErrV|
                                #![auto]
                                machine_fails(mj, es[j], mf, ev) && err_matches(e, ev)
                        }
                    },
            },
        },
{
    let mut machine = VirtualMachine::new();
    let mut parser = Parser::new();
    let mut li: usize = 0;
    let ghost lv = strs_view(lines@);
    proof {
        assert(lv.take(0) =~= Seq::<Seq<char>>::empty());
    }
    while li < lines.len()
        invariant
            li <= lines@.len(),
            lv == strs_view(lines@),
            batch_ok(Seq::empty(), initial_machine(), lv.take(li as int), parser@, machine@),
        decreases lines@.len() - li,
    {
        let ghost pst1 = parser@;
        let ghost m1 = machine@;
        let line = lines[li].clone();
        proof {
            assert(line@ == lv[li as int]);
        }
        let es = match parser.parse(line) {
            Ok(es) => es,
            Err(pe) => {
                return Err(Error::Parse(pe));
            },
        };
        let ghost esv = elems_view(es@);
        let ghost pst2 = parser@;
        let mut ei: usize = 0;
        proof {
            lemma_elems_view_len(es@);
            assert(esv.take(0) =~= Seq::<ElemV>::empty());
        }
        while ei < es.len()
            invariant
                ei <= es@.len(),
                esv == elems_view(es@),
                esv.len() == es@.len(),
                lv == strs_view(lines@),
                li < lines@.len(),
                batch_ok(Seq::empty(), initial_machine(), lv.take(li as int), pst1, m1),
                word_run(pst1, words_of(lv[li as int])) == Some((pst2, esv)),
                eval_elems_ok(m1, esv.take(ei as int), machine@),
            decreases es@.len() - ei,
        {
            let ghost mj = machine@;
            let e = es[ei].clone();
            proof {
                lemma_elems_view_index(es@, ei as int);
                assert(elem_view(e) == esv[ei as int]);
            }
            match machine.evaluate(e) {
                Ok(_) => {
                    proof {
                        lemma_eval_elems_snoc(
                            m1,
                            esv.take(ei as int),
                            mj,
                            esv[ei as int],
                            machine@,
                        );
                        assert(esv.take(ei as int).push(esv[ei as int]) =~= esv.take(
                            ei + 1 as int,
                        ));
                    }
                },
                Err(ee) => {
                    return Err(Error::Eval(ee));
                },
            }
            ei = ei + 1;
        }
        proof {
            assert(esv.take(es@.len() as int) =~= esv);
            lemma_batch_snoc(
                Seq::empty(),
                initial_machine(),
                lv.take(li as int),
                pst1,
                m1,
                lv[li as int],
                pst2,
                esv,
                machine@,
            );
            assert(lv.take(li as int).push(lv[li as int]) =~= lv.take(li + 1 as int));
        }
        li = li + 1;
    }
    proof {
        assert(lv.take(lines@.len() as int) =~= lv);
    }
    let outs = copy_outputs(machine.outputs());
    Ok(outs)
}

/// An owned copy of the output buffer.
fn copy_outputs(v: &Vec<i32>) -> (r: Vec<i32>)
    ensures
        r@ == v@,
{
    let mut r: Vec<i32> = Vec::new();
    let mut i: usize = 0;
    while i < v.len()
        invariant
            i <= v@.len(),
            r@ == v@.take(i as int),
        decreases v@.len() - i,
    {
        r.push(v[i]);
        proof {
            assert(r@ =~= v@.take(i + 1 as int));
        }
        i = i + 1;
    }
    proof {
        assert(v@.take(v@.len() as int) =~= v@);
    }
    r
}

} // verus!
