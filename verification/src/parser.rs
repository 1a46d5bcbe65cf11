//! The streaming recursive block parser: it turns whitespace-split
//! words into elements, nests `{ ... }` groups, and carries open
//! blocks across line boundaries.

use vstd::prelude::*;

use crate::element::{Block, Element, ElemV, elem_view, elems_view, lemma_elems_view_push};
use crate::errors::ParseError;
use crate::literal::classify_word;

verus! {

/// The words of a line: the segments between space characters, in order,
/// kept even when empty. A line with no space is one word.
pub open spec fn words_of(s: Seq<char>) -> Seq<Seq<char>>
    decreases s.len(),
{
    if s.len() == 0 {
        seq![Seq::empty()]
    } else if s[0] == ' ' {
        seq![Seq::<char>::empty()] + words_of(s.drop_first())
    } else {
        let rest = words_of(s.drop_first());
        seq![seq![s[0]] + rest[0]] + rest.drop_first()
    }
}

/// `words_of` never yields an empty word list.
pub proof fn lemma_words_of_nonempty(s: Seq<char>)
    ensures
        words_of(s).len() >= 1,
    decreases s.len(),
{
    if s.len() > 0 && s[0] != ' ' {
        lemma_words_of_nonempty(s.drop_first());
    }
}

/// A sequence without a space is a single word.
proof fn lemma_words_of_nospace(s: Seq<char>)
    requires
        forall|j: int| 0 <= j < s.len() ==> s[j] != ' ',
    ensures
        words_of(s) == seq![s],
    decreases s.len(),
{
    if s.len() == 0 {
        assert(s =~= Seq::<char>::empty());
        assert(words_of(s) =~~= seq![s]);
    } else {
        lemma_words_of_nospace(s.drop_first());
        lemma_words_of_nonempty(s.drop_first());
        assert(seq![s[0]] + s.drop_first() =~= s);
        assert(words_of(s) =~~= seq![s]);
    }
}

/// Splitting at the first space: the word before it, then the words after it.
proof fn lemma_words_of_split(s: Seq<char>, k: int)
    requires
        0 <= k < s.len(),
        s[k] == ' ',
        forall|j: int| 0 <= j < k ==> s[j] != ' ',
    ensures
        words_of(s) == seq![s.take(k)] + words_of(s.skip(k + 1)),
    decreases k,
{
    if k == 0 {
        assert(s.take(0) =~= Seq::<char>::empty());
        assert(s.skip(1) =~= s.drop_first());
    } else {
        lemma_words_of_split(s.drop_first(), k - 1);
        lemma_words_of_nonempty(s.drop_first().skip(k));
        assert(s.drop_first().take(k - 1) =~= s.take(k).drop_first());
        assert(s.drop_first().skip(k) =~= s.skip(k + 1));
        assert(seq![s[0]] + s.take(k).drop_first() =~= s.take(k));
        assert(words_of(s) =~= seq![s.take(k)] + words_of(s.skip(k + 1)));
    }
}

/// The views of a sequence of strings.
pub open spec fn strs_view(ss: Seq<String>) -> Seq<Seq<char>> {
    Seq::new(ss.len(), |i: int| ss[i]@)
}

/// Splits a line on single spaces, as the word splitter of the language
/// does: consecutive spaces yield empty words.
fn split_words(line: &str) -> (ws: Vec<String>)
    ensures
        strs_view(ws@) == words_of(line@),
{
    let len = line.unicode_len();
    let mut ws: Vec<String> = Vec::new();
    let mut start: usize = 0;
    let mut i: usize = 0;
    proof {
        assert(line@.skip(0) =~= line@);
        assert(strs_view(ws@) + words_of(line@) =~= words_of(line@));
    }
    while i < len
        invariant
            start <= i <= len,
            len == line@.len(),
            forall|j: int| start <= j < i ==> line@[j] != ' ',
            words_of(line@) == strs_view(ws@) + words_of(line@.skip(start as int)),
        decreases len - i,
    {
        if line.get_char(i) == ' ' {
            proof {
                let tail = line@.skip(start as int);
                lemma_words_of_split(tail, i - start);
                assert(tail.take(i - start) =~= line@.subrange(start as int, i as int));
                assert(tail.skip(i - start + 1) =~= line@.skip(i + 1 as int));
            }
            let word = line.substring_char(start, i).to_owned();
            ws.push(word);
            proof {
                assert(strs_view(ws@).drop_last() =~= strs_view(ws@.drop_last()));
                assert(strs_view(ws@) =~= strs_view(ws@.drop_last()) + seq![
                    line@.subrange(start as int, i as int),
                ]);
                assert(words_of(line@) =~= strs_view(ws@) + words_of(line@.skip(i + 1 as int)));
            }
            start = i + 1;
        }
        i = i + 1;
    }
    proof {
        lemma_words_of_nospace(line@.skip(start as int));
    }
    let word = line.substring_char(start, len).to_owned();
    ws.push(word);
    proof {
        assert(line@.subrange(start as int, len as int) =~= line@.skip(start as int));
        assert(strs_view(ws@.drop_last()) =~= strs_view(ws@).drop_last());
        assert(strs_view(ws@) =~= words_of(line@));
    }
    ws
}

/// The word that opens a block.
pub open spec fn is_open(w: Seq<char>) -> bool {
    w.len() == 1 && w[0] == '{'
}

/// The word that closes a block.
pub open spec fn is_close(w: Seq<char>) -> bool {
    w.len() == 1 && w[0] == '}'
}

/// One word applied to the parser state. The state is the stack of open
/// block accumulators, outermost first. The result is the new state and
/// the completed top-level elements the word yields (none or one);
/// `None` reports a `}` with no block open.
pub open spec fn word_step(st: Seq<Seq<ElemV>>, w: Seq<char>) -> Option<
    (Seq<Seq<ElemV>>, Seq<ElemV>),
> {
    if w.len() == 0 {
        Some((st, Seq::empty()))
    } else if is_open(w) {
        Some((st.push(Seq::empty()), Seq::empty()))
    } else if is_close(w) {
        if st.len() == 0 {
            None
        } else {
            let b = ElemV::Blk(st.last());
            let st1 = st.drop_last();
            if st1.len() == 0 {
                Some((st1, seq![b]))
            } else {
                Some((st1.update(st1.len() - 1, st1.last().push(b)), Seq::empty()))
            }
        }
    } else {
        let e = classify_word(w);
        if st.len() == 0 {
            Some((st, seq![e]))
        } else {
            Some((st.update(st.len() - 1, st.last().push(e)), Seq::empty()))
        }
    }
}

/// A whole word sequence applied to the parser state, concatenating the
/// completed top-level elements of every word.
pub open spec fn word_run(st: Seq<Seq<ElemV>>, ws: Seq<Seq<char>>) -> Option<
    (Seq<Seq<ElemV>>, Seq<ElemV>),
>
    decreases ws.len(),
{
    if ws.len() == 0 {
        Some((st, Seq::empty()))
    } else {
        match word_step(st, ws[0]) {
            None => None,
            Some((st1, out1)) => match word_run(st1, ws.drop_first()) {
                None => None,
                Some((st2, out2)) => Some((st2, out1 + out2)),
            },
        }
    }
}

/// Feeding a word sequence in two portions, carrying the state across,
/// yields the very same state and elements as feeding it whole. This is
/// what lets a block opened on one line close on a later one.
pub proof fn lemma_word_run_append(st: Seq<Seq<ElemV>>, ws1: Seq<Seq<char>>, ws2: Seq<Seq<char>>)
    ensures
        word_run(st, ws1 + ws2) == match word_run(st, ws1) {
            None => None::<(Seq<Seq<ElemV>>, Seq<ElemV>)>,
            Some((st1, out1)) => match word_run(st1, ws2) {
                None => None::<(Seq<Seq<ElemV>>, Seq<ElemV>)>,
                Some((st2, out2)) => Some((st2, out1 + out2)),
            },
        },
    decreases ws1.len(),
{
    if ws1.len() == 0 {
        assert(ws1 + ws2 =~= ws2);
        match word_run(st, ws2) {
            None => {},
            Some((st2, out2)) => {
                assert(Seq::<ElemV>::empty() + out2 =~= out2);
            },
        }
    } else {
        assert((ws1 + ws2)[0] == ws1[0]);
        assert((ws1 + ws2).drop_first() =~= ws1.drop_first() + ws2);
        match word_step(st, ws1[0]) {
            None => {},
            Some((st1, out1)) => {
                lemma_word_run_append(st1, ws1.drop_first(), ws2);
                match word_run(st1, ws1.drop_first()) {
                    None => {},
                    Some((stm, outm)) => {
                        match word_run(stm, ws2) {
                            None => {},
                            Some((st2, out2)) => {
                                assert(out1 + (outm + out2) =~= (out1 + outm) + out2);
                            },
                        }
                    },
                }
            },
        }
    }
}

/// Inserting a space splits a line into the words of its two halves, so
/// `lemma_word_run_append` carries over to lines split at a space.
pub proof fn lemma_words_of_concat(l1: Seq<char>, l2: Seq<char>)
    ensures
        words_of(l1 + seq![' '] + l2) == words_of(l1) + words_of(l2),
    decreases l1.len(),
{
    let s = l1 + seq![' '] + l2;
    if l1.len() == 0 {
        assert(s[0] == ' ');
        assert(s.drop_first() =~= l2);
        assert(words_of(s) =~= words_of(l1) + words_of(l2));
    } else {
        lemma_words_of_concat(l1.drop_first(), l2);
        lemma_words_of_nonempty(l1.drop_first());
        lemma_words_of_nonempty(l1.drop_first() + seq![' '] + l2);
        assert(s[0] == l1[0]);
        assert(s.drop_first() =~= l1.drop_first() + seq![' '] + l2);
        if l1[0] == ' ' {
            assert(words_of(s) =~= words_of(l1) + words_of(l2));
        } else {
            let rest = words_of(l1.drop_first() + seq![' '] + l2);
            let restw = words_of(l1.drop_first());
            assert(rest[0] == restw[0]);
            assert(rest.drop_first() =~= restw.drop_first() + words_of(l2));
            assert(words_of(s) =~= words_of(l1) + words_of(l2));
        }
    }
}

/// The streaming block parser. It owns the stack of open-block
/// accumulators, the one piece of state carried from line to line.
#[derive(Debug)]
pub struct Parser {
    blocks: Vec<Vec<Element>>,
}

/// The models of a stack of accumulators.
pub open spec fn accs_view(bs: Seq<Vec<Element>>) -> Seq<Seq<ElemV>> {
    Seq::new(bs.len(), |i: int| elems_view(bs[i]@))
}

impl View for Parser {
    type V = Seq<Seq<ElemV>>;

    closed spec fn view(&self) -> Seq<Seq<ElemV>> {
        accs_view(self.blocks@)
    }
}

impl Parser {
    /// A parser with no block open.
    pub fn new() -> (p: Parser)
        ensures
            p@ == Seq::<Seq<ElemV>>::empty(),
    {
        let p = Parser { blocks: Vec::new() };
        proof {
            assert(p@ =~= Seq::<Seq<ElemV>>::empty());
        }
        p
    }

    /// Feeds one line to the parser and returns the top-level elements it
    /// completes, which may be none while a block stays open. The
    /// accumulator stack is carried over to the next call. A `}` with no
    /// open block fails, leaving no block open.
    pub fn parse(&mut self, line: String) -> (r: Result<Vec<Element>, ParseError>)
        ensures
            match r {
                Ok(out) => word_run(old(self)@, words_of(line@)) == Some(
                    (final(self)@, elems_view(out@)),
                ),
                Err(e) => {
                    &&& e == ParseError::UnmatchedCloseBrace
                    &&& word_run(old(self)@, words_of(line@)) is None
                    &&& final(self)@.len() == 0
                },
            },
    {
        let words = split_words(line.as_str());
        let ghost ws = words_of(line@);
        let ghost st0 = self@;
        let mut out: Vec<Element> = Vec::new();
        let mut k: usize = 0;
        proof {
            assert(ws.skip(0) =~= ws);
            assert(elems_view(out@) + Seq::<ElemV>::empty() =~= elems_view(out@));
        }
        while k < words.len()
            invariant
                k <= words.len(),
                strs_view(words@) == ws,
                ws == words_of(line@),
                st0 == old(self)@,
                ({
                    match word_run(self@, ws.skip(k as int)) {
                        None => word_run(st0, ws) is None,
                        Some((stf, of)) => word_run(st0, ws) == Some(
                            (stf, elems_view(out@) + of),
                        ),
                    }
                }),
            decreases words.len() - k,
        {
            let ghost pre = self@;
            let ghost out_pre = elems_view(out@);
            let ghost rem = ws.skip(k as int);
            proof {
                assert(rem[0] == words@[k as int]@);
            }
            let word = &words[k];
            let wlen = word.as_str().unicode_len();
            let ghost mut out1 = Seq::<ElemV>::empty();
            if wlen == 0 {
                // an empty word leaves everything unchanged
            } else if wlen == 1 && word.as_str().get_char(0) == '{' {
                self.blocks.push(Vec::new());
                proof {
                    assert(self@ =~~= pre.push(Seq::<ElemV>::empty()));
                }
            } else if wlen == 1 && word.as_str().get_char(0) == '}' {
                if self.blocks.len() == 0 {
                    proof {
                        assert(is_close(rem[0]));
                        assert(pre.len() == 0);
                        assert(word_run(pre, rem) is None);
                    }
                    return Err(ParseError::UnmatchedCloseBrace);
                }
                let done = self.blocks.pop().unwrap();
                let b = Element::Block(Block::from_vec(done));
                if self.blocks.len() == 0 {
                    let ghost o0 = out@;
                    proof {
                        assert(elems_view(done@) == pre.last());
                    }
                    out.push(b);
                    proof {
                        out1 = seq![ElemV::Blk(pre.last())];
                        assert(self@ =~~= pre.drop_last());
                        lemma_elems_view_push(o0, b);
                        assert(elems_view(out@) =~= out_pre + out1);
                    }
                } else {
                    proof {
                        assert(accs_view(self.blocks@) =~~= pre.drop_last());
                    }
                    push_top(&mut self.blocks, b);
                    proof {
                        let st1 = pre.drop_last();
                        assert(self@ == st1.update(
                            st1.len() - 1,
                            st1.last().push(ElemV::Blk(pre.last())),
                        ));
                    }
                }
            } else {
                let e = Element::parse(word.as_str()).unwrap();
                let ghost ev = classify_word(word@);
                if self.blocks.len() == 0 {
                    let ghost o0 = out@;
                    out.push(e);
                    proof {
                        out1 = seq![ev];
                        lemma_elems_view_push(o0, e);
                        assert(elems_view(out@) =~= out_pre + out1);
                    }
                } else {
                    push_top(&mut self.blocks, e);
                    proof {
                        assert(self@ == pre.update(pre.len() - 1, pre.last().push(ev)));
                    }
                }
            }
            proof {
                assert(word_step(pre, rem[0]) == Some((self@, out1)));
                if out1.len() == 0 {
                    assert(elems_view(out@) =~= out_pre + out1);
                }
                lemma_run_step_compose(st0, ws, k as int, pre, out_pre, self@, out1);
            }
            k = k + 1;
        }
        proof {
            assert(ws.skip(words@.len() as int) =~= Seq::<Seq<char>>::empty());
            assert(elems_view(out@) + Seq::<ElemV>::empty() =~= elems_view(out@));
        }
        Ok(out)
    }
}

/// One successful word step composes with the run of the remaining words.
proof fn lemma_run_step_compose(
    st0: Seq<Seq<ElemV>>,
    ws: Seq<Seq<char>>,
    k: int,
    pre: Seq<Seq<ElemV>>,
    out_pre: Seq<ElemV>,
    st_new: Seq<Seq<ElemV>>,
    out1: Seq<ElemV>,
)
    requires
        0 <= k < ws.len(),
        word_step(pre, ws[k]) == Some((st_new, out1)),
        match word_run(pre, ws.skip(k)) {
            None => word_run(st0, ws) is None,
            Some((stf, of)) => word_run(st0, ws) == Some((stf, out_pre + of)),
        },
    ensures
        match word_run(st_new, ws.skip(k + 1)) {
            None => word_run(st0, ws) is None,
            Some((stf, of)) => word_run(st0, ws) == Some((stf, (out_pre + out1) + of)),
        },
{
    let rem = ws.skip(k);
    assert(rem[0] == ws[k]);
    assert(rem.drop_first() =~= ws.skip(k + 1));
    match word_run(st_new, ws.skip(k + 1)) {
        None => {},
        Some((stf, of2)) => {
            assert(word_run(pre, rem) == Some((stf, out1 + of2)));
            assert(out_pre + (out1 + of2) =~= (out_pre + out1) + of2);
        },
    }
}

/// Appends an element to the innermost open accumulator.
fn push_top(blocks: &mut Vec<Vec<Element>>, e: Element)
    requires
        old(blocks)@.len() > 0,
    ensures
        accs_view(final(blocks)@) == accs_view(old(blocks)@).update(
            old(blocks)@.len() - 1,
            accs_view(old(blocks)@).last().push(elem_view(e)),
        ),
{
    let ghost b0 = blocks@;
    let ghost ev = elem_view(e);
    let mut top = blocks.pop().unwrap();
    top.push(e);
    blocks.push(top);
    proof {
        lemma_elems_view_push(b0.last()@, e);
        assert(accs_view(blocks@) =~~= accs_view(b0).update(
            b0.len() - 1,
            accs_view(b0).last().push(ev),
        ));
    }
}

} // verus!
