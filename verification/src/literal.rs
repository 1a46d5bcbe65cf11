//! How a single word of source text reads as an element.

use vstd::prelude::*;

use crate::element::{Element, ElemV, elem_view};

verus! {

/// A decimal digit character.
pub open spec fn is_digit(c: char) -> bool {
    48 <= c as u32 <= 57
}

/// The value of a decimal digit character.
pub open spec fn digit_val(c: char) -> nat {
    (c as u32 - 48) as nat
}

/// Every character of the sequence is a decimal digit.
pub open spec fn all_digits(s: Seq<char>) -> bool {
    forall|i: int| 0 <= i < s.len() ==> is_digit(#[trigger] s[i])
}

/// The number denoted by a sequence of decimal digits, most significant first.
pub open spec fn digits_val(s: Seq<char>) -> nat
    decreases s.len(),
{
    if s.len() == 0 {
        0
    } else {
        digits_val(s.drop_last()) * 10 + digit_val(s.last())
    }
}

/// The value of a word that is an integer literal: an optional sign, then
/// one or more digits, denoting a value that fits in 32 signed bits.
/// `None` for every other word.
pub open spec fn int_literal(w: Seq<char>) -> Option<int> {
    let neg = w.len() > 0 && w[0] == '-';
    let signed = w.len() > 0 && (w[0] == '-' || w[0] == '+');
    let ds = if signed {
        w.drop_first()
    } else {
        w
    };
    if ds.len() > 0 && all_digits(ds) {
        let v: int = if neg {
            -(digits_val(ds) as int)
        } else {
            digits_val(ds) as int
        };
        if -0x8000_0000 <= v < 0x8000_0000 {
            Some(v)
        } else {
            None
        }
    } else {
        None
    }
}

/// How a single non-empty word reads as an element: an integer literal
/// becomes a number, a `/` followed by a word becomes a symbol of that
/// word, anything else becomes a deferred operation. A lone `/` is the
/// division operator, not a symbol.
pub open spec fn classify_word(w: Seq<char>) -> ElemV {
    match int_literal(w) {
        Some(v) => ElemV::Num(v),
        None => if w.len() > 1 && w[0] == '/' {
            ElemV::Sym(w.drop_first())
        } else {
            ElemV::Op(w)
        },
    }
}

/// `digits_val` saturated at `0x1_0000_0000`, which is above every bound
/// the literal range check needs.
spec fn sat_val(s: Seq<char>) -> nat {
    if digits_val(s) <= 0x1_0000_0000 {
        digits_val(s)
    } else {
        0x1_0000_0000
    }
}

/// Reads the digit run of `w` from position `start` on, reporting the
/// saturated value, or `None` on the first non-digit.
fn scan_digits(w: &str, start: usize) -> (r: Option<u64>)
    requires
        start <= w@.len(),
    ensures
        match r {
            Some(acc) => all_digits(w@.skip(start as int)) && acc == sat_val(
                w@.skip(start as int),
            ),
            None => !all_digits(w@.skip(start as int)),
        },
{
    let len = w.unicode_len();
    let mut i: usize = start;
    let mut acc: u64 = 0;
    while i < len
        invariant
            start <= i <= len,
            len == w@.len(),
            all_digits(w@.subrange(start as int, i as int)),
            acc == sat_val(w@.subrange(start as int, i as int)),
            acc <= 0x1_0000_0000,
        decreases len - i,
    {
        let c = w.get_char(i);
        let cv = c as u32;
        if cv < 48 || cv > 57 {
            assert(!all_digits(w@.skip(start as int))) by {
                assert(w@.skip(start as int)[i - start] == w@[i as int]);
            }
            return None;
        }
        let d: u64 = (cv - 48) as u64;
        let tmp: u64 = acc * 10 + d;
        let next: u64 = if tmp > 0x1_0000_0000 {
            0x1_0000_0000
        } else {
            tmp
        };
        proof {
            let pre = w@.subrange(start as int, i as int);
            let post = w@.subrange(start as int, i + 1 as int);
            assert(post.drop_last() =~= pre);
            assert(post.last() == w@[i as int]);
            assert(digits_val(post) == digits_val(pre) * 10 + digit_val(w@[i as int]));
        }
        acc = next;
        i = i + 1;
    }
    proof {
        assert(w@.subrange(start as int, len as int) =~= w@.skip(start as int));
    }
    Some(acc)
}

/// Reads `w` as a 32-bit integer literal, exactly when `int_literal`
/// gives it a value.
pub fn parse_int(w: &str) -> (r: Option<i32>)
    ensures
        match r {
            Some(n) => int_literal(w@) == Some(n as int),
            None => int_literal(w@) is None,
        },
{
    let len = w.unicode_len();
    if len == 0 {
        return None;
    }
    let c0 = w.get_char(0);
    let neg = c0 == '-';
    let signed = c0 == '-' || c0 == '+';
    let start: usize = if signed {
        1
    } else {
        0
    };
    if start >= len {
        return None;
    }
    proof {
        if signed {
            assert(w@.skip(1) =~= w@.drop_first());
        } else {
            assert(w@.skip(0) =~= w@);
        }
    }
    match scan_digits(w, start) {
        None => None,
        Some(acc) => {
            let bound: u64 = if neg {
                0x8000_0000
            } else {
                0x7FFF_FFFF
            };
            if acc > bound {
                None
            } else {
                if neg {
                    if acc == 0x8000_0000 {
                        Some(i32::MIN)
                    } else {
                        Some(-(acc as i32))
                    }
                } else {
                    Some(acc as i32)
                }
            }
        },
    }
}

impl Element {
    /// Reads one word as an element; empty words read as nothing.
    /// Brace words are not special here: grouping is the parser's business.
    pub fn parse(word: &str) -> (r: Option<Element>)
        ensures
            match r {
                Some(e) => word@.len() > 0 && elem_view(e) == classify_word(word@),
                None => word@.len() == 0,
            },
    {
        let len = word.unicode_len();
        if len == 0 {
            return None;
        }
        match parse_int(word) {
            Some(n) => Some(Element::Number(n)),
            None => {
                if len > 1 && word.get_char(0) == '/' {
                    let name = word.substring_char(1, len).to_owned();
                    proof {
                        assert(name@ =~= word@.drop_first());
                    }
                    Some(Element::Symbol(name))
                } else {
                    Some(Element::Operation(word.to_owned()))
                }
            },
        }
    }
}

} // verus!
