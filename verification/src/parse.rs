//! Parsing one line of interactive feedback.
//!
//! The oracle answers with a line of the form `"<digit>, <digit>\n"`: a digit,
//! a comma, optional whitespace, a digit, optional whitespace, a newline.
//! Anything after the newline is ignored. A line of any other shape is
//! rejected, and the caller prompts again.

use vstd::prelude::*;

verus! {

/// An ASCII decimal digit.
pub open spec fn is_digit_byte(b: u8) -> bool {
    48 <= b <= 57
}

/// ASCII whitespace: space, tab, newline, vertical tab, form feed, carriage
/// return.
pub open spec fn is_space_byte(b: u8) -> bool {
    b == 32 || b == 9 || b == 10 || b == 11 || b == 12 || b == 13
}

/// From `from` onward: zero or more whitespace bytes, then a newline.
pub open spec fn spaces_then_newline(s: Seq<u8>, from: int) -> bool {
    exists|e: int| #![trigger s[e]]
        from <= e < s.len() && s[e] == 10 && (forall|j: int| from <= j < e ==> is_space_byte(
            #[trigger] s[j],
        ))
}

/// Position `p` holds the second digit of a feedback line: everything between
/// the comma and `p` is whitespace, `p` is a digit, and whitespace then a
/// newline follow.
pub open spec fn feedback_digits_at(s: Seq<u8>, p: int) -> bool {
    &&& 2 <= p < s.len()
    &&& (forall|j: int| 2 <= j < p ==> is_space_byte(#[trigger] s[j]))
    &&& is_digit_byte(s[p])
    &&& spaces_then_newline(s, p + 1)
}

/// The whole feedback line grammar: digit, comma, whitespace, digit,
/// whitespace, newline.
pub open spec fn matches_feedback_line(s: Seq<u8>) -> bool {
    &&& s.len() >= 2
    &&& is_digit_byte(s[0])
    &&& s[1] == 44
    &&& exists|p: int| #![trigger feedback_digits_at(s, p)] feedback_digits_at(s, p)
}

/// The two digit values of a matching line.
pub open spec fn feedback_of_line(s: Seq<u8>) -> (int, int) {
    let p = choose|p: int| feedback_digits_at(s, p);
    (s[0] as int - 48, s[p] as int - 48)
}

/// Only one position can hold the second digit: a digit is not whitespace.
proof fn lemma_digit_position_unique(s: Seq<u8>, p1: int, p2: int)
    requires
        feedback_digits_at(s, p1),
        feedback_digits_at(s, p2),
    ensures
        p1 == p2,
{
    if p1 < p2 {
        assert(is_space_byte(s[p1]));
    }
    if p2 < p1 {
        assert(is_space_byte(s[p2]));
    }
}

/// Reads a feedback pair from one input line, if the line has the expected
/// shape; rejects it otherwise.
pub fn parse_feedback(line: &[u8]) -> (r: Option<(i8, i8)>)
    ensures
        match r {
            Some(f) => {
                &&& matches_feedback_line(line@)
                &&& (f.0 as int, f.1 as int) == feedback_of_line(line@)
                &&& 0 <= f.0 <= 9
                &&& 0 <= f.1 <= 9
            },
            None => !matches_feedback_line(line@),
        },
{
    if line.len() < 2 {
        return None;
    }
    let b0 = line[0];
    if !(48 <= b0 && b0 <= 57) {
        return None;
    }
    if line[1] != 44 {
        return None;
    }
    let mut p: usize = 2;
    loop
        invariant
            2 <= p <= line@.len(),
            line@.len() >= 2,
            is_digit_byte(line@[0]),
            line@[1] == 44,
            forall|j: int| 2 <= j < p ==> is_space_byte(#[trigger] line@[j]),
        ensures
            2 <= p <= line@.len(),
            forall|j: int| 2 <= j < p ==> is_space_byte(#[trigger] line@[j]),
            p < line@.len() ==> (is_digit_byte(line@[p as int]) || !is_space_byte(
                line@[p as int],
            )),
        decreases line@.len() - p,
    {
        if p == line.len() {
            break ;
        }
        let b = line[p];
        if 48 <= b && b <= 57 {
            break ;
        }
        if !(b == 32 || b == 9 || b == 10 || b == 11 || b == 12 || b == 13) {
            break ;
        }
        p = p + 1;
    }
    if p == line.len() {
        proof {
            if matches_feedback_line(line@) {
                let q = choose|q: int| feedback_digits_at(line@, q);
                assert(is_space_byte(line@[q]));
            }
        }
        return None;
    }
    let bd = line[p];
    if !(48 <= bd && bd <= 57) {
        proof {
            if matches_feedback_line(line@) {
                let q = choose|q: int| feedback_digits_at(line@, q);
                if q < p {
                    assert(is_space_byte(line@[q]));
                } else if q > p {
                    assert(is_space_byte(line@[p as int]));
                }
            }
        }
        return None;
    }
    let mut e: usize = p + 1;
    loop
        invariant
            p + 1 <= e <= line@.len(),
            2 <= p < line@.len(),
            line@.len() >= 2,
            is_digit_byte(line@[0]),
            line@[1] == 44,
            is_digit_byte(line@[p as int]),
            bd == line@[p as int],
            b0 == line@[0],
            forall|j: int| 2 <= j < p ==> is_space_byte(#[trigger] line@[j]),
            forall|j: int| p < j < e ==> is_space_byte(#[trigger] line@[j]) && line@[j] != 10,
        ensures
            p + 1 <= e <= line@.len(),
            forall|j: int| p < j < e ==> is_space_byte(#[trigger] line@[j]) && line@[j] != 10,
            e < line@.len() ==> line@[e as int] == 10 || (!is_space_byte(line@[e as int])),
            e < line@.len() && line@[e as int] != 10 ==> !is_space_byte(line@[e as int]),
        decreases line@.len() - e,
    {
        if e == line.len() {
            break ;
        }
        let b = line[e];
        if b == 10 {
            break ;
        }
        if !(b == 32 || b == 9 || b == 11 || b == 12 || b == 13) {
            break ;
        }
        e = e + 1;
    }
    if e == line.len() || line[e] != 10 {
        proof {
            if matches_feedback_line(line@) {
                let q = choose|q: int| feedback_digits_at(line@, q);
                lemma_digit_position_unique(line@, q, p as int);
                assert(q == p as int);
                let e2 = choose|e2: int| #![trigger line@[e2]]
                    q + 1 <= e2 < line@.len() && line@[e2] == 10 && (forall|j: int|
                        q + 1 <= j < e2 ==> is_space_byte(#[trigger] line@[j]));
                if e2 < e {
                    assert(line@[e2] != 10);
                } else if e2 == e {
                    assert(e < line@.len());
                } else {
                    assert(e < line@.len() && is_space_byte(line@[e as int]));
                }
            }
        }
        return None;
    }
    proof {
        assert(feedback_digits_at(line@, p as int)) by {
            assert(line@[e as int] == 10);
            assert(spaces_then_newline(line@, p as int + 1));
        }
        assert(matches_feedback_line(line@));
        let q = choose|q: int| feedback_digits_at(line@, q);
        lemma_digit_position_unique(line@, q, p as int);
    }
    Some(((b0 - 48) as i8, (bd - 48) as i8))
}

} // verus!
