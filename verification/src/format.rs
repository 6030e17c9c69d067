//! Rendering a peg sequence as text: decimal values separated by spaces.

use vstd::prelude::*;
use vstd::string::StringExecFns;

verus! {

/// The character for one decimal digit.
pub open spec fn digit_char(d: int) -> char {
    if d == 0 {
        '0'
    } else if d == 1 {
        '1'
    } else if d == 2 {
        '2'
    } else if d == 3 {
        '3'
    } else if d == 4 {
        '4'
    } else if d == 5 {
        '5'
    } else if d == 6 {
        '6'
    } else if d == 7 {
        '7'
    } else if d == 8 {
        '8'
    } else {
        '9'
    }
}

/// The decimal form of a peg value (pegs hold at most three digits).
pub open spec fn dec_chars(v: int) -> Seq<char> {
    if v < 10 {
        seq![digit_char(v)]
    } else if v < 100 {
        seq![digit_char(v / 10), digit_char(v % 10)]
    } else {
        seq![digit_char(v / 100), digit_char((v / 10) % 10), digit_char(v % 10)]
    }
}

/// A whole peg sequence in decimal, one space between values.
pub open spec fn spec_format_pegs(s: Seq<i8>) -> Seq<char>
    decreases s.len(),
{
    if s.len() == 0 {
        Seq::empty()
    } else if s.len() == 1 {
        dec_chars(s[0] as int)
    } else {
        spec_format_pegs(s.drop_last()) + seq![' '] + dec_chars(s.last() as int)
    }
}

fn digit_str(d: usize) -> (r: &'static str)
    requires
        d <= 9,
    ensures
        r@ == seq![digit_char(d as int)],
{
    if d == 0 {
        proof {
            reveal_strlit("0");
            assert("0"@ =~= seq![digit_char(0)]);
        }
        "0"
    } else if d == 1 {
        proof {
            reveal_strlit("1");
            assert("1"@ =~= seq![digit_char(1)]);
        }
        "1"
    } else if d == 2 {
        proof {
            reveal_strlit("2");
            assert("2"@ =~= seq![digit_char(2)]);
        }
        "2"
    } else if d == 3 {
        proof {
            reveal_strlit("3");
            assert("3"@ =~= seq![digit_char(3)]);
        }
        "3"
    } else if d == 4 {
        proof {
            reveal_strlit("4");
            assert("4"@ =~= seq![digit_char(4)]);
        }
        "4"
    } else if d == 5 {
        proof {
            reveal_strlit("5");
            assert("5"@ =~= seq![digit_char(5)]);
        }
        "5"
    } else if d == 6 {
        proof {
            reveal_strlit("6");
            assert("6"@ =~= seq![digit_char(6)]);
        }
        "6"
    } else if d == 7 {
        proof {
            reveal_strlit("7");
            assert("7"@ =~= seq![digit_char(7)]);
        }
        "7"
    } else if d == 8 {
        proof {
            reveal_strlit("8");
            assert("8"@ =~= seq![digit_char(8)]);
        }
        "8"
    } else {
        proof {
            reveal_strlit("9");
            assert("9"@ =~= seq![digit_char(9)]);
        }
        "9"
    }
}

/// Appends the decimal form of one peg value.
fn push_value(r: &mut String, v: usize)
    requires
        v <= 127,
    ensures
        final(r)@ == old(r)@ + dec_chars(v as int),
{
    if v >= 100 {
        r.append(digit_str(v / 100));
        r.append(digit_str((v / 10) % 10));
        r.append(digit_str(v % 10));
        proof {
            assert(r@ =~= old(r)@ + dec_chars(v as int));
        }
    } else if v >= 10 {
        r.append(digit_str(v / 10));
        r.append(digit_str(v % 10));
        proof {
            assert(r@ =~= old(r)@ + dec_chars(v as int));
        }
    } else {
        r.append(digit_str(v));
        proof {
            assert(r@ =~= old(r)@ + dec_chars(v as int));
        }
    }
}

/// Renders the pegs as space-separated decimal values.
pub fn format_pegs(x: &Vec<i8>) -> (r: String)
    requires
        forall|i: int| 0 <= i < x@.len() ==> #[trigger] x@[i] >= 0,
    ensures
        r@ == spec_format_pegs(x@),
{
    let mut r = String::new();
    proof {
        assert(x@.take(0) =~= Seq::<i8>::empty());
        assert(r@ =~= spec_format_pegs(x@.take(0)));
    }
    let mut i: usize = 0;
    while i < x.len()
        invariant
            i <= x@.len(),
            forall|k: int| 0 <= k < x@.len() ==> #[trigger] x@[k] >= 0,
            r@ == spec_format_pegs(x@.take(i as int)),
        decreases x@.len() - i,
    {
        let ghost before = r@;
        if i > 0 {
            proof {
                reveal_strlit(" ");
            }
            r.append(" ");
            proof {
                assert(r@ =~= before + seq![' ']);
            }
        }
        let v = x[i] as usize;
        push_value(&mut r, v);
        proof {
            assert(x@.take(i + 1).drop_last() =~= x@.take(i as int));
            assert(x@.take(i + 1).last() == x@[i as int]);
            if i == 0 {
                assert(r@ =~= before + dec_chars(x@[0] as int));
                assert(spec_format_pegs(x@.take(1)) == dec_chars(x@.take(1)[0] as int));
                assert(x@.take(1)[0] == x@[0]);
                assert(r@ =~= spec_format_pegs(x@.take(i + 1)));
            } else {
                assert(spec_format_pegs(x@.take(i + 1)) == spec_format_pegs(x@.take(i as int))
                    + seq![' '] + dec_chars(x@[i as int] as int));
                assert(r@ =~= spec_format_pegs(x@.take(i + 1)));
            }
        }
        i = i + 1;
    }
    proof {
        assert(x@.take(x@.len() as int) =~= x@);
    }
    r
}

} // verus!
