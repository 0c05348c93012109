//! Decimal and hexadecimal text of integers, appended to strings digit by digit.

use vstd::prelude::*;
use vstd::string::{StringExecFns, StrSliceExecFns};
use crate::graph::hex_digit;
use crate::network::decimal;
use crate::lookup::fixed_hex;

verus! {

/// The one-character text of a digit below sixteen, lower-case beyond nine.
fn digit_text(d: u64) -> (r: &'static str)
    requires
        d < 16,
    ensures
        r@ == seq![hex_digit(d as int)],
{
    match d {
        0 => {
            proof {
                reveal_strlit("0");
            }
            "0"
        },
        1 => {
            proof {
                reveal_strlit("1");
            }
            "1"
        },
        2 => {
            proof {
                reveal_strlit("2");
            }
            "2"
        },
        3 => {
            proof {
                reveal_strlit("3");
            }
            "3"
        },
        4 => {
            proof {
                reveal_strlit("4");
            }
            "4"
        },
        5 => {
            proof {
                reveal_strlit("5");
            }
            "5"
        },
        6 => {
            proof {
                reveal_strlit("6");
            }
            "6"
        },
        7 => {
            proof {
                reveal_strlit("7");
            }
            "7"
        },
        8 => {
            proof {
                reveal_strlit("8");
            }
            "8"
        },
        9 => {
            proof {
                reveal_strlit("9");
            }
            "9"
        },
        10 => {
            proof {
                reveal_strlit("a");
            }
            "a"
        },
        11 => {
            proof {
                reveal_strlit("b");
            }
            "b"
        },
        12 => {
            proof {
                reveal_strlit("c");
            }
            "c"
        },
        13 => {
            proof {
                reveal_strlit("d");
            }
            "d"
        },
        14 => {
            proof {
                reveal_strlit("e");
            }
            "e"
        },
        _ => {
            proof {
                reveal_strlit("f");
            }
            "f"
        },
    }
}

/// Append the decimal digits of `n`, most significant first.
pub fn push_decimal(s: &mut String, n: u64)
    ensures
        final(s)@ == old(s)@ + decimal(n as nat),
    decreases n,
{
    if n < 10 {
        s.append(digit_text(n));
        assert(seq![hex_digit(n as int)] =~= decimal(n as nat));
    } else {
        let ghost start = s@;
        push_decimal(s, n / 10);
        s.append(digit_text(n % 10));
        assert(decimal(n as nat) == decimal((n / 10) as nat).push((48 + n % 10) as char));
        assert(s@ =~= start + decimal(n as nat));
    }
}

/// Append the `n` low-order hexadecimal digits of `v`, most significant first.
pub fn push_fixed_hex(s: &mut String, v: u64, n: u32)
    ensures
        final(s)@ == old(s)@ + fixed_hex(v as nat, n as nat),
    decreases n,
{
    if n == 0 {
        assert(fixed_hex(v as nat, 0) =~= Seq::<char>::empty());
        assert(s@ =~= old(s)@ + fixed_hex(v as nat, 0));
    } else {
        let ghost start = s@;
        push_fixed_hex(s, v / 16, n - 1);
        s.append(digit_text(v % 16));
        assert(fixed_hex(v as nat, n as nat) == fixed_hex((v / 16) as nat, (n - 1) as nat).push(hex_digit((v % 16) as int)));
        assert(s@ =~= start + fixed_hex(v as nat, n as nat));
    }
}

} // verus!
