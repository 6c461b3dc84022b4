//! Human-readable rendering of optional quantities for the display
//! layer.

use vstd::prelude::*;
use vstd::string::StringExecFns;

verus! {

/// The decimal digit character for `n < 10`.
pub open spec fn digit_char(n: nat) -> char {
    if n == 0 {
        '0'
    } else if n == 1 {
        '1'
    } else if n == 2 {
        '2'
    } else if n == 3 {
        '3'
    } else if n == 4 {
        '4'
    } else if n == 5 {
        '5'
    } else if n == 6 {
        '6'
    } else if n == 7 {
        '7'
    } else if n == 8 {
        '8'
    } else {
        '9'
    }
}

/// The decimal rendering of `n`, most significant digit first.
pub open spec fn dec_digits(n: nat) -> Seq<char>
    decreases n,
{
    if n < 10 {
        seq![digit_char(n)]
    } else {
        dec_digits(n / 10) + seq![digit_char(n % 10)]
    }
}

/// An age in whole seconds, rendered with the coarsest fitting unit.
pub open spec fn spec_human_secs(s: u64) -> Seq<char> {
    if s < 60 {
        dec_digits(s as nat) + seq!['s']
    } else if s < 3600 {
        dec_digits((s / 60) as nat) + seq!['m']
    } else if s < 86400 {
        dec_digits((s / 3600) as nat) + seq!['h']
    } else {
        dec_digits((s / 86400) as nat) + seq!['d']
    }
}

/// An absent age renders as a question mark.
pub open spec fn spec_human_opt_secs(o: Option<u64>) -> Seq<char> {
    match o {
        None => seq!['?'],
        Some(s) => spec_human_secs(s),
    }
}

fn digit_str(d: u64) -> (r: &'static str)
    requires
        d < 10,
    ensures
        r@ == seq![digit_char(d as nat)],
{
    proof {
        reveal_strlit("0");
        reveal_strlit("1");
        reveal_strlit("2");
        reveal_strlit("3");
        reveal_strlit("4");
        reveal_strlit("5");
        reveal_strlit("6");
        reveal_strlit("7");
        reveal_strlit("8");
        reveal_strlit("9");
    }
    if d == 0 {
        "0"
    } else if d == 1 {
        "1"
    } else if d == 2 {
        "2"
    } else if d == 3 {
        "3"
    } else if d == 4 {
        "4"
    } else if d == 5 {
        "5"
    } else if d == 6 {
        "6"
    } else if d == 7 {
        "7"
    } else if d == 8 {
        "8"
    } else {
        "9"
    }
}

/// The decimal rendering of `n` as a string.
pub fn dec_str(n: u64) -> (r: String)
    ensures
        r@ == dec_digits(n as nat),
    decreases n,
{
    if n < 10 {
        digit_str(n).to_owned()
    } else {
        let mut s = dec_str(n / 10);
        s.append(digit_str(n % 10));
        s
    }
}

/// Renders an age in seconds as `Ns`, `Nm`, `Nh` or `Nd`, or `?` when
/// the age is unknown.
pub fn human_opt_secs(o: &Option<u64>) -> (r: String)
    ensures
        r@ == spec_human_opt_secs(*o),
{
        proof {
            reveal_strlit("?");
            reveal_strlit("s");
            reveal_strlit("m");
            reveal_strlit("h");
            reveal_strlit("d");
        }
        match o {
            None => "?".to_owned(),
            Some(s) => {
                let s = *s;
                if s < 60 {
                    let mut out = dec_str(s);
                    out.append("s");
                    out
                } else if s < 3600 {
                    let mut out = dec_str(s / 60);
                    out.append("m");
                    out
                } else if s < 86400 {
                    let mut out = dec_str(s / 3600);
                    out.append("h");
                    out
                } else {
                    let mut out = dec_str(s / 86400);
                    out.append("d");
                    out
                }
            },
        }
}

/// A short human rendering for the display layer.
pub trait Human {
    fn human(&self) -> String;
}

impl Human for Option<u64> {
    fn human(&self) -> String {
        human_opt_secs(self)
    }
}

} // verus!
