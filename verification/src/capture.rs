//! Names of the files that a captured run of a program is written to.
//!
//! A capture has a base path. Each of its files is named by the base path,
//! an underscore and a suffix that says what the file holds.

use vstd::prelude::*;
use vstd::string::*;
use crate::decimal::{decimal, decimal_string};

verus! {

/// The decimal text of `n`, with a minus sign if `n` is negative.
pub open spec fn signed_decimal(n: int) -> Seq<char> {
    if n < 0 {
        seq!['-'] + decimal((-n) as nat)
    } else {
        decimal(n as nat)
    }
}

/// The suffix of the file whose name records how the run ended.
pub open spec fn exit_code_text(code: Option<i32>) -> Seq<char> {
    match code {
        Some(c) => "exitcode_Some("@ + signed_decimal(c as int) + ").txt"@,
        None => "exitcode_None.txt"@,
    }
}

/// The name of the capture's file for `suffix`: the base path, an
/// underscore, the suffix.
pub fn output_name(basepath: &str, suffix: &str) -> (name: String)
    ensures
        name@ == basepath@ + seq!['_'] + suffix@,
{
    proof {
        reveal_strlit("_");
    }
    let mut name = String::from_str(basepath);
    name.append("_");
    name.append(suffix);
    assert("_"@ =~= seq!['_']);
    name
}

/// The suffix of the file whose name records how the run ended: with the
/// exit code, or with `None` where the run ended without one.
pub fn exit_code_name(code: Option<i32>) -> (name: String)
    ensures
        name@ == exit_code_text(code),
{
    match code {
        Some(c) => {
            proof {
                reveal_strlit("-");
            }
            let mut name = String::from_str("exitcode_Some(");
            if c < 0 {
                let magnitude: u64 = (-(c as i64)) as u64;
                name.append("-");
                name.append(decimal_string(magnitude).as_str());
                assert("-"@ =~= seq!['-']);
            } else {
                name.append(decimal_string(c as u64).as_str());
            }
            name.append(").txt");
            assert(name@ =~= exit_code_text(code));
            name
        },
        None => String::from_str("exitcode_None.txt"),
    }
}

} // verus!
