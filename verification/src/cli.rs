//! Command-line arguments: flags with a number behind them.

use vstd::prelude::*;

use crate::text;
use crate::text::{parse_dec, strings};

verus! {

/// The complaint about a flag at the end of the arguments.
pub open spec fn missing(flag: Seq<char>) -> Seq<char> {
    flag + " needs a value"@
}

/// The complaint about a value that is no number, or too large a one.
pub open spec fn bad(flag: Seq<char>, value: Seq<char>) -> Seq<char> {
    "bad "@ + flag + " value: "@ + value
}

/// The number of at most `max` at place `i` of the arguments, or the complaint.
pub open spec fn number_at(args: Seq<Seq<char>>, i: int, flag: Seq<char>, max: int) -> Result<
    int,
    Seq<char>,
> {
    if i < args.len() {
        match parse_dec(args[i], max) {
            Some(n) => Ok(n),
            None => Err(bad(flag, args[i])),
        }
    } else {
        Err(missing(flag))
    }
}

/// Read the number of at most `max` at place `i` of the arguments.
pub fn read_number(args: &Vec<String>, i: usize, flag: &str, max: u64) -> (r: Result<u64, String>)
    ensures
        match r {
            Ok(n) => number_at(strings(args@), i as int, flag@, max as int) == Ok::<
                int,
                Seq<char>,
            >(n as int) && n <= max,
            Err(e) => number_at(strings(args@), i as int, flag@, max as int) == Err::<
                int,
                Seq<char>,
            >(e@),
        },
{
    if i >= args.len() {
        let mut e = text::copy(flag);
        text::push_str(&mut e, " needs a value");
        assert(e@ =~= missing(flag@));
        return Err(e);
    }
    assert(strings(args@)[i as int] == args@[i as int]@);
    let value = text::chars_of(args[i].as_str());
    match text::parse_number(&value, max) {
        Some(n) => Ok(n),
        None => {
            let mut e = text::copy("bad ");
            text::push_str(&mut e, flag);
            text::push_str(&mut e, " value: ");
            text::push_all(&mut e, &value);
            assert(e@ =~= bad(flag@, value@));
            Err(e)
        },
    }
}

/// Is the argument at place `i` this flag?
pub fn is_flag(args: &Vec<String>, i: usize, flag: &str) -> (r: bool)
    requires
        i < args@.len(),
    ensures
        r == (strings(args@)[i as int] == flag@),
{
    text::same(&text::chars_of(args[i].as_str()), flag)
}

} // verus!
