//! The command line: a target address and, optionally, a worker count.
//!
//! Two forms are understood, each after the program's own name:
//!
//! ```text
//! <ip_address>
//! -j <thread_count> <ip_address>
//! ```

use crate::address::IpAddress;
use crate::decimal::{decimal_u16, parse_u16};
use vstd::prelude::*;
use vstd::string::*;

verus! {

/// The number of workers where the command line names none.
pub const DEFAULT_THREADS: u16 = 400;

/// What a command line asks for.
#[derive(Clone, Copy, Debug, PartialEq, Eq, Structural)]
pub struct Arguments {
    /// The host to scan.
    pub ipaddr: IpAddress,
    /// The number of workers, at least one.
    pub threads: u16,
}

impl Arguments {
    /// The worker count that `text` denotes: a number in decimal notation
    /// from 1 to 65535.
    pub open spec fn thread_count(text: Seq<char>) -> Option<u16> {
        match decimal_u16(text) {
            Some(threads) if threads >= 1 => Some(threads),
            _ => None,
        }
    }

    /// The meaning of the command line `args`, whose first element is the
    /// program's name and whose last element denotes the address `target`,
    /// or no address at all.
    ///
    /// One or three elements are too few and more than four are too many,
    /// as is none at all. Two elements ask for a scan of the target with
    /// [`DEFAULT_THREADS`] workers. Four ask for a scan with as many
    /// workers as the third element says, and the second has to be `-j`.
    /// A missing flag, a worker count that is no number from 1 to 65535,
    /// and a last element that is no address all ask for help.
    pub open spec fn parse(args: Seq<Seq<char>>, target: Option<IpAddress>) -> Result<
        Arguments,
        &'static str,
    > {
        if args.len() == 1 || args.len() == 3 {
            Err("Not enough arguments")
        } else if args.len() == 2 {
            match target {
                Some(ipaddr) => Ok(Arguments { ipaddr, threads: DEFAULT_THREADS }),
                None => Err("help"),
            }
        } else if args.len() == 4 {
            match (args[1] == "-j"@, Arguments::thread_count(args[2]), target) {
                (true, Some(threads), Some(ipaddr)) => Ok(Arguments { ipaddr, threads }),
                _ => Err("help"),
            }
        } else {
            Err("Too many arguments")
        }
    }

    /// The argument that names the target: the last one of a command line
    /// of two or of four elements. A command line of another length has
    /// none.
    pub open spec fn address_text(args: Seq<Seq<char>>) -> Option<Seq<char>> {
        if args.len() == 2 || args.len() == 4 {
            Some(args.last())
        } else {
            None
        }
    }

    /// Picks the argument that names the target.
    pub fn address_argument(args: &[String]) -> (text: Option<&str>)
        ensures
            text.deep_view() == Arguments::address_text(args.deep_view()),
    {
        let ghost texts = args.deep_view();
        assert(texts.len() == args@.len());
        assert(forall|i: int| 0 <= i < args@.len() ==> texts[i] == args@[i]@);
        if args.len() == 2 || args.len() == 4 {
            Some(args[args.len() - 1].as_str())
        } else {
            None
        }
    }

    /// Reads the command line `args`. `target` is the address that the
    /// argument picked by [`Arguments::address_argument`] denotes, or
    /// `None` where there is no such argument or it denotes no address.
    pub fn new(args: &[String], target: Option<IpAddress>) -> (parsed: Result<
        Arguments,
        &'static str,
    >)
        ensures
            parsed == Arguments::parse(args.deep_view(), target),
            parsed matches Ok(arguments) ==> arguments.threads >= 1,
    {
        let ghost texts = args.deep_view();
        assert(texts.len() == args@.len());
        assert(forall|i: int| 0 <= i < args@.len() ==> texts[i] == args@[i]@);
        match args.len() {
            1 | 3 => Err("Not enough arguments"),
            2 => match target {
                Some(ipaddr) => Ok(Arguments { ipaddr, threads: DEFAULT_THREADS }),
                None => Err("help"),
            },
            4 => {
                let flag = String::from_str("-j");
                if args[1] != flag {
                    return Err("help");
                }
                match parse_u16(args[2].as_str()) {
                    Some(threads) => {
                        if threads == 0 {
                            return Err("help");
                        }
                        match target {
                            Some(ipaddr) => Ok(Arguments { ipaddr, threads }),
                            None => Err("help"),
                        }
                    },
                    None => Err("help"),
                }
            },
            _ => Err("Too many arguments"),
        }
    }
}

} // verus!
