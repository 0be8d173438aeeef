//! The command line.

use crate::text::same_text;
use vstd::prelude::*;

verus! {

/// The command line asks for the usage text: it has no argument after the
/// program's name, or its first argument is "-h" or "--help".
pub open spec fn wants_help_spec(args: Seq<Seq<char>>) -> bool {
    args.len() < 2 || args[1] == "-h"@ || args[1] == "--help"@
}

/// Whether the command line `args`, the program's name first, asks for the
/// usage text.
pub fn wants_help(args: &Vec<String>) -> (res: bool)
    ensures
        res == wants_help_spec(args.deep_view()),
{
    if args.len() < 2 {
        return true;
    }
    let first = args[1].as_str();
    same_text(first, "-h") || same_text(first, "--help")
}

} // verus!
