//! Which directory a run works on.

use vstd::prelude::*;
use vstd::string::*;

verus! {

/// The directory that is worked on when the command line names none: the
/// current one.
pub open spec fn default_dir() -> Seq<char> {
    seq!['.']
}

/// The target directory that a command line selects: its first argument
/// after the program name, or [`default_dir`] where there is none.
pub open spec fn selected_dir(args: Seq<Seq<char>>) -> Seq<char> {
    if args.len() > 1 {
        args[1]
    } else {
        default_dir()
    }
}

/// Picks the target directory from the command line, the program name
/// included as its first element.
pub fn target_dir(args: &Vec<String>) -> (dir: String)
    ensures
        dir@ == selected_dir(args.deep_view()),
{
    if args.len() > 1 {
        args[1].clone()
    } else {
        proof {
            reveal_strlit(".");
        }
        assert("."@ =~= default_dir());
        String::from_str(".")
    }
}

} // verus!
