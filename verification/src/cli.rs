//! The options a command line gives the interpreter.
use vstd::prelude::*;
use crate::standard_functions::str_equal;

verus! {

/// The options of a run: the project's root directory, whether to show the tokens, tree and
/// final state (`dump`), whether to read programs from the terminal (`cli`), and whether to
/// skip running (`no-interpret`).
pub struct Flags {
    pub proj_root: String,
    pub dump: bool,
    pub cli: bool,
    pub no_interpret: bool,
}

/// Whether one of the arguments is exactly `word`.
pub open spec fn has_arg(args: Seq<String>, word: Seq<char>) -> bool {
    exists|i: int| 0 <= i < args.len() && (#[trigger] args[i])@ == word
}

/// Whether one of the arguments is exactly `word`.
fn contains_arg(args: &Vec<String>, word: &str) -> (r: bool)
    ensures
        r == has_arg(args@, word@),
{
    let mut i: usize = 0;
    while i < args.len()
        invariant
            i <= args.len(),
            forall|j: int| 0 <= j < i ==> (#[trigger] args@[j])@ != word@,
        decreases args.len() - i,
    {
        if str_equal(args[i].as_str(), word) {
            return true;
        }
        i = i + 1;
    }
    false
}

impl Flags {
    /// The options that the command-line arguments `args` select, for the project at `proj_root`.
    pub fn new(proj_root: String, args: &Vec<String>) -> (r: Flags)
        ensures
            r.proj_root@ == proj_root@,
            r.dump == has_arg(args@, seq!['d', 'u', 'm', 'p']),
            r.cli == has_arg(args@, seq!['c', 'l', 'i']),
            r.no_interpret == has_arg(
                args@,
                seq!['n', 'o', '-', 'i', 'n', 't', 'e', 'r', 'p', 'r', 'e', 't'],
            ),
    {
        proof {
            reveal_strlit("dump");
            reveal_strlit("cli");
            reveal_strlit("no-interpret");
            assert("dump"@ =~= seq!['d', 'u', 'm', 'p']);
            assert("cli"@ =~= seq!['c', 'l', 'i']);
            assert("no-interpret"@ =~= seq!['n', 'o', '-', 'i', 'n', 't', 'e', 'r', 'p', 'r', 'e', 't']);
        }
        let dump = contains_arg(args, "dump");
        let cli = contains_arg(args, "cli");
        let no_interpret = contains_arg(args, "no-interpret");
        Flags { proj_root, dump, cli, no_interpret }
    }
}

} // verus!
