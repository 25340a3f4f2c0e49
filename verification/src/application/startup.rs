//! Decisions taken from the command line at start-up.
use vstd::prelude::*;

verus! {

/// The long flag that skips the dashboard window.
pub open spec fn no_ui_long() -> Seq<char> {
    seq!['-', '-', 'n', 'o', '-', 'u', 'i']
}

/// The short flag that skips the dashboard window.
pub open spec fn no_ui_short() -> Seq<char> {
    seq!['-', 'n']
}

/// Some argument asks to run without the dashboard window.
pub open spec fn asks_no_ui(args: Seq<Seq<char>>) -> bool {
    exists|i: int| 0 <= i < args.len() && (#[trigger] args[i] == no_ui_long() || args[i] == no_ui_short())
}

/// Whether any of the command-line arguments (program name included) is
/// `--no-ui` or `-n`.
pub fn no_ui_requested(args: &Vec<String>) -> (no_ui: bool)
    ensures
        no_ui == asks_no_ui(args.deep_view()),
{
    proof {
        reveal_strlit("--no-ui");
        reveal_strlit("-n");
    }
    let long = "--no-ui".to_owned();
    let short = "-n".to_owned();
    assert(long@ =~= no_ui_long());
    assert(short@ =~= no_ui_short());
    let ghost dv = args.deep_view();
    let mut i: usize = 0;
    while i < args.len()
        invariant
            dv == args.deep_view(),
            i <= args.len(),
            long@ == no_ui_long(),
            short@ == no_ui_short(),
            forall|j: int| 0 <= j < i ==> dv[j] != no_ui_long() && dv[j] != no_ui_short(),
        decreases args.len() - i,
    {
        if args[i] == long || args[i] == short {
            assert(dv[i as int] == args@[i as int]@);
            return true;
        }
        i = i + 1;
    }
    false
}

} // verus!
