//! The command-line demo: formatting a report of the arguments received.

use vstd::prelude::*;
use vstd::string::StringExecFns;
use crate::numerals::dec_digits;
use crate::numerals::push_dec_u64;
use crate::text::text_eq;

verus! {

/// One numbered line of the argument listing.
pub open spec fn arg_line(args: Seq<Seq<char>>, i: int) -> Seq<char> {
    "\n"@ + dec_digits(i as nat) + ": "@ + args[i]
}

/// The numbered listing of the first `i` arguments.
pub open spec fn arg_lines(args: Seq<Seq<char>>, i: int) -> Seq<char>
    decreases i,
{
    if i <= 0 {
        Seq::empty()
    } else {
        arg_lines(args, i - 1) + arg_line(args, i - 1)
    }
}

/// What [`run`] prints for the given arguments: the usage text when the
/// first real argument is `-h`, else the argument count followed by a
/// numbered listing, or a hint when no extra arguments were given.
pub open spec fn run_spec(args: Seq<Seq<char>>) -> Seq<char> {
    if args.len() > 1 && args[1] == "-h"@ {
        "Usage: cli-basics [arguments]\nOptions:\n  -h    Show this help message"@
    } else if args.len() > 1 {
        "Received "@ + dec_digits(args.len()) + " arguments.\n"@
            + "Arguments exceeded 1. Here they are:"@ + arg_lines(args, args.len() as int)
    } else {
        "Received "@ + dec_digits(args.len()) + " arguments.\n"@
            + "No extra arguments provided. Try running with: cargo run -- args go here"@
    }
}

/// The report for the given command-line arguments; the first entry is
/// the program's own name.
pub fn run(args: &Vec<String>) -> (r: String)
    ensures
        r@ == run_spec(args.deep_view()),
{
    let ghost view = args.deep_view();
    proof {
        assert(view.len() == args@.len());
        assert(forall|i: int| 0 <= i < args@.len() ==> view[i] == #[trigger] args@[i]@);
    }
    if args.len() > 1 && text_eq(args[1].as_str(), "-h") {
        return String::from_str(
            "Usage: cli-basics [arguments]\nOptions:\n  -h    Show this help message",
        );
    }
    let mut out = String::new();
    out.append("Received ");
    push_dec_u64(&mut out, args.len() as u64);
    out.append(" arguments.\n");
    if args.len() > 1 {
        out.append("Arguments exceeded 1. Here they are:");
        let ghost pre = out@;
        let mut i: usize = 0;
        while i < args.len()
            invariant
                i <= args@.len(),
                view == args.deep_view(),
                view.len() == args@.len(),
                forall|j: int| 0 <= j < args@.len() ==> view[j] == #[trigger] args@[j]@,
                out@ == pre + arg_lines(view, i as int),
            decreases args.len() - i,
        {
            let ghost before = out@;
            out.append("\n");
            push_dec_u64(&mut out, i as u64);
            out.append(": ");
            out.append(args[i].as_str());
            proof {
                assert(out@ =~= before + arg_line(view, i as int));
                assert(out@ =~= pre + arg_lines(view, i as int + 1));
            }
            i = i + 1;
        }
        proof {
            assert(out@ =~= run_spec(view));
        }
    } else {
        out.append("No extra arguments provided. Try running with: cargo run -- args go here");
        proof {
            assert(out@ =~= run_spec(view));
        }
    }
    out
}

} // verus!
