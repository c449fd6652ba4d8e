//! What the engine states about the kernel command runner: its error
//! kinds, the argument rendering used in its logs, and the rule for
//! flagging slow commands. Spawning the commands themselves is I/O and
//! lives outside.

use vstd::prelude::*;
use vstd::string::StringExecFns;

verus! {

/// The errors the kernel interface reports.
#[derive(Debug)]
pub enum KernelInterfaceError {
    /// A command failed or returned something unreadable.
    RuntimeError(String),
    /// No interface by the given name.
    NoInterfaceError(String),
    /// The interface's address is not ready yet; retry later.
    AddressNotReadyError(String),
}

/// The arguments joined for a log line: one leading space before each.
pub open spec fn spec_joined_args(items: Seq<Seq<char>>) -> Seq<char>
    decreases items.len(),
{
    if items.len() == 0 {
        Seq::empty()
    } else {
        spec_joined_args(items.drop_last()) + seq![' '] + items.last()
    }
}

/// Render an argument array so it can be copied from the logs into a
/// shell.
pub fn print_str_array(input: &Vec<String>) -> (r: String)
    ensures
        r@ == spec_joined_args(input@.map_values(|s: String| s@)),
{
    let n = input.len();
    let mut out = String::new();
    let mut k: usize = 0;
    while k < n
        invariant
            n == input@.len(),
            k <= n,
            out@ == spec_joined_args(input@.map_values(|s: String| s@).take(k as int)),
        decreases n - k,
    {
        out.append(" ");
        out.append(input[k].as_str());
        proof {
            reveal_strlit(" ");
            let m = input@.map_values(|s: String| s@);
            assert(m.take(k + 1).drop_last() =~= m.take(k as int));
            assert(" "@ =~= seq![' ']);
            assert(out@ =~= spec_joined_args(m.take(k + 1)));
        }
        k += 1;
    }
    proof {
        let m = input@.map_values(|s: String| s@);
        assert(m.take(n as int) =~= m);
    }
    out
}

/// How loudly a finished command's duration is logged.
#[derive(Clone, Copy, PartialEq, Eq, Structural, Debug)]
pub enum CommandPace {
    /// Finished within a second.
    Fine,
    /// Took more than one second: worth a warning.
    Slow,
    /// Took more than five seconds: an error.
    VerySlow,
}

/// The logging rule for command durations.
pub fn command_pace(elapsed_secs: u64) -> (r: CommandPace)
    ensures
        r == (if elapsed_secs > 5 {
            CommandPace::VerySlow
        } else if elapsed_secs > 1 {
            CommandPace::Slow
        } else {
            CommandPace::Fine
        }),
{
    if elapsed_secs > 5 {
        CommandPace::VerySlow
    } else if elapsed_secs > 1 {
        CommandPace::Slow
    } else {
        CommandPace::Fine
    }
}

} // verus!
