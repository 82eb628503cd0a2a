//! Whether Codex is running, from the command lines of the running processes.
use vstd::prelude::*;

use crate::text::{chars_of, contains_chars, contains_text, occurs_at};

verus! {

/// A helper process that may keep running while Codex itself is closed.
pub open spec fn ignorable_helper(command: Seq<char>) -> bool {
    ||| contains_text(command, "crashpad_handler"@)
    ||| contains_text(command, "SkyComputerUseClient turn-ended"@)
    ||| contains_text(command, "Codex Computer Use.app/Contents/MacOS/SkyComputerUseService"@)
}

/// The command line belongs to a helper that does not count as Codex running.
pub fn is_ignorable_codex_helper(command: &str) -> (r: bool)
    ensures
        r == ignorable_helper(command@),
{
    let c = chars_of(command);
    contains_chars(&c, &chars_of("crashpad_handler")) || contains_chars(
        &c,
        &chars_of("SkyComputerUseClient turn-ended"),
    ) || contains_chars(&c, &chars_of("Codex Computer Use.app/Contents/MacOS/SkyComputerUseService"))
}

/// The commands that are not ignorable helpers, in order.
pub open spec fn codex_commands(commands: Seq<Seq<char>>) -> Seq<Seq<char>>
    decreases commands.len(),
{
    if commands.len() == 0 {
        seq![]
    } else {
        codex_commands(commands.drop_last()) + if ignorable_helper(commands.last()) {
            seq![]
        } else {
            seq![commands.last()]
        }
    }
}

/// Whether Codex runs (`running_codex_message`): given the command lines of the Codex
/// processes found running (`None`: Codex has no process definition), the ones that
/// are not ignorable helpers; `None` when there are none.
pub fn running_codex_message(running: Option<&Vec<String>>) -> (r: Option<Vec<String>>)
    ensures
        match running {
            None => r is None,
            Some(cmds) => {
                let kept = codex_commands(cmds@.map_values(|s: String| s@));
                &&& kept.len() == 0 <==> r is None
                &&& r matches Some(v) ==> v@.map_values(|s: String| s@) == kept
            },
        },
{
    let cmds = match running {
        Some(c) => c,
        None => {
            return None;
        },
    };
    let ghost all = cmds@.map_values(|s: String| s@);
    let mut kept: Vec<String> = Vec::new();
    let mut i: usize = 0;
    while i < cmds.len()
        invariant
            i <= cmds@.len(),
            all == cmds@.map_values(|s: String| s@),
            kept@.map_values(|s: String| s@) == codex_commands(all.take(i as int)),
        decreases cmds@.len() - i,
    {
        assert(all.take(i + 1).drop_last() =~= all.take(i as int));
        assert(all.take(i + 1).last() == cmds@[i as int]@);
        if !is_ignorable_codex_helper(cmds[i].as_str()) {
            let ghost before = kept@.map_values(|s: String| s@);
            let ghost cv = cmds@[i as int]@;
            kept.push(cmds[i].clone());
            assert(kept@.map_values(|s: String| s@) =~= before.push(cv));
        }
        i = i + 1;
    }
    assert(all.take(cmds@.len() as int) =~= all);
    if kept.len() == 0 {
        None
    } else {
        Some(kept)
    }
}

/// Which commands are helpers: exactly those in which one of the three helper names
/// occurs somewhere (the crash reporter, the computer-use client's turn-ended call,
/// and the computer-use service of the Codex Computer Use app); any other command,
/// the Codex app's own included, counts as Codex running.
pub proof fn lemma_helpers_are_the_three_named(command: Seq<char>)
    ensures
        ignorable_helper(command) <==> exists|i: int|
            occurs_at(command, "crashpad_handler"@, i) || occurs_at(
                command,
                "SkyComputerUseClient turn-ended"@,
                i,
            ) || occurs_at(command, "Codex Computer Use.app/Contents/MacOS/SkyComputerUseService"@, i),
{
    if ignorable_helper(command) {
        if contains_text(command, "crashpad_handler"@) {
            let i = choose|i: int| occurs_at(command, "crashpad_handler"@, i);
            assert(occurs_at(command, "crashpad_handler"@, i));
        } else if contains_text(command, "SkyComputerUseClient turn-ended"@) {
            let i = choose|i: int| occurs_at(command, "SkyComputerUseClient turn-ended"@, i);
            assert(occurs_at(command, "SkyComputerUseClient turn-ended"@, i));
        } else {
            let i = choose|i: int|
                occurs_at(command, "Codex Computer Use.app/Contents/MacOS/SkyComputerUseService"@, i);
            assert(occurs_at(command, "Codex Computer Use.app/Contents/MacOS/SkyComputerUseService"@, i));
        }
    }
}

/// The commands kept as Codex running are exactly those that are not helpers, in
/// their order: a command is kept unless one of the helper names occurs in it.
pub proof fn lemma_codex_commands_keep_non_helpers(commands: Seq<Seq<char>>)
    ensures
        forall|c: Seq<char>|
            #[trigger] codex_commands(commands).contains(c) <==> commands.contains(c)
                && !ignorable_helper(c),
    decreases commands.len(),
{
    if commands.len() == 0 {
        assert forall|c: Seq<char>|
            #[trigger] codex_commands(commands).contains(c) <==> commands.contains(c)
                && !ignorable_helper(c) by {
            assert(codex_commands(commands) =~= Seq::<Seq<char>>::empty());
        }
    } else {
        let p = commands.drop_last();
        let l = commands.last();
        lemma_codex_commands_keep_non_helpers(p);
        let prev = codex_commands(p);
        assert(commands =~= p.push(l));
        assert forall|c: Seq<char>|
            #[trigger] codex_commands(commands).contains(c) <==> commands.contains(c)
                && !ignorable_helper(c) by {
            let now = codex_commands(commands);
            if now.contains(c) {
                let k = choose|k: int| 0 <= k < now.len() && now[k] == c;
                if k < prev.len() {
                    assert(prev[k] == c);
                    assert(prev.contains(c));
                    assert(p.contains(c));
                    let j = choose|j: int| 0 <= j < p.len() && p[j] == c;
                    assert(commands[j] == c);
                } else {
                    assert(c == l);
                    assert(commands[commands.len() - 1] == c);
                }
            }
            if commands.contains(c) && !ignorable_helper(c) {
                let j = choose|j: int| 0 <= j < commands.len() && commands[j] == c;
                if j < p.len() {
                    assert(p[j] == c);
                    assert(p.contains(c));
                    assert(prev.contains(c));
                    let k = choose|k: int| 0 <= k < prev.len() && prev[k] == c;
                    assert(now[k] == c);
                } else {
                    assert(now[prev.len() as int] == c);
                }
            }
        }
    }
}

} // verus!
