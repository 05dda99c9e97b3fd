//! What holds of what a user is told: every report names the files and the numbers that
//! it is about, and every error says of what kind it is.

use vstd::prelude::*;

use crate::cli;
use crate::cli::LocalPath;
use crate::error::ErrorView;
use crate::filter::IncludeError;
use crate::replies::StatView;
use crate::serial;
use crate::serial::ExactView;
use crate::serial::ReadStep;
use crate::serial::UntilView;
use crate::sync;
use crate::sync::ActionView;
use crate::sync::DiffView;
use crate::sync::EntryView;
use crate::sync::StatsView;
use crate::sync_laws;
use crate::text;

verus! {

// ---------------------------------------------------------------------------
// Errors
// ---------------------------------------------------------------------------

/// The text shown for an error says of what kind it is, and then all of the message.
pub proof fn law_messages_say_the_kind(msg: Seq<char>)
    ensures
        ErrorView::Connection(msg).message() == "connection error: "@ + msg,
        ErrorView::Timeout(msg).message() == "timeout: "@ + msg,
        ErrorView::Protocol(msg).message() == "protocol error: "@ + msg,
        ErrorView::Filesystem(msg).message() == "filesystem error: "@ + msg,
        ErrorView::InvalidInput(msg).message() == "invalid input: "@ + msg,
{
}

/// The text shown for a failed execution holds both outputs, each under its name where it
/// is not empty.
pub proof fn law_failed_execution_shows_its_outputs(stdout: Seq<char>, stderr: Seq<char>)
    ensures
        ({
            let shown = (ErrorView::Execution { stdout, stderr }).message();
            let none = Seq::<char>::empty();
            shown == "execution error"@ + (if stdout == none {
                none
            } else {
                "\nstdout:\n"@ + stdout
            }) + (if stderr == none {
                none
            } else {
                "\nstderr:\n"@ + stderr
            })
        }),
{
    let none = Seq::<char>::empty();
    assert(stdout.len() == 0 ==> stdout =~= none);
    assert(stderr.len() == 0 ==> stderr =~= none);
}

/// The text shown for an include file that gives no filter says what is wrong, with the
/// line where there is one.
pub proof fn law_include_messages(line: String, reason: String)
    ensures
        (IncludeError::InvalidPattern { line, reason }).text() == "invalid glob pattern '"@ + line@
            + "': "@ + reason@,
        (IncludeError::TooDeep { line }).text() == "alternatives nested too deep in glob pattern '"@
            + line@ + "'"@,
        IncludeError::TooLong.text() == ".mpyinclude contains a pattern that is too long"@,
        IncludeError::NoPatterns.text() == ".mpyinclude contains no valid patterns"@,
        (IncludeError::Matcher { reason }).text() == "failed to build glob matcher: "@ + reason@,
{
}

/// A local path will do where there is something, and for a directory where that is one.
/// Else the error names the path and what was wanted.
pub proof fn law_local_paths_are_checked(path: Seq<char>, found: bool, is_dir: bool)
    ensures
        cli::local_path_outcome(LocalPath::File, path, found, is_dir) == (if found {
            Ok::<(), ErrorView>(())
        } else {
            Err(ErrorView::InvalidInput("file not found: "@ + path))
        }),
        cli::local_path_outcome(LocalPath::Directory, path, found, is_dir) == (if found && is_dir {
            Ok::<(), ErrorView>(())
        } else {
            Err(ErrorView::InvalidInput("directory not found: "@ + path))
        }),
        cli::local_path_outcome(LocalPath::Any, path, found, is_dir) == (if found {
            Ok::<(), ErrorView>(())
        } else {
            Err(ErrorView::InvalidInput("path not found: "@ + path))
        }),
{
}

// ---------------------------------------------------------------------------
// Reports
// ---------------------------------------------------------------------------

/// A local file that is to be run is put into the flash of the device under its own
/// name, or under one that is kept for this.
pub proof fn law_scripts_run_from_the_flash(name: Seq<char>)
    ensures
        cli::run_path(Some(name)) == "/flash/"@ + name,
        cli::run_path(None) == "/flash/"@ + "__run.py"@,
{
}

/// These names are excluded unless an include file says otherwise, and no others are.
pub proof fn law_default_excludes(name: Seq<char>)
    ensures
        cli::default_names().contains(name) <==> {
            ||| name == ".git"@
            ||| name == "__pycache__"@
            ||| name == ".DS_Store"@
            ||| name == "node_modules"@
            ||| name == ".vscode"@
            ||| name == ".idea"@
        },
{
    let all = cli::default_names();
    assert(all[0] == ".git"@ && all[1] == "__pycache__"@ && all[2] == ".DS_Store"@ && all[3]
        == "node_modules"@ && all[4] == ".vscode"@ && all[5] == ".idea"@);
    assert(all.len() == 6);
    if all.contains(name) {
        let i = choose|i: int| 0 <= i < all.len() && all[i] == name;
        assert(i == 0 || i == 1 || i == 2 || i == 3 || i == 4 || i == 5);
    }
}

/// The report of an action names the file, for an upload with its size, and in a dry run
/// says what would be done. An action that does nothing is not reported.
pub proof fn law_actions_are_reported(path: Seq<char>, size: u64, other: Seq<char>)
    requires
        other != "upload"@,
        other != "delete"@,
    ensures
        cli::action_text(ActionView { path, action: "upload"@, size }, false) == Some(
            "  + "@ + path + " ("@ + text::decimal(size as nat) + " bytes)"@,
        ),
        cli::action_text(ActionView { path, action: "upload"@, size }, true) == Some(
            "  + "@ + path + " ("@ + text::decimal(size as nat) + " bytes, would upload)"@,
        ),
        cli::action_text(ActionView { path, action: "delete"@, size }, false) == Some(
            "  - "@ + path,
        ),
        cli::action_text(ActionView { path, action: "delete"@, size }, true) == Some(
            "  - "@ + path + " (would delete)"@,
        ),
        cli::action_text(ActionView { path, action: other, size }, false) is None,
        cli::action_text(ActionView { path, action: other, size }, true) is None,
{
    sync_laws::lemma_action_names();
    assert("  - "@ + path + Seq::empty() =~= "  - "@ + path);
}

/// The summary of a sync tells how many files were uploaded and deleted, and in a dry run
/// how many would be.
pub proof fn law_syncs_are_summed_up(s: StatsView)
    ensures
        cli::sync_text(s, false) == "Sync complete: "@ + text::decimal(s.uploaded)
            + " uploaded, "@ + text::decimal(s.deleted) + " deleted"@,
        cli::sync_text(s, true) == "Dry run — "@ + text::decimal(s.uploaded)
            + " would upload, "@ + text::decimal(s.deleted) + " would delete"@,
{
}

/// The report of a difference names the file, and the sizes on the sides where it is.
pub proof fn law_differences_are_reported(path: Seq<char>, local: u64, remote: u64, other: Seq<char>)
    requires
        other != "new"@,
        other != "changed"@,
        other != "deleted"@,
    ensures
        cli::entry_text(
            EntryView { path, status: "new"@, local_size: Some(local), remote_size: None },
        ) == Some("+ "@ + path + " (local: "@ + text::decimal(local as nat) + " bytes)"@),
        cli::entry_text(
            EntryView {
                path,
                status: "changed"@,
                local_size: Some(local),
                remote_size: Some(remote),
            },
        ) == Some(
            "~ "@ + path + " (local: "@ + text::decimal(local as nat) + " → remote: "@
                + text::decimal(remote as nat) + " bytes)"@,
        ),
        cli::entry_text(
            EntryView { path, status: "deleted"@, local_size: None, remote_size: Some(remote) },
        ) == Some("- "@ + path + " (remote: "@ + text::decimal(remote as nat) + " bytes)"@),
        cli::entry_text(
            EntryView { path, status: other, local_size: Some(local), remote_size: Some(remote) },
        ) is None,
{
    sync::lemma_status_names();
}

/// The summary of a comparison tells how many differences of each kind there are, or that
/// there is none.
pub proof fn law_comparisons_are_summed_up(d: DiffView)
    ensures
        d.entries.len() > 0 ==> cli::diff_text(d) == "\n"@ + text::decimal(d.new_count)
            + " new, "@ + text::decimal(d.changed_count) + " changed, "@ + text::decimal(
            d.deleted_count,
        ) + " deleted"@,
        d.entries.len() == 0 ==> cli::diff_text(d)
            == "No differences — local and remote are in sync."@,
{
}

/// The report of a status names the path, says whether it is a directory or a file, and
/// tells the size and, where it is known, the time of the last change.
pub proof fn law_statuses_are_reported(path: Seq<char>, is_dir: bool, size: u64, time: u64)
    ensures
        ({
            let head = "path:  "@ + path + "\ntype:  "@ + (if is_dir {
                "directory"@
            } else {
                "file"@
            }) + "\nsize:  "@ + text::decimal(size as nat) + " bytes\n"@;
            &&& cli::stat_text(StatView { path, is_dir, size, mtime: None }) == head
            &&& cli::stat_text(StatView { path, is_dir, size, mtime: Some(time) }) == head
                + "mtime: "@ + text::decimal(time as nat) + "\n"@
        }),
{
    let head = "path:  "@ + path + "\ntype:  "@ + (if is_dir {
        "directory"@
    } else {
        "file"@
    }) + "\nsize:  "@ + text::decimal(size as nat) + " bytes\n"@;
    assert(cli::stat_text(StatView { path, is_dir, size, mtime: None }) =~= head);
    assert(cli::stat_text(StatView { path, is_dir, size, mtime: Some(time) }) =~= head
        + "mtime: "@ + text::decimal(time as nat) + "\n"@);
}

// ---------------------------------------------------------------------------
// The serial port
// ---------------------------------------------------------------------------

/// Whether a name has a text somewhere in it.
pub open spec fn mentions(name: Seq<char>, t: Seq<char>) -> bool {
    exists|a: Seq<char>, z: Seq<char>| name == #[trigger] (a + t + z)
}

proof fn lemma_mentions(name: Seq<char>, t: Seq<char>)
    ensures
        text::has_text(name, t) <==> mentions(name, t),
{
    if text::has_text(name, t) {
        let i = choose|i: int| #[trigger] text::occurs_at(name, t, i);
        let a = name.take(i);
        let z = name.skip(i + t.len());
        assert(name =~= a + t + z);
    }
    if mentions(name, t) {
        let (a, z) = choose|a: Seq<char>, z: Seq<char>| name == #[trigger] (a + t + z);
        let i = a.len() as int;
        assert(name.subrange(i, i + t.len()) =~= t);
        assert(text::occurs_at(name, t, i));
    }
}

/// Whether a name is that of a port that a device is expected at.
pub open spec fn is_candidate(name: Seq<char>) -> bool {
    mentions(name, "ttyACM"@) || mentions(name, "ttyUSB"@)
}

/// Whether a name is the first one of several that is a candidate.
pub open spec fn is_first_candidate(names: Seq<Seq<char>>, i: int) -> bool {
    0 <= i < names.len() && is_candidate(names[i]) && forall|j: int|
        0 <= j < i ==> !is_candidate(#[trigger] names[j])
}

/// The port that is chosen is the first one that a device is expected at. Where there is
/// none the error says so.
pub proof fn law_first_candidate_is_chosen(names: Seq<Seq<char>>)
    ensures
        match serial::chosen_port(names) {
            Ok(name) => exists|i: int| #[trigger]
                is_first_candidate(names, i) && names[i] == name,
            Err(e) => {
                &&& forall|i: int| 0 <= i < names.len() ==> !is_candidate(#[trigger] names[i])
                &&& e == ErrorView::Connection(
                    "no MicroPython device found (no ttyACM/ttyUSB ports)"@,
                )
            },
        },
    decreases names.len(),
{
    if names.len() > 0 {
        let rest = names.skip(1);
        lemma_mentions(names[0], "ttyACM"@);
        lemma_mentions(names[0], "ttyUSB"@);
        law_first_candidate_is_chosen(rest);
        if is_candidate(names[0]) {
            assert(is_first_candidate(names, 0));
        } else {
            match serial::chosen_port(rest) {
                Ok(name) => {
                    let i = choose|i: int| #[trigger]
                        is_first_candidate(rest, i) && rest[i] == name;
                    assert(names[i + 1] == rest[i]);
                    assert forall|j: int| 0 <= j < i + 1 implies !is_candidate(
                        #[trigger] names[j],
                    ) by {
                        if j > 0 {
                            assert(names[j] == rest[j - 1]);
                        }
                    }
                    assert(is_first_candidate(names, i + 1));
                },
                Err(_) => {
                    assert forall|i: int| 0 <= i < names.len() implies !is_candidate(
                        #[trigger] names[i],
                    ) by {
                        if i > 0 {
                            assert(names[i] == rest[i - 1]);
                        }
                    }
                },
            }
        }
    }
}

/// A read is over as soon as it has what it wants. Else it goes on, until its time is up.
pub proof fn law_reads_wait_for_their_time(satisfied: bool, now: u64, deadline: u64)
    ensures
        serial::read_step(satisfied, now, deadline) == ReadStep::Done <==> satisfied,
        serial::read_step(satisfied, now, deadline) == ReadStep::Read <==> !satisfied && now
            < deadline,
        serial::read_step(satisfied, now, deadline) == ReadStep::TimedOut <==> !satisfied && now
            >= deadline,
{
}

/// The error for a read that ran out of time tells how many bytes were wanted and how
/// many had come, or the bytes of the pattern, one after the other.
pub proof fn law_timeouts_say_what_was_wanted(wanted: nat, got: Seq<u8>, pattern: Seq<u8>, b: u8)
    ensures
        (ExactView { wanted, got }).timeout() == ErrorView::Timeout(
            "read_exact: wanted "@ + text::decimal(wanted) + " bytes, got "@ + text::decimal(
                got.len(),
            ),
        ),
        (UntilView { pattern, got }).timeout() == ErrorView::Timeout(
            "read_until: pattern ["@ + serial::byte_items(pattern)
                + "] not found within timeout"@,
        ),
        serial::byte_items(seq![b]) == text::decimal(b as nat),
        pattern.len() > 0 ==> serial::byte_items(pattern.push(b)) == serial::byte_items(pattern)
            + ", "@ + text::decimal(b as nat),
{
    reveal_strlit("read_until: pattern ");
    reveal_strlit("[");
    reveal_strlit("read_until: pattern [");
    reveal_strlit("]");
    reveal_strlit(" not found within timeout");
    reveal_strlit("] not found within timeout");
    assert(pattern.push(b).drop_last() =~= pattern);
    assert("read_until: pattern "@ + serial::byte_list(pattern) + " not found within timeout"@
        =~= "read_until: pattern ["@ + serial::byte_items(pattern)
        + "] not found within timeout"@);
}

} // verus!
