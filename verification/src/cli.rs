//! The rules of the command line: which names are excluded, where a script runs,
//! and what is reported.

use vstd::prelude::*;

use crate::error;
use crate::error::ErrorView;
use crate::error::MpError;
use crate::filter;
use crate::filter::IncludeError;
use crate::filter::IncludeFilter;
use crate::replies::FileStat;
use crate::replies::StatView;
use crate::scripts;
use crate::sync::ActionView;
use crate::sync::DiffEntry;
use crate::sync::DiffResult;
use crate::sync::DiffView;
use crate::sync::EntryView;
use crate::sync::StatsView;
use crate::sync::SyncAction;
use crate::sync::SyncStats;
use crate::text;
use crate::text::str_eq;
use crate::text::to_decimal;

verus! {

// ---------------------------------------------------------------------------
// Options
// ---------------------------------------------------------------------------

/// Directory and file names that are excluded by default.
pub open spec fn default_names() -> Seq<Seq<char>> {
    seq![
        ".git"@,
        "__pycache__"@,
        ".DS_Store"@,
        "node_modules"@,
        ".vscode"@,
        ".idea"@,
    ]
}

/// Directory and file names that are excluded by default.
pub fn default_excludes() -> (r: Vec<String>)
    ensures
        scripts::strings(r@) == default_names(),
{
    let mut r: Vec<String> = Vec::new();
    r.push(".git".to_owned());
    r.push("__pycache__".to_owned());
    r.push(".DS_Store".to_owned());
    r.push("node_modules".to_owned());
    r.push(".vscode".to_owned());
    r.push(".idea".to_owned());
    assert(scripts::strings(r@) =~= default_names());
    r
}

/// Build the full excludes list: default excludes + user-provided extras.
pub fn build_excludes(user_excludes: &[String]) -> (r: Vec<String>)
    ensures
        scripts::strings(r@) == default_names() + scripts::strings(user_excludes@),
{
    let ghost extra = scripts::strings(user_excludes@);
    let mut r: Vec<String> = default_excludes();
    let mut i: usize = 0;
    assert(default_names() + extra.take(0) =~= default_names());
    while i < user_excludes.len()
        invariant
            i <= user_excludes.len(),
            extra == scripts::strings(user_excludes@),
            scripts::strings(r@) == default_names() + extra.take(i as int),
        decreases user_excludes.len() - i,
    {
        let ghost before = r@;
        let name: String = user_excludes[i].as_str().to_owned();
        let ghost added = name@;
        r.push(name);
        assert(scripts::strings(r@) =~= scripts::strings(before).push(added));
        assert(default_names() + extra.take(i + 1) =~= (default_names() + extra.take(
            i as int,
        )).push(added));
        i = i + 1;
    }
    assert(extra.take(i as int) =~= extra);
    r
}

/// Which names are excluded, and whether to warn that the user's own are ignored.
#[derive(Debug)]
pub struct Excludes {
    pub names: Vec<String>,
    pub warn: bool,
}

/// Finds out which names are excluded. Where a `.mpyinclude` file was found, only
/// the default names are, and `--exclude` flags are ignored with a warning (no
/// warning in JSON mode).
pub fn resolve_filter(filter_found: bool, user_excludes: &[String], json: bool) -> (r: Excludes)
    ensures
        scripts::strings(r.names@) == if filter_found {
            default_names()
        } else {
            default_names() + scripts::strings(user_excludes@)
        },
        r.warn == (filter_found && user_excludes@.len() > 0 && !json),
{
    if filter_found {
        Excludes { names: default_excludes(), warn: user_excludes.len() > 0 && !json }
    } else {
        Excludes { names: build_excludes(user_excludes), warn: false }
    }
}

/// Finds out which names are excluded and which files count, by what the `.mpyinclude`
/// file of the local directory holds, if there is one. A file that gives no filter is
/// an error.
pub fn resolve_content(content: Option<&str>, user_excludes: &[String], json: bool) -> (r: Result<
    (Excludes, Option<IncludeFilter>),
    IncludeError,
>)
    ensures
        match content {
            None => r matches Ok((excludes, found)) && found is None && !excludes.warn
                && scripts::strings(excludes.names@) == default_names() + scripts::strings(
                user_excludes@,
            ),
            Some(s) => match r {
                Ok((excludes, found)) => {
                    &&& found matches Some(f) && filter::is_outcome(
                        filter::patterns(text::lines(s@)),
                        Ok(f@),
                    )
                    &&& scripts::strings(excludes.names@) == default_names()
                    &&& excludes.warn == (user_excludes@.len() > 0 && !json)
                },
                Err(e) => filter::is_outcome(filter::patterns(text::lines(s@)), Err(e)),
            },
        },
        content matches Some(s) ==> {
            let pats = filter::patterns(text::lines(s@));
            pats.len() > 0 && filter::surely_accepted(pats) && filter::short_and_shallow(pats)
                ==> r is Ok
        },
{
    let found: Option<IncludeFilter> = match content {
        None => None,
        Some(s) => match IncludeFilter::parse(s) {
            Ok(f) => Some(f),
            Err(e) => {
                return Err(e);
            },
        },
    };
    Ok((resolve_filter(found.is_some(), user_excludes, json), found))
}

/// A timeout in milliseconds, as far as the type goes.
pub fn timeout_ms(secs: u64) -> (r: u64)
    ensures
        r as int == if secs * 1000 <= u64::MAX {
            secs * 1000
        } else {
            u64::MAX as int
        },
{
    if secs <= u64::MAX / 1000 {
        secs * 1000
    } else {
        u64::MAX
    }
}

/// What a command wants a local path to be.
#[derive(Debug, Clone, Copy, PartialEq, Eq, Structural)]
pub enum LocalPath {
    /// Something that exists, called a file.
    File,
    /// A directory that exists.
    Directory,
    /// Something that exists.
    Any,
}

/// What a local path is called, and whether it will do.
pub open spec fn local_path_outcome(
    want: LocalPath,
    path: Seq<char>,
    found: bool,
    is_dir: bool,
) -> Result<(), ErrorView> {
    let will_do = match want {
        LocalPath::Directory => found && is_dir,
        _ => found,
    };
    if will_do {
        Ok(())
    } else {
        Err(
            ErrorView::InvalidInput(
                (match want {
                    LocalPath::File => "file not found: "@,
                    LocalPath::Directory => "directory not found: "@,
                    LocalPath::Any => "path not found: "@,
                }) + path,
            ),
        )
    }
}

/// Refuses a local path that is not what a command wants.
pub fn check_local_path(want: LocalPath, path: &str, found: bool, is_dir: bool) -> (r: Result<
    (),
    MpError,
>)
    ensures
        error::outcome(r) == local_path_outcome(want, path@, found, is_dir),
{
    let (will_do, label): (bool, &str) = match want {
        LocalPath::File => (found, "file not found: "),
        LocalPath::Directory => (found && is_dir, "directory not found: "),
        LocalPath::Any => (found, "path not found: "),
    };
    if will_do {
        return Ok(());
    }
    let mut msg: String = label.to_owned();
    msg.append(path);
    Err(MpError::InvalidInput(msg))
}

/// Where a local file is put on the device to be run.
pub open spec fn run_path(file_name: Option<Seq<char>>) -> Seq<char> {
    "/flash/"@ + match file_name {
        Some(name) => name,
        None => "__run.py"@,
    }
}

/// Where a local file with the given name, if it has one, is put on the device to
/// be run.
pub fn run_target(file_name: Option<&str>) -> (r: String)
    ensures
        r@ == run_path(
            match file_name {
                Some(name) => Some(name@),
                None => None,
            },
        ),
{
    let mut s: String = "/flash/".to_owned();
    match file_name {
        Some(name) => {
            s.append(name);
        },
        None => {
            s.append("__run.py");
        },
    }
    s
}

// ---------------------------------------------------------------------------
// Reports
// ---------------------------------------------------------------------------

/// The line that reports an action of a sync.
pub open spec fn action_text(a: ActionView, dry_run: bool) -> Option<Seq<char>> {
    if a.action == "upload"@ {
        Some(
            "  + "@ + a.path + " ("@ + text::decimal(a.size as nat) + if dry_run {
                " bytes, would upload)"@
            } else {
                " bytes)"@
            },
        )
    } else if a.action == "delete"@ {
        Some(
            "  - "@ + a.path + if dry_run {
                " (would delete)"@
            } else {
                Seq::empty()
            },
        )
    } else {
        None
    }
}

/// The line that reports an action of a sync, if there is one for it.
pub fn action_line(action: &SyncAction, dry_run: bool) -> (r: Option<String>)
    ensures
        match r {
            Some(s) => action_text(action@, dry_run) == Some(s@),
            None => action_text(action@, dry_run) is None,
        },
{
    if str_eq(action.action.as_str(), "upload") {
        let mut s: String = "  + ".to_owned();
        s.append(action.path.as_str());
        s.append(" (");
        s.append(to_decimal(action.size).as_str());
        if dry_run {
            s.append(" bytes, would upload)");
        } else {
            s.append(" bytes)");
        }
        Some(s)
    } else if str_eq(action.action.as_str(), "delete") {
        let mut s: String = "  - ".to_owned();
        s.append(action.path.as_str());
        if dry_run {
            s.append(" (would delete)");
        }
        assert(s@ =~= action_text(action@, dry_run)->0);
        Some(s)
    } else {
        None
    }
}

/// The line that sums up a sync.
pub open spec fn sync_text(s: StatsView, dry_run: bool) -> Seq<char> {
    if dry_run {
        "Dry run — "@ + text::decimal(s.uploaded) + " would upload, "@ + text::decimal(
            s.deleted,
        ) + " would delete"@
    } else {
        "Sync complete: "@ + text::decimal(s.uploaded) + " uploaded, "@ + text::decimal(
            s.deleted,
        ) + " deleted"@
    }
}

/// The line that sums up a sync.
pub fn sync_summary(stats: &SyncStats, dry_run: bool) -> (r: String)
    ensures
        r@ == sync_text(stats@, dry_run),
{
    let uploaded: String = to_decimal(stats.uploaded as u64);
    let deleted: String = to_decimal(stats.deleted as u64);
    if dry_run {
        let mut s: String = "Dry run — ".to_owned();
        s.append(uploaded.as_str());
        s.append(" would upload, ");
        s.append(deleted.as_str());
        s.append(" would delete");
        s
    } else {
        let mut s: String = "Sync complete: ".to_owned();
        s.append(uploaded.as_str());
        s.append(" uploaded, ");
        s.append(deleted.as_str());
        s.append(" deleted");
        s
    }
}

/// A size that may be missing, in decimal.
pub open spec fn size_text(size: Option<u64>) -> Seq<char> {
    text::decimal(
        match size {
            Some(n) => n as nat,
            None => 0,
        },
    )
}

fn push_size(s: &mut String, size: Option<u64>)
    ensures
        final(s)@ == old(s)@ + size_text(size),
{
    let n: u64 = match size {
        Some(n) => n,
        None => 0,
    };
    s.append(to_decimal(n).as_str());
}

/// The line that reports a difference.
pub open spec fn entry_text(e: EntryView) -> Option<Seq<char>> {
    if e.status == "new"@ {
        Some("+ "@ + e.path + " (local: "@ + size_text(e.local_size) + " bytes)"@)
    } else if e.status == "changed"@ {
        Some(
            "~ "@ + e.path + " (local: "@ + size_text(e.local_size) + " → remote: "@ + size_text(
                e.remote_size,
            ) + " bytes)"@,
        )
    } else if e.status == "deleted"@ {
        Some("- "@ + e.path + " (remote: "@ + size_text(e.remote_size) + " bytes)"@)
    } else {
        None
    }
}

/// The line that reports a difference, if there is one for it.
pub fn entry_line(entry: &DiffEntry) -> (r: Option<String>)
    ensures
        match r {
            Some(s) => entry_text(entry@) == Some(s@),
            None => entry_text(entry@) is None,
        },
{
    if str_eq(entry.status.as_str(), "new") {
        let mut s: String = "+ ".to_owned();
        s.append(entry.path.as_str());
        s.append(" (local: ");
        push_size(&mut s, entry.local_size);
        s.append(" bytes)");
        Some(s)
    } else if str_eq(entry.status.as_str(), "changed") {
        let mut s: String = "~ ".to_owned();
        s.append(entry.path.as_str());
        s.append(" (local: ");
        push_size(&mut s, entry.local_size);
        s.append(" → remote: ");
        push_size(&mut s, entry.remote_size);
        s.append(" bytes)");
        Some(s)
    } else if str_eq(entry.status.as_str(), "deleted") {
        let mut s: String = "- ".to_owned();
        s.append(entry.path.as_str());
        s.append(" (remote: ");
        push_size(&mut s, entry.remote_size);
        s.append(" bytes)");
        Some(s)
    } else {
        None
    }
}

/// The line that sums up a comparison.
pub open spec fn diff_text(d: DiffView) -> Seq<char> {
    if d.entries.len() == 0 {
        "No differences — local and remote are in sync."@
    } else {
        "\n"@ + text::decimal(d.new_count) + " new, "@ + text::decimal(d.changed_count)
            + " changed, "@ + text::decimal(d.deleted_count) + " deleted"@
    }
}

/// The line that sums up a comparison.
pub fn diff_summary(diff: &DiffResult) -> (r: String)
    ensures
        r@ == diff_text(diff@),
{
    if diff.entries.is_empty() {
        "No differences — local and remote are in sync.".to_owned()
    } else {
        let mut s: String = "\n".to_owned();
        s.append(to_decimal(diff.new_count as u64).as_str());
        s.append(" new, ");
        s.append(to_decimal(diff.changed_count as u64).as_str());
        s.append(" changed, ");
        s.append(to_decimal(diff.deleted_count as u64).as_str());
        s.append(" deleted");
        s
    }
}

/// The lines that report the status of a file.
pub open spec fn stat_text(s: StatView) -> Seq<char> {
    "path:  "@ + s.path + "\ntype:  "@ + (if s.is_dir {
        "directory"@
    } else {
        "file"@
    }) + "\nsize:  "@ + text::decimal(s.size as nat) + " bytes\n"@ + match s.mtime {
        Some(t) => "mtime: "@ + text::decimal(t as nat) + "\n"@,
        None => Seq::empty(),
    }
}

/// The lines that report the status of a file.
pub fn stat_report(stat: &FileStat) -> (r: String)
    ensures
        r@ == stat_text(stat@),
{
    let mut s: String = "path:  ".to_owned();
    s.append(stat.path.as_str());
    s.append("\ntype:  ");
    if stat.is_dir {
        s.append("directory");
    } else {
        s.append("file");
    }
    s.append("\nsize:  ");
    s.append(to_decimal(stat.size).as_str());
    s.append(" bytes\n");
    match stat.mtime {
        Some(t) => {
            s.append("mtime: ");
            s.append(to_decimal(t).as_str());
            s.append("\n");
        },
        None => {},
    }
    assert(s@ =~= stat_text(stat@));
    s
}

} // verus!
