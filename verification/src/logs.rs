//! Where a target's log may be, and how a log file is followed.
use vstd::prelude::*;

use crate::model::opt_text;
use crate::paths;
use crate::text;

verus! {

/// The first of the places that has a log, in order of confidence: a file that the
/// target holds open, a captured restart, the project directory, a supervisor.
pub open spec fn first_found(
    open: Option<Seq<char>>,
    captured: Option<Seq<char>>,
    in_dir: Option<Seq<char>>,
    pm2: Option<Seq<char>>,
) -> Option<Seq<char>> {
    match (open, captured, in_dir) {
        (Some(p), _, _) => Some(p),
        (None, Some(p), _) => Some(p),
        (None, None, Some(p)) => Some(p),
        (None, None, None) => pm2,
    }
}

/// Choose among the logs that were found for a target.
pub fn discover(
    open: Option<String>,
    captured: Option<String>,
    in_dir: Option<String>,
    pm2: Option<String>,
) -> (r: Option<String>)
    ensures
        opt_text(r) == first_found(
            opt_text(open),
            opt_text(captured),
            opt_text(in_dir),
            opt_text(pm2),
        ),
{
    if open.is_some() {
        open
    } else if captured.is_some() {
        captured
    } else if in_dir.is_some() {
        in_dir
    } else {
        pm2
    }
}

// -------------------------------------------------------------------- captures

/// A character of a file name: separators and blanks become dashes.
pub open spec fn safe_char(c: char) -> char {
    if c == '/' || c == '\\' || c == ' ' {
        '-'
    } else {
        c
    }
}

/// A project's name as a file name.
pub open spec fn safe_name(project: Seq<char>) -> Seq<char> {
    project.map_values(|c: char| safe_char(c))
}

fn sanitize(project: &str) -> (r: String)
    ensures
        r@ == safe_name(project@),
{
    let x = text::chars_of(project);
    let mut out = String::new();
    let mut i: usize = 0;
    proof {
        assert(out@ =~= safe_name(project@).take(0));
    }
    while i < x.len()
        invariant
            i <= x@.len(),
            x@ == project@,
            out@ == safe_name(project@).take(i as int),
        decreases x@.len() - i,
    {
        let c = x[i];
        out.push(
            if c == '/' || c == '\\' || c == ' ' {
                '-'
            } else {
                c
            },
        );
        proof {
            assert(out@ =~= safe_name(project@).take(i + 1));
        }
        i = i + 1;
    }
    proof {
        assert(safe_name(project@).take(i as int) =~= safe_name(project@));
    }
    out
}

/// The directory of captured logs below a directory of state.
pub open spec fn logs_below(base: Seq<char>) -> Seq<char> {
    paths::below(paths::below(base, "marina"@), "logs"@)
}

/// The directory of captured logs: below `$XDG_STATE_HOME` where that is set and not
/// empty, otherwise below `.local/state` in the home directory.
pub open spec fn logs_dir(xdg: Option<Seq<char>>, home: Option<Seq<char>>) -> Option<Seq<char>> {
    match (xdg, home) {
        (Some(x), _) if x.len() > 0 => Some(logs_below(x)),
        (_, Some(h)) => Some(logs_below(paths::below(h, ".local/state"@))),
        _ => None,
    }
}

fn below_state(base: &str) -> (r: String)
    ensures
        r@ == logs_below(base@),
{
    let own = paths::join(base, "marina");
    paths::join(own.as_str(), "logs")
}

/// The directory of captured logs.
pub fn state_log_dir(xdg: Option<&str>, home: Option<&str>) -> (r: Option<String>)
    ensures
        opt_text(r) == logs_dir(paths::opt_str(xdg), paths::opt_str(home)),
{
    match xdg {
        Some(x) => {
            if x.unicode_len() > 0 {
                return Some(below_state(x));
            }
        },
        None => {},
    }
    match home {
        Some(h) => {
            let dir = paths::join(h, ".local/state");
            Some(below_state(dir.as_str()))
        },
        None => None,
    }
}

/// Where the output of a restarted project is captured.
pub open spec fn capture_path(project: Seq<char>, dir: Seq<char>) -> Seq<char> {
    paths::below(dir, safe_name(project) + ".log"@)
}

/// The file in which the output of a project is captured when it is restarted.
pub fn state_log_path(project: &str, xdg: Option<&str>, home: Option<&str>) -> (r: Option<String>)
    ensures
        match r {
            Some(p) => logs_dir(paths::opt_str(xdg), paths::opt_str(home)) is Some && p@
                == capture_path(
                project@,
                logs_dir(paths::opt_str(xdg), paths::opt_str(home))->0,
            ),
            None => logs_dir(paths::opt_str(xdg), paths::opt_str(home)) is None,
        },
{
    match state_log_dir(xdg, home) {
        Some(dir) => {
            let mut name = sanitize(project);
            name.append(".log");
            Some(paths::join(dir.as_str(), name.as_str()))
        },
        None => None,
    }
}

/// Where the captured output of a project lies.
pub open spec fn captured_at(
    project: Seq<char>,
    xdg: Option<Seq<char>>,
    home: Option<Seq<char>>,
    r: Option<Seq<char>>,
) -> bool {
    r == (if project.len() == 0 {
        None
    } else {
        match logs_dir(xdg, home) {
            Some(d) => Some(capture_path(project, d)),
            None => None,
        }
    })
}

/// The file to look for as an earlier capture: none without a project.
pub fn captured_path(project: &str, xdg: Option<&str>, home: Option<&str>) -> (r: Option<String>)
    ensures
        captured_at(project@, paths::opt_str(xdg), paths::opt_str(home), opt_text(r)),
{
    if project.unicode_len() == 0 {
        return None;
    }
    state_log_path(project, xdg, home)
}

// ------------------------------------------------------------------- log files

/// The path has the extension `log`.
pub open spec fn is_log_file(p: Seq<char>) -> bool {
    match paths::file_name(p) {
        Some(n) => ".log"@.is_suffix_of(n) && n.len() > ".log"@.len(),
        None => false,
    }
}

/// Whether a path has the extension `log`.
pub fn has_log_ext(p: &str) -> (r: bool)
    ensures
        r == is_log_file(p@),
{
    match paths::file_name_of(p) {
        Some(n) => text::ends_with(n.as_str(), ".log") && n.as_str().unicode_len()
            > ".log".unicode_len(),
        None => false,
    }
}

/// An absolute path that looks like a log, and no socket or pipe.
pub open spec fn looks_like_log(p: Seq<char>) -> bool {
    "/"@.is_prefix_of(p) && (is_log_file(p) || text::occurs("/log/"@, p) || text::occurs(
        "/logs/"@,
        p,
    ))
}

/// Whether an open file looks like a log.
pub fn is_logish(p: &str) -> (r: bool)
    ensures
        r == looks_like_log(p@),
{
    text::starts_with(p, "/") && (has_log_ext(p) || text::contains(p, "/log/") || text::contains(
        p,
        "/logs/",
    ))
}

/// The path on a line of a listing of open files, if it looks like a log.
pub open spec fn listed_log(line: Seq<char>) -> Option<Seq<char>> {
    if "n"@.is_prefix_of(line) && looks_like_log(line.skip("n"@.len() as int)) {
        Some(line.skip("n"@.len() as int))
    } else {
        None
    }
}

/// The first listed log with the extension `log` (`strict`), or the first of any kind.
pub open spec fn first_listed(lines: Seq<Seq<char>>, strict: bool) -> Option<Seq<char>>
    decreases lines.len(),
{
    if lines.len() == 0 {
        None
    } else {
        match first_listed(lines.drop_last(), strict) {
            Some(p) => Some(p),
            None => match listed_log(lines.last()) {
                Some(p) => if !strict || is_log_file(p) {
                    Some(p)
                } else {
                    None
                },
                None => None,
            },
        }
    }
}

/// The log among the open files of a listing: files with the extension `log` first.
pub open spec fn open_log_in(lines: Seq<Seq<char>>) -> Option<Seq<char>> {
    match first_listed(lines, true) {
        Some(p) => Some(p),
        None => first_listed(lines, false),
    }
}

proof fn lemma_first_listed_stays(lines: Seq<Seq<char>>, strict: bool, k: int)
    requires
        0 <= k <= lines.len(),
        first_listed(lines.take(k), strict) is Some,
    ensures
        first_listed(lines, strict) == first_listed(lines.take(k), strict),
    decreases lines.len(),
{
    if k == lines.len() {
        assert(lines.take(k) =~= lines);
    } else {
        assert(lines.drop_last().take(k) =~= lines.take(k));
        lemma_first_listed_stays(lines.drop_last(), strict, k);
    }
}

/// The log that a target holds open, from the listing that `lsof -Fn` prints for its
/// processes.
pub fn from_fds(listing: &str) -> (r: Option<String>)
    ensures
        opt_text(r) == open_log_in(text::lines_of(listing@)),
{
    let lines = text::lines(listing);
    let ghost all = text::lines_of(listing@);
    let mut any: Option<String> = None;
    let mut i: usize = 0;
    while i < lines.len()
        invariant
            i <= lines@.len(),
            all == text::lines_of(listing@),
            text::texts(lines@) == all,
            first_listed(all.take(i as int), true) is None,
            opt_text(any) == first_listed(all.take(i as int), false),
        decreases lines@.len() - i,
    {
        proof {
            assert(all.take(i + 1).drop_last() =~= all.take(i as int));
            assert(all.take(i + 1).last() == lines@[i as int]@);
        }
        match text::strip_prefix(lines[i].as_str(), "n") {
            Some(p) => {
                if is_logish(p.as_str()) {
                    if has_log_ext(p.as_str()) {
                        proof {
                            lemma_first_listed_stays(all, true, i + 1);
                        }
                        return Some(p);
                    }
                    if any.is_none() {
                        any = Some(p);
                    }
                }
            },
            None => {},
        }
        i = i + 1;
    }
    proof {
        assert(all.take(i as int) =~= all);
    }
    any
}

/// A file with the time of its last change.
#[derive(Debug)]
pub struct DatedFile {
    pub modified: u64,
    pub path: String,
}

/// The place of the newest log among some files; the first of several equally new
/// ones.
pub open spec fn newest(files: Seq<DatedFile>) -> Option<int>
    decreases files.len(),
{
    if files.len() == 0 {
        None
    } else {
        let f = files.last();
        match newest(files.drop_last()) {
            Some(i) => if is_log_file(f.path@) && f.modified > files[i].modified {
                Some(files.len() - 1)
            } else {
                Some(i)
            },
            None => if is_log_file(f.path@) {
                Some(files.len() - 1)
            } else {
                None
            },
        }
    }
}

/// The newest log is a log, and no log is newer.
pub proof fn newest_is_newest(files: Seq<DatedFile>)
    ensures
        match newest(files) {
            Some(i) => 0 <= i < files.len() && is_log_file(files[i].path@) && forall|j: int|
                0 <= j < files.len() && is_log_file((#[trigger] files[j]).path@)
                    ==> files[j].modified <= files[i].modified,
            None => forall|j: int|
                0 <= j < files.len() ==> !is_log_file((#[trigger] files[j]).path@),
        },
    decreases files.len(),
{
    if files.len() > 0 {
        let d = files.drop_last();
        newest_is_newest(d);
        assert forall|j: int| 0 <= j < d.len() implies d[j] == #[trigger] files[j] by {}
    }
}

/// The newest log among the files of a project's directories.
pub fn in_dir(files: &[DatedFile]) -> (r: Option<String>)
    ensures
        opt_text(r) == match newest(files@) {
            Some(i) => Some(files@[i].path@),
            None => None,
        },
{
    let mut best: Option<usize> = None;
    let mut i: usize = 0;
    while i < files.len()
        invariant
            i <= files@.len(),
            match best {
                Some(b) => b < i && newest(files@.take(i as int)) == Some(b as int),
                None => newest(files@.take(i as int)) is None,
            },
        decreases files@.len() - i,
    {
        proof {
            assert(files@.take(i + 1).drop_last() =~= files@.take(i as int));
            assert(files@.take(i + 1).last() == files@[i as int]);
        }
        if has_log_ext(files[i].path.as_str()) {
            match best {
                Some(b) => {
                    if files[i].modified > files[b].modified {
                        best = Some(i);
                    }
                },
                None => {
                    best = Some(i);
                },
            }
        }
        i = i + 1;
    }
    proof {
        assert(files@.take(i as int) =~= files@);
    }
    match best {
        Some(b) => Some(files[b].path.clone()),
        None => None,
    }
}

/// The file is the supervisor's log of a project's output.
pub open spec fn is_pm2_log(path: Seq<char>, project: Seq<char>) -> bool {
    match paths::file_name(path) {
        Some(n) => text::occurs(project, n) && text::occurs("out"@, n),
        None => false,
    }
}

/// Which files are the supervisor's log of a project.
pub open spec fn pm2_hits(files: Seq<Seq<char>>, project: Seq<char>) -> Seq<bool> {
    Seq::new(files.len(), |i: int| is_pm2_log(files[i], project))
}

/// The log of the project that a process manager keeps.
pub open spec fn managed_log(
    files: Seq<Seq<char>>,
    project: Seq<char>,
    r: Option<Seq<char>>,
) -> bool {
    r == (if project.len() == 0 {
        None
    } else {
        match crate::resolve::first_hit(pm2_hits(files, project)) {
            Some(i) => Some(files[i]),
            None => None,
        }
    })
}

/// The supervisor's log of a project: the first file that fits, none without a
/// project.
pub fn pm2_log(files: &[String], project: &str) -> (r: Option<String>)
    ensures
        managed_log(text::texts(files@), project@, opt_text(r)),
{
    if project.unicode_len() == 0 {
        return None;
    }
    let ghost hits = pm2_hits(text::texts(files@), project@);
    let mut i: usize = 0;
    while i < files.len()
        invariant
            i <= files@.len(),
            project@.len() > 0,
            hits == pm2_hits(text::texts(files@), project@),
            forall|j: int| 0 <= j < i ==> !#[trigger] hits[j],
        decreases files@.len() - i,
    {
        let fits = match paths::file_name_of(files[i].as_str()) {
            Some(n) => text::contains(n.as_str(), project) && text::contains(n.as_str(), "out"),
            None => false,
        };
        assert(hits[i as int] == fits);
        if fits {
            proof {
                crate::resolve::lemma_is_first_hit(hits, i as int);
            }
            return Some(files[i].clone());
        }
        i = i + 1;
    }
    proof {
        crate::resolve::lemma_first_hit(hits);
    }
    None
}

// --------------------------------------------------------------------- tailing

/// How much of an existing log is shown, in bytes.
pub const CONTEXT: u64 = 16384;

/// How long to wait at the end of a log, in milliseconds.
pub const TAIL_POLL: u64 = 400;

/// Where a tail starts in a file of so many bytes.
pub open spec fn tail_starts(len: u64, r: u64) -> bool {
    r == (if len > CONTEXT {
        len - CONTEXT
    } else {
        0
    })
}

/// Where to start reading a log of this length. Any other start than the top splits a
/// line, which is then left out.
pub fn tail_start(len: u64) -> (r: u64)
    ensures
        tail_starts(len, r),
{
    if len > CONTEXT {
        len - CONTEXT
    } else {
        0
    }
}

/// What to do at the end of a log.
#[derive(Clone, Copy, Debug, PartialEq, Eq, Structural)]
pub enum AtEnd {
    /// The file became shorter than what was read: start over.
    StartOver,
    /// Wait for more, so many milliseconds.
    Wait(u64),
}

/// What the end of a file that is followed means.
pub open spec fn end_means(position: u64, len: Option<u64>, r: AtEnd) -> bool {
    r == match len {
        Some(n) => if n < position {
            AtEnd::StartOver
        } else {
            AtEnd::Wait(TAIL_POLL)
        },
        None => AtEnd::Wait(TAIL_POLL),
    }
}

/// What to do at the end of a log, from how far it was read and how long the file is
/// now, if that can be told.
pub fn at_end(position: u64, len: Option<u64>) -> (r: AtEnd)
    ensures
        end_means(position, len, r),
{
    match len {
        Some(n) => if n < position {
            AtEnd::StartOver
        } else {
            AtEnd::Wait(TAIL_POLL)
        },
        None => AtEnd::Wait(TAIL_POLL),
    }
}

/// The line that marks a log that was cut short.
pub const TRUNCATED: &'static str = "— log truncated, restarting tail —";

/// What to show in place of a log that cannot be opened.
pub fn cannot_open(path: &str) -> (r: String)
    ensures
        r@ == "(cannot open "@ + path@ + ")"@,
{
    let mut s = "(cannot open ".to_owned();
    s.append(path);
    s.append(")");
    s
}

} // verus!
