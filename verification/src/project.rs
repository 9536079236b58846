//! Project roots, project names and branches, from what lies on disk around a
//! working directory.
use vstd::prelude::*;

use crate::documents;
use crate::model::opt_text;
use crate::paths;
use crate::resolve::{first_hit, last_piece, lemma_first_hit, lemma_is_first_hit};
use crate::text;
use crate::textmap::has_text;

verus! {

// ----------------------------------------------------------------------- root

/// What marks a directory as a project by its name: a manifest, or a repository.
pub open spec fn markers() -> Seq<Seq<char>> {
    seq![
        "package.json"@,
        "Cargo.toml"@,
        "go.mod"@,
        "pyproject.toml"@,
        "setup.py"@,
        "Pipfile"@,
        "Gemfile"@,
        "pom.xml"@,
        "build.gradle"@,
        "build.gradle.kts"@,
        "mix.exs"@,
        "composer.json"@,
        ".git"@,
    ]
}

fn marker_names() -> (r: Vec<String>)
    ensures
        text::texts(r@) == markers(),
{
    let mut v: Vec<String> = Vec::new();
    v.push("package.json".to_owned());
    v.push("Cargo.toml".to_owned());
    v.push("go.mod".to_owned());
    v.push("pyproject.toml".to_owned());
    v.push("setup.py".to_owned());
    v.push("Pipfile".to_owned());
    v.push("Gemfile".to_owned());
    v.push("pom.xml".to_owned());
    v.push("build.gradle".to_owned());
    v.push("build.gradle.kts".to_owned());
    v.push("mix.exs".to_owned());
    v.push("composer.json".to_owned());
    v.push(".git".to_owned());
    proof {
        assert(text::texts(v@) =~= markers());
    }
    v
}

/// A file that marks its directory as a project by the ending of its name.
pub open spec fn names_project_file(name: Seq<char>) -> bool {
    ||| ".gemspec"@.is_suffix_of(name)
    ||| ".csproj"@.is_suffix_of(name)
    ||| ".sln"@.is_suffix_of(name)
}

/// Whether a file marks its directory as a project by the ending of its name.
pub fn is_project_file(name: &str) -> (r: bool)
    ensures
        r == names_project_file(name@),
{
    text::ends_with(name, ".gemspec") || text::ends_with(name, ".csproj") || text::ends_with(
        name,
        ".sln",
    )
}

/// The path is that of a file in `dir` that marks it by its ending.
pub open spec fn is_project_file_in(dir: Seq<char>, path: Seq<char>) -> bool {
    match paths::file_name(path) {
        Some(n) => names_project_file(n) && path == paths::below(dir, n),
        None => false,
    }
}

fn lies_in(dir: &str, path: &str) -> (r: bool)
    ensures
        r == is_project_file_in(dir@, path@),
{
    match paths::file_name_of(path) {
        Some(n) => {
            let p = paths::join(dir, n.as_str());
            is_project_file(n.as_str()) && text::same(path, p.as_str())
        },
        None => false,
    }
}

/// One of the paths that would mark `dir` is among the existing ones.
pub open spec fn marked(dir: Seq<char>, existing: Seq<Seq<char>>) -> bool {
    ||| exists|i: int|
        0 <= i < markers().len() && existing.contains(paths::below(dir, #[trigger] markers()[i]))
    ||| exists|i: int| 0 <= i < existing.len() && is_project_file_in(dir, #[trigger] existing[i])
}

/// Which of some directories are marked.
pub open spec fn marks(dirs: Seq<Seq<char>>, existing: Seq<Seq<char>>) -> Seq<bool> {
    Seq::new(dirs.len(), |i: int| marked(dirs[i], existing))
}

/// The nearest marked directory at or above `start`.
pub open spec fn nearest_root(start: Seq<char>, existing: Seq<Seq<char>>) -> Option<Seq<char>> {
    let dirs = paths::upward(start);
    match first_hit(marks(dirs, existing)) {
        Some(i) => Some(dirs[i]),
        None => None,
    }
}

/// The paths that would mark a directory by name.
pub open spec fn marker_paths(dir: Seq<char>) -> Seq<Seq<char>> {
    Seq::new(markers().len(), |i: int| paths::below(dir, markers()[i]))
}

/// The paths that would mark any of some directories by name.
pub open spec fn all_marker_paths(dirs: Seq<Seq<char>>) -> Seq<Seq<char>>
    decreases dirs.len(),
{
    if dirs.len() == 0 {
        Seq::empty()
    } else {
        all_marker_paths(dirs.drop_last()) + marker_paths(dirs.last())
    }
}

/// Every path that would mark a directory at or above `start` by name. Files that mark
/// theirs by the ending of the name come on top.
pub fn probe_paths(start: &str) -> (r: Vec<String>)
    ensures
        text::texts(r@) == all_marker_paths(paths::upward(start@)),
{
    let names = marker_names();
    let dirs = paths::ancestor_dirs(start);
    let ghost all = paths::upward(start@);
    let mut out: Vec<String> = Vec::new();
    let mut i: usize = 0;
    proof {
        assert(text::texts(out@) =~= all_marker_paths(all.take(0)));
    }
    while i < dirs.len()
        invariant
            i <= dirs@.len(),
            text::texts(names@) == markers(),
            text::texts(dirs@) == all,
            text::texts(out@) == all_marker_paths(all.take(i as int)),
        decreases dirs@.len() - i,
    {
        let ghost before = all_marker_paths(all.take(i as int));
        let ghost mine = marker_paths(all[i as int]);
        let mut k: usize = 0;
        proof {
            assert(all.take(i + 1).drop_last() =~= all.take(i as int));
            assert(all.take(i + 1).last() == all[i as int]);
            assert(before + mine.take(0) =~= before);
        }
        while k < names.len()
            invariant
                i < dirs@.len(),
                k <= names@.len(),
                text::texts(names@) == markers(),
                text::texts(dirs@) == all,
                mine == marker_paths(all[i as int]),
                text::texts(out@) == before + mine.take(k as int),
            decreases names@.len() - k,
        {
            let ghost out0 = out@;
            assert(text::texts(names@)[k as int] == names@[k as int]@);
            assert(text::texts(dirs@)[i as int] == dirs@[i as int]@);
            let p = paths::join(dirs[i].as_str(), names[k].as_str());
            out.push(p);
            proof {
                assert(text::texts(out@) =~= text::texts(out0).push(p@));
                assert(text::texts(out@) =~= before + mine.take(k + 1));
            }
            k = k + 1;
        }
        proof {
            assert(mine.take(k as int) =~= mine);
        }
        i = i + 1;
    }
    proof {
        assert(all.take(i as int) =~= all);
    }
    out
}

fn is_marked(dir: &str, existing: &[String]) -> (r: bool)
    ensures
        r == marked(dir@, text::texts(existing@)),
{
    let names = marker_names();
    let ghost all = text::texts(existing@);
    let mut k: usize = 0;
    while k < names.len()
        invariant
            k <= names@.len(),
            all == text::texts(existing@),
            text::texts(names@) == markers(),
            forall|j: int| 0 <= j < k ==> !all.contains(paths::below(dir@, #[trigger] markers()[j])),
        decreases names@.len() - k,
    {
        assert(text::texts(names@)[k as int] == names@[k as int]@);
        let p = paths::join(dir, names[k].as_str());
        if has_text(existing, p.as_str()) {
            assert(all.contains(paths::below(dir@, markers()[k as int])));
            return true;
        }
        k = k + 1;
    }
    let mut i: usize = 0;
    while i < existing.len()
        invariant
            i <= existing@.len(),
            all == text::texts(existing@),
            forall|j: int|
                0 <= j < markers().len() ==> !all.contains(
                    paths::below(dir@, #[trigger] markers()[j]),
                ),
            forall|j: int| 0 <= j < i ==> !is_project_file_in(dir@, #[trigger] all[j]),
        decreases existing@.len() - i,
    {
        assert(all[i as int] == existing@[i as int]@);
        if lies_in(dir, existing[i].as_str()) {
            return true;
        }
        i = i + 1;
    }
    false
}

/// Nearest project marker at or above `start`, given which of the probed paths exist and
/// the files that mark their directory by the ending of the name.
pub fn project_root(start: &str, existing: &[String]) -> (r: Option<String>)
    ensures
        opt_text(r) == nearest_root(start@, text::texts(existing@)),
{
    let mut dirs = paths::ancestor_dirs(start);
    let ghost all = paths::upward(start@);
    let ghost hits = marks(all, text::texts(existing@));
    let mut i: usize = 0;
    while i < dirs.len()
        invariant
            i <= dirs@.len(),
            text::texts(dirs@) == all,
            all == paths::upward(start@),
            hits == marks(all, text::texts(existing@)),
            forall|j: int| 0 <= j < i ==> !#[trigger] hits[j],
        decreases dirs@.len() - i,
    {
        assert(text::texts(dirs@)[i as int] == dirs@[i as int]@);
        let hit = is_marked(dirs[i].as_str(), existing);
        assert(hits[i as int] == hit);
        if hit {
            proof {
                lemma_is_first_hit(hits, i as int);
            }
            return Some(dirs.swap_remove(i));
        }
        i = i + 1;
    }
    proof {
        lemma_first_hit(hits);
    }
    None
}

/// The project root is marked, and no directory between it and the start is.
pub proof fn root_is_nearest(start: Seq<char>, existing: Seq<Seq<char>>)
    ensures
        match nearest_root(start, existing) {
            Some(r) => exists|i: int|
                0 <= i < paths::upward(start).len() && #[trigger] paths::upward(start)[i] == r
                    && marked(r, existing) && forall|j: int|
                    0 <= j < i ==> !marked(#[trigger] paths::upward(start)[j], existing),
            None => forall|j: int|
                0 <= j < paths::upward(start).len() ==> !marked(
                    #[trigger] paths::upward(start)[j],
                    existing,
                ),
        },
{
    let dirs = paths::upward(start);
    let hits = marks(dirs, existing);
    lemma_first_hit(hits);
    match first_hit(hits) {
        Some(i) => {
            assert(dirs[i] == dirs[i]);
            assert forall|j: int| 0 <= j < i implies !marked(#[trigger] dirs[j], existing) by {
                assert(!hits[j]);
            }
        },
        None => {
            assert forall|j: int| 0 <= j < dirs.len() implies !marked(
                #[trigger] dirs[j],
                existing,
            ) by {
                assert(!hits[j]);
            }
        },
    }
}

// ----------------------------------------------------------------------- name

/// The text of each manifest that a project root has.
pub struct Manifests {
    pub package_json: Option<String>,
    pub cargo_toml: Option<String>,
    pub pyproject_toml: Option<String>,
    pub go_mod: Option<String>,
    pub gemspec: Option<String>,
    pub pom_xml: Option<String>,
    pub mix_exs: Option<String>,
    pub composer_json: Option<String>,
    /// The names of the files that lie in the root.
    pub files: Vec<String>,
}

/// The last part of the module path on a `module` line.
pub open spec fn module_on(line: Seq<char>) -> Option<Seq<char>> {
    let t = text::trimmed(line);
    if "module "@.is_prefix_of(t) {
        Some(text::pieces(text::trimmed(t.skip("module "@.len() as int)), '/').last())
    } else {
        None
    }
}

/// What the first line gives that gives anything.
pub open spec fn first_given(
    lines: Seq<Seq<char>>,
    read: spec_fn(Seq<char>) -> Option<Seq<char>>,
) -> Option<Seq<char>>
    decreases lines.len(),
{
    if lines.len() == 0 {
        None
    } else {
        match first_given(lines.drop_last(), read) {
            Some(m) => Some(m),
            None => read(lines.last()),
        }
    }
}

proof fn lemma_first_given_stays(
    lines: Seq<Seq<char>>,
    read: spec_fn(Seq<char>) -> Option<Seq<char>>,
    k: int,
)
    requires
        0 <= k <= lines.len(),
        first_given(lines.take(k), read) is Some,
    ensures
        first_given(lines, read) == first_given(lines.take(k), read),
    decreases lines.len(),
{
    if k == lines.len() {
        assert(lines.take(k) =~= lines);
    } else {
        assert(lines.drop_last().take(k) =~= lines.take(k));
        lemma_first_given_stays(lines.drop_last(), read, k);
    }
}

/// Something that a line of a file may give.
trait LineReader {
    spec fn gives(&self, line: Seq<char>) -> Option<Seq<char>>;

    fn read(&self, line: &str) -> (r: Option<String>)
        ensures
            opt_text(r) == self.gives(line@),
    ;
}

spec fn reader_of<R: LineReader>(reader: R) -> spec_fn(Seq<char>) -> Option<Seq<char>> {
    |line: Seq<char>| reader.gives(line)
}

fn first_line<R: LineReader>(file: &str, reader: &R) -> (r: Option<String>)
    ensures
        opt_text(r) == first_given(text::lines_of(file@), reader_of(*reader)),
{
    let lines = text::lines(file);
    let ghost all = text::lines_of(file@);
    let ghost read = reader_of(*reader);
    let mut i: usize = 0;
    while i < lines.len()
        invariant
            i <= lines@.len(),
            all == text::lines_of(file@),
            read == reader_of(*reader),
            text::texts(lines@) == all,
            first_given(all.take(i as int), read) is None,
        decreases lines@.len() - i,
    {
        proof {
            assert(all.take(i + 1).drop_last() =~= all.take(i as int));
            assert(all.take(i + 1).last() == lines@[i as int]@);
        }
        let found = reader.read(lines[i].as_str());
        if found.is_some() {
            proof {
                lemma_first_given_stays(all, read, i + 1);
            }
            return found;
        }
        i = i + 1;
    }
    proof {
        assert(all.take(i as int) =~= all);
    }
    None
}

/// The module that a `go.mod` declares.
pub open spec fn module_of(go_mod: Seq<char>) -> Option<Seq<char>> {
    first_given(text::lines_of(go_mod), |line: Seq<char>| module_on(line))
}

struct ModuleLine;

impl LineReader for ModuleLine {
    closed spec fn gives(&self, line: Seq<char>) -> Option<Seq<char>> {
        module_on(line)
    }

    fn read(&self, line: &str) -> (r: Option<String>) {
        let line = text::trim(line);
        match text::strip_prefix(line, "module ") {
            Some(rest) => Some(last_piece(text::trim(rest.as_str()), '/')),
            None => None,
        }
    }
}

/// The module name that a `go.mod` declares.
pub fn go_module(go_mod: &str) -> (r: Option<String>)
    ensures
        opt_text(r) == module_of(go_mod@),
{
    proof {
        assert(reader_of(ModuleLine) =~= (|line: Seq<char>| module_on(line)));
    }
    first_line(go_mod, &ModuleLine)
}

/// What stands between the quotation marks that a text starts with.
pub open spec fn quoted_text(s: Seq<char>) -> Option<Seq<char>> {
    if s.len() > 0 && (s[0] == '"' || s[0] == '\'') {
        text::head_before(s.skip(1), s.take(1))
    } else {
        None
    }
}

fn unquote(s: &str) -> (r: Option<String>)
    ensures
        opt_text(r) == quoted_text(s@),
{
    let n = s.unicode_len();
    if n == 0 {
        return None;
    }
    let c = s.get_char(0);
    if c != '"' && c != '\'' {
        return None;
    }
    proof {
        assert(s@.subrange(0, 1) =~= s@.take(1));
        assert(s@.subrange(1, n as int) =~= s@.skip(1));
    }
    text::before(s.substring_char(1, n), s.substring_char(0, 1))
}

/// The name on a line of a gemspec such as `spec.name = "acme"`. A comment gives none.
pub open spec fn gem_on(line: Seq<char>) -> Option<Seq<char>> {
    let t = text::trimmed(line);
    match (text::head_before(t, "="@), text::tail_after(t, "="@)) {
        (Some(left), Some(right)) => if ".name"@.is_suffix_of(text::trimmed(left))
            && !"#"@.is_prefix_of(t) {
            quoted_text(text::trimmed(right))
        } else {
            None
        },
        _ => None,
    }
}

/// The name of the gem that a gemspec describes.
pub open spec fn gem_of(gemspec: Seq<char>) -> Option<Seq<char>> {
    first_given(text::lines_of(gemspec), |line: Seq<char>| gem_on(line))
}

struct GemLine;

impl LineReader for GemLine {
    closed spec fn gives(&self, line: Seq<char>) -> Option<Seq<char>> {
        gem_on(line)
    }

    fn read(&self, line: &str) -> (r: Option<String>) {
        let t = text::trim(line);
        match (text::before(t, "="), text::after(t, "=")) {
            (Some(left), Some(right)) => if text::ends_with(text::trim(left.as_str()), ".name")
                && !text::starts_with(t, "#") {
                unquote(text::trim(right.as_str()))
            } else {
                None
            },
            _ => None,
        }
    }
}

/// The name of the gem that a gemspec describes.
pub fn gem_name(gemspec: &str) -> (r: Option<String>)
    ensures
        opt_text(r) == gem_of(gemspec@),
{
    proof {
        assert(reader_of(GemLine) =~= (|line: Seq<char>| gem_on(line)));
    }
    first_line(gemspec, &GemLine)
}

/// A character of a name: a letter, a digit or an underscore.
pub open spec fn is_word(c: char) -> bool {
    'a' <= c <= 'z' || 'A' <= c <= 'Z' || '0' <= c <= '9' || c == '_'
}

/// How many characters of a name a text starts with.
pub open spec fn word_length(s: Seq<char>) -> nat
    decreases s.len(),
{
    if s.len() > 0 && is_word(s[0]) {
        1 + word_length(s.drop_first())
    } else {
        0
    }
}

fn leading_word(s: &str) -> (r: String)
    ensures
        word_length(s@) <= s@.len(),
        r@ == s@.take(word_length(s@) as int),
{
    let x = text::chars_of(s);
    let mut i: usize = 0;
    proof {
        assert(s@.skip(0) =~= s@);
    }
    while i < x.len() && ((x[i] >= 'a' && x[i] <= 'z') || (x[i] >= 'A' && x[i] <= 'Z') || (x[i]
        >= '0' && x[i] <= '9') || x[i] == '_')
        invariant
            i <= x@.len(),
            x@ == s@,
            word_length(s@) == i + word_length(s@.skip(i as int)),
        decreases x@.len() - i,
    {
        proof {
            assert(s@.skip(i as int)[0] == x@[i as int]);
            assert(s@.skip(i as int).drop_first() =~= s@.skip(i + 1));
        }
        i = i + 1;
    }
    proof {
        if i < x@.len() {
            assert(s@.skip(i as int)[0] == x@[i as int]);
        }
        assert(s@.subrange(0, i as int) =~= s@.take(i as int));
    }
    s.substring_char(0, i).to_owned()
}

/// The name on a line of a `mix.exs` such as `app: :acme,`, which may open the list.
pub open spec fn app_on(line: Seq<char>) -> Option<Seq<char>> {
    let t = text::trimmed(text::without_leading(text::trimmed(line), '['));
    if "app:"@.is_prefix_of(t) {
        let v = text::trimmed(t.skip("app:"@.len() as int));
        if ":"@.is_prefix_of(v) && word_length(v.skip(":"@.len() as int)) > 0 {
            let rest = v.skip(":"@.len() as int);
            Some(rest.take(word_length(rest) as int))
        } else {
            None
        }
    } else {
        None
    }
}

/// The name of the application that a `mix.exs` describes.
pub open spec fn app_of(mix: Seq<char>) -> Option<Seq<char>> {
    first_given(text::lines_of(mix), |line: Seq<char>| app_on(line))
}

struct AppLine;

impl LineReader for AppLine {
    closed spec fn gives(&self, line: Seq<char>) -> Option<Seq<char>> {
        app_on(line)
    }

    fn read(&self, line: &str) -> (r: Option<String>) {
        let t = text::trim(text::trim_start_matches(text::trim(line), '['));
        let v = match text::strip_prefix(t, "app:") {
            Some(v) => v,
            None => return None,
        };
        let rest = match text::strip_prefix(text::trim(v.as_str()), ":") {
            Some(r) => r,
            None => return None,
        };
        let name = leading_word(rest.as_str());
        if name.as_str().unicode_len() > 0 {
            Some(name)
        } else {
            None
        }
    }
}

/// The name of the application that a `mix.exs` describes.
pub fn mix_app(mix: &str) -> (r: Option<String>)
    ensures
        opt_text(r) == app_of(mix@),
{
    proof {
        assert(reader_of(AppLine) =~= (|line: Seq<char>| app_on(line)));
    }
    first_line(mix, &AppLine)
}

/// A `pom.xml` without the project that it inherits from.
pub open spec fn without_parent(pom: Seq<char>) -> Seq<char> {
    match (text::head_before(pom, "<parent>"@), text::tail_after(pom, "</parent>"@)) {
        (Some(head), Some(tail)) => head + tail,
        _ => pom,
    }
}

/// The artifact that a `pom.xml` describes: the first that it names outside the project
/// that it inherits from.
pub open spec fn artifact_of(pom: Seq<char>) -> Option<Seq<char>> {
    match text::tail_after(without_parent(pom), "<artifactId>"@) {
        Some(rest) => match text::head_before(rest, "</artifactId>"@) {
            Some(name) => Some(text::trimmed(name)),
            None => None,
        },
        None => None,
    }
}

/// The artifact that a `pom.xml` describes.
pub fn pom_artifact(pom: &str) -> (r: Option<String>)
    ensures
        opt_text(r) == artifact_of(pom@),
{
    let own = match (text::before(pom, "<parent>"), text::after(pom, "</parent>")) {
        (Some(head), Some(tail)) => {
            let mut s = head;
            s.append(tail.as_str());
            s
        },
        _ => pom.to_owned(),
    };
    match text::after(own.as_str(), "<artifactId>") {
        Some(rest) => match text::before(rest.as_str(), "</artifactId>") {
            Some(name) => Some(text::trim(name.as_str()).to_owned()),
            None => None,
        },
        None => None,
    }
}

/// The first of the names with an ending, in the order of texts.
pub open spec fn least_ending(names: Seq<Seq<char>>, ending: Seq<char>) -> Option<Seq<char>>
    decreases names.len(),
{
    if names.len() == 0 {
        None
    } else {
        let before = least_ending(names.drop_last(), ending);
        let n = names.last();
        if !ending.is_suffix_of(n) {
            before
        } else {
            match before {
                Some(b) => if text::precedes(n, b) {
                    Some(n)
                } else {
                    before
                },
                None => Some(n),
            }
        }
    }
}

fn least(names: &[String], ending: &str) -> (r: Option<String>)
    ensures
        opt_text(r) == least_ending(text::texts(names@), ending@),
{
    let ghost all = text::texts(names@);
    let mut best: Option<String> = None;
    let mut i: usize = 0;
    while i < names.len()
        invariant
            i <= names@.len(),
            all == text::texts(names@),
            opt_text(best) == least_ending(all.take(i as int), ending@),
        decreases names@.len() - i,
    {
        proof {
            assert(all.take(i + 1).drop_last() =~= all.take(i as int));
            assert(all.take(i + 1).last() == names@[i as int]@);
        }
        if text::ends_with(names[i].as_str(), ending) {
            let better = match &best {
                Some(b) => text::less(names[i].as_str(), b.as_str()),
                None => true,
            };
            if better {
                best = Some(names[i].clone());
            }
        }
        i = i + 1;
    }
    proof {
        assert(all.take(i as int) =~= all);
    }
    best
}

/// The gemspec among the files of a directory.
pub fn gemspec_among(files: &[String]) -> (r: Option<String>)
    ensures
        opt_text(r) == least_ending(text::texts(files@), ".gemspec"@),
{
    least(files, ".gemspec")
}

/// The name of the .NET project or solution among the files of a directory.
pub open spec fn solution_of(files: Seq<Seq<char>>) -> Option<Seq<char>> {
    match least_ending(files, ".csproj"@) {
        Some(n) => Some(n.take(n.len() - ".csproj"@.len())),
        None => match least_ending(files, ".sln"@) {
            Some(n) => Some(n.take(n.len() - ".sln"@.len())),
            None => None,
        },
    }
}

proof fn lemma_least_ending(names: Seq<Seq<char>>, ending: Seq<char>)
    ensures
        least_ending(names, ending) matches Some(n) ==> ending.is_suffix_of(n),
    decreases names.len(),
{
    if names.len() > 0 {
        lemma_least_ending(names.drop_last(), ending);
    }
}

/// The name of the .NET project or solution among the files of a directory: the file
/// without its ending, a project before a solution.
pub fn solution_name(files: &[String]) -> (r: Option<String>)
    ensures
        opt_text(r) == solution_of(text::texts(files@)),
{
    proof {
        lemma_least_ending(text::texts(files@), ".csproj"@);
        lemma_least_ending(text::texts(files@), ".sln"@);
    }
    match least(files, ".csproj") {
        Some(n) => text::strip_suffix(n.as_str(), ".csproj"),
        None => match least(files, ".sln") {
            Some(n) => text::strip_suffix(n.as_str(), ".sln"),
            None => None,
        },
    }
}

/// The first of two that is there.
pub open spec fn or_else(a: Option<Seq<char>>, b: Option<Seq<char>>) -> Option<Seq<char>> {
    match a {
        Some(_) => a,
        None => b,
    }
}

/// The name that the manifests give a project, in order of preference, from the name
/// found in each structured one and the text of the others.
pub open spec fn name_given(
    package: Option<Seq<char>>,
    cargo: Option<Seq<char>>,
    project: Option<Seq<char>>,
    poetry: Option<Seq<char>>,
    composer: Option<Seq<char>>,
    files: Manifests,
) -> Option<Seq<char>> {
    let behind = or_else(
        composer,
        solution_of(text::texts(files.files@)),
    );
    let plain = or_else(
        read_by(opt_text(files.go_mod), |t: Seq<char>| module_of(t)),
        or_else(
            read_by(opt_text(files.gemspec), |t: Seq<char>| gem_of(t)),
            or_else(
                read_by(opt_text(files.pom_xml), |t: Seq<char>| artifact_of(t)),
                or_else(read_by(opt_text(files.mix_exs), |t: Seq<char>| app_of(t)), behind),
            ),
        ),
    );
    or_else(package, or_else(cargo, or_else(project, or_else(poetry, plain))))
}

/// What a file gives, where it is there.
pub open spec fn read_by(
    file: Option<Seq<char>>,
    read: spec_fn(Seq<char>) -> Option<Seq<char>>,
) -> Option<Seq<char>> {
    match file {
        Some(t) => read(t),
        None => None,
    }
}

/// Choose a project's name from what its manifests say.
pub fn manifest_name(
    package: Option<String>,
    cargo: Option<String>,
    project: Option<String>,
    poetry: Option<String>,
    composer: Option<String>,
    files: &Manifests,
) -> (r: Option<String>)
    ensures
        opt_text(r) == name_given(
            opt_text(package),
            opt_text(cargo),
            opt_text(project),
            opt_text(poetry),
            opt_text(composer),
            *files,
        ),
{
    if package.is_some() {
        return package;
    }
    if cargo.is_some() {
        return cargo;
    }
    if project.is_some() {
        return project;
    }
    if poetry.is_some() {
        return poetry;
    }
    let module = match &files.go_mod {
        Some(t) => go_module(t.as_str()),
        None => None,
    };
    if module.is_some() {
        return module;
    }
    let gem = match &files.gemspec {
        Some(t) => gem_name(t.as_str()),
        None => None,
    };
    if gem.is_some() {
        return gem;
    }
    let artifact = match &files.pom_xml {
        Some(t) => pom_artifact(t.as_str()),
        None => None,
    };
    if artifact.is_some() {
        return artifact;
    }
    let app = match &files.mix_exs {
        Some(t) => mix_app(t.as_str()),
        None => None,
    };
    if app.is_some() {
        return app;
    }
    if composer.is_some() {
        return composer;
    }
    solution_name(files.files.as_slice())
}

/// The string under some keys of an optional JSON text.
pub open spec fn json_name(file: Option<Seq<char>>, path: Seq<Seq<char>>) -> Option<Seq<char>> {
    match file {
        Some(t) => documents::string_in(documents::serde_json_document(t), path),
        None => None,
    }
}

/// The string under some keys of an optional TOML text.
pub open spec fn toml_name(file: Option<Seq<char>>, path: Seq<Seq<char>>) -> Option<Seq<char>> {
    match file {
        Some(t) => documents::string_in(documents::toml_document(t), path),
        None => None,
    }
}

fn name_in_json(file: &Option<String>) -> (r: Option<String>)
    ensures
        opt_text(r) == json_name(opt_text(*file), seq!["name"@]),
{
    let text = match file {
        Some(t) => t,
        None => return None,
    };
    let doc = match documents::parse_serde_json(text.as_str()) {
        Some(d) => d,
        None => return None,
    };
    let ghost m = documents::serde_json_strings(doc);
    let ghost none = Seq::<Seq<char>>::empty();
    proof {
        assert(seq!["name"@] + none =~= seq!["name"@]);
    }
    match documents::serde_json_get(&doc, "name") {
        Some(v) => match documents::serde_json_str(v) {
            Some(s) => Some(s.to_owned()),
            None => None,
        },
        None => {
            proof {
                let gone = documents::under(m, "name"@);
                assert(!gone.contains_key(none));
            }
            None
        },
    }
}

fn text_below(v: &toml::Value, a: &str, b: &str) -> (r: Option<String>)
    ensures
        opt_text(r) == documents::string_at(documents::toml_strings(*v), seq![a@, b@]),
{
    let ghost m = documents::toml_strings(*v);
    let ghost none = Seq::<Seq<char>>::empty();
    proof {
        assert(seq![b@] + none =~= seq![b@]);
        assert(seq![a@] + seq![b@] =~= seq![a@, b@]);
    }
    match documents::toml_get(v, a) {
        Some(t) => match documents::toml_get(t, b) {
            Some(w) => match documents::toml_str(w) {
                Some(s) => Some(s.to_owned()),
                None => None,
            },
            None => {
                proof {
                    assert(!documents::under(documents::under(m, a@), b@).contains_key(none));
                }
                None
            },
        },
        None => {
            proof {
                assert(!documents::under(m, a@).contains_key(seq![b@]));
            }
            None
        },
    }
}

fn name_in_toml(file: &Option<String>, section: &str) -> (r: Option<String>)
    ensures
        opt_text(r) == toml_name(opt_text(*file), seq![section@, "name"@]),
{
    let text = match file {
        Some(t) => t,
        None => return None,
    };
    match documents::parse_toml(text.as_str()) {
        Some(doc) => text_below(&doc, section, "name"),
        None => None,
    }
}

fn name_in_poetry(file: &Option<String>) -> (r: Option<String>)
    ensures
        opt_text(r) == toml_name(opt_text(*file), seq!["tool"@, "poetry"@, "name"@]),
{
    let text = match file {
        Some(t) => t,
        None => return None,
    };
    let doc = match documents::parse_toml(text.as_str()) {
        Some(d) => d,
        None => return None,
    };
    let ghost m = documents::toml_strings(doc);
    proof {
        assert(seq!["tool"@] + seq!["poetry"@, "name"@] =~= seq!["tool"@, "poetry"@, "name"@]);
    }
    match documents::toml_get(&doc, "tool") {
        Some(t) => text_below(t, "poetry", "name"),
        None => {
            proof {
                assert(!documents::under(m, "tool"@).contains_key(seq!["poetry"@, "name"@]));
            }
            None
        },
    }
}

/// The name that a project's manifests declare.
pub open spec fn declared_name(files: Manifests) -> Option<Seq<char>> {
    name_given(
        json_name(opt_text(files.package_json), seq!["name"@]),
        toml_name(opt_text(files.cargo_toml), seq!["package"@, "name"@]),
        toml_name(opt_text(files.pyproject_toml), seq!["project"@, "name"@]),
        toml_name(opt_text(files.pyproject_toml), seq!["tool"@, "poetry"@, "name"@]),
        json_name(opt_text(files.composer_json), seq!["name"@]),
        files,
    )
}

/// The name in the first manifest that declares one.
pub fn name_from_manifest(files: &Manifests) -> (r: Option<String>)
    ensures
        opt_text(r) == declared_name(*files),
{
    let package = name_in_json(&files.package_json);
    let cargo = name_in_toml(&files.cargo_toml, "package");
    let project = name_in_toml(&files.pyproject_toml, "project");
    let poetry = name_in_poetry(&files.pyproject_toml);
    let composer = name_in_json(&files.composer_json);
    manifest_name(package, cargo, project, poetry, composer, files)
}

/// The name of a project root: what was declared, otherwise the directory's name.
pub open spec fn name_or_dir(declared: Option<Seq<char>>, root: Seq<char>) -> Seq<char> {
    match declared {
        Some(n) => n,
        None => dir_name(root),
    }
}

/// The name of a directory, or a question mark where it has none.
pub open spec fn dir_name(dir: Seq<char>) -> Seq<char> {
    match paths::file_name(dir) {
        Some(n) => n,
        None => "?"@,
    }
}

/// The name of a directory.
pub fn name_of_dir(dir: &str) -> (r: String)
    ensures
        r@ == dir_name(dir@),
{
    match paths::file_name_of(dir) {
        Some(n) => n,
        None => "?".to_owned(),
    }
}

/// The declared name of a project root, or the name of its directory.
pub fn choose_name(declared: Option<String>, root: &str) -> (r: String)
    ensures
        r@ == name_or_dir(opt_text(declared), root@),
{
    match declared {
        Some(n) => n,
        None => name_of_dir(root),
    }
}

/// Manifest name, otherwise the directory's name.
pub fn project_name(root: &str, files: &Manifests) -> (r: String)
    ensures
        r@ == name_or_dir(declared_name(*files), root@),
{
    let declared = name_from_manifest(files);
    choose_name(declared, root)
}

// --------------------------------------------------------------------- branch

/// Where `HEAD` lies for a project root: in the repository, or, where `.git` is a
/// file that names another directory, in that one.
pub open spec fn head_file(root: Seq<char>, dot_git: Option<Seq<char>>) -> Option<Seq<char>> {
    match dot_git {
        None => Some(paths::below(paths::below(root, ".git"@), "HEAD"@)),
        Some(t) => {
            let line = text::trimmed(t);
            if "gitdir:"@.is_prefix_of(line) {
                let dir = text::trimmed(line.skip("gitdir:"@.len() as int));
                Some(paths::below(paths::below(root, dir), "HEAD"@))
            } else {
                None
            }
        },
    }
}

/// The path of the `HEAD` file of a project root. `dot_git` is the text of `.git`
/// where that is a file, as it is in a linked worktree.
pub fn head_path(root: &str, dot_git: Option<&str>) -> (r: Option<String>)
    ensures
        opt_text(r) == head_file(root@, paths::opt_str(dot_git)),
{
    match dot_git {
        None => {
            let dir = paths::join(root, ".git");
            Some(paths::join(dir.as_str(), "HEAD"))
        },
        Some(t) => match text::strip_prefix(text::trim(t), "gitdir:") {
            Some(rest) => {
                let dir = paths::join(root, text::trim(rest.as_str()));
                Some(paths::join(dir.as_str(), "HEAD"))
            },
            None => None,
        },
    }
}

/// A hexadecimal digit.
pub open spec fn is_hex(c: char) -> bool {
    '0' <= c <= '9' || 'a' <= c <= 'f' || 'A' <= c <= 'F'
}

/// A commit hash: at least seven hexadecimal digits and nothing else.
pub open spec fn is_hash(s: Seq<char>) -> bool {
    s.len() >= 7 && forall|i: int| 0 <= i < s.len() ==> is_hex(#[trigger] s[i])
}

/// What `HEAD` points at: a branch, or the short hash of a detached commit.
pub open spec fn branch_of(head: Seq<char>) -> Option<Seq<char>> {
    let h = text::trimmed(head);
    if "ref: refs/heads/"@.is_prefix_of(h) {
        Some(h.skip("ref: refs/heads/"@.len() as int))
    } else if is_hash(h) {
        Some(h.take(7))
    } else {
        None
    }
}

fn commit_hash(s: &str) -> (r: bool)
    ensures
        r == is_hash(s@),
{
    let x = text::chars_of(s);
    if x.len() < 7 {
        return false;
    }
    let mut i: usize = 0;
    while i < x.len()
        invariant
            i <= x@.len(),
            x@ == s@,
            x@.len() >= 7,
            forall|j: int| 0 <= j < i ==> is_hex(#[trigger] s@[j]),
        decreases x@.len() - i,
    {
        let c = x[i];
        if !((c >= '0' && c <= '9') || (c >= 'a' && c <= 'f') || (c >= 'A' && c <= 'F')) {
            assert(!is_hex(s@[i as int]));
            return false;
        }
        i = i + 1;
    }
    true
}

/// The current branch, from the text of `HEAD`.
pub fn git_branch(head: &str) -> (r: Option<String>)
    ensures
        opt_text(r) == branch_of(head@),
{
    let h = text::trim(head);
    match text::strip_prefix(h, "ref: refs/heads/") {
        Some(b) => Some(b),
        None => if commit_hash(h) {
            proof {
                assert(h@.subrange(0, 7) =~= h@.take(7));
            }
            Some(h.substring_char(0, 7).to_owned())
        } else {
            None
        },
    }
}

} // verus!
