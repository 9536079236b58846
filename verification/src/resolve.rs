//! From raw processes to names a developer recognizes: the command label and the
//! typed URL, from built-in knowledge of tools and launchers and from the user's
//! rules, which come first.
use vstd::prelude::*;

use regex::Regex;

use crate::config::{ConfigFile, GroupCfg, IgnoreCfg, Member, OverrideCfg, RuleCfg, WatchCfg};
use crate::model::{opt_text, opt_url, Url, UrlScheme, UrlView};
use crate::patterns;
use crate::ports::has_port;
use crate::proctree;
use crate::text;

verus! {

// ------------------------------------------------------------ names of programs

/// The part of a path behind the last slash or backslash.
pub open spec fn base(s: Seq<char>) -> Seq<char> {
    text::pieces(text::pieces(s, '/').last(), '\\').last()
}

pub(crate) fn last_piece(s: &str, c: char) -> (r: String)
    ensures
        r@ == text::pieces(s@, c).last(),
{
    let mut parts = text::split(s, c);
    let ghost all = text::texts(parts@);
    let last = parts.pop().unwrap();
    proof {
        assert(all[all.len() - 1] == last@);
    }
    last
}

fn basename(s: &str) -> (r: String)
    ensures
        r@ == base(s@),
{
    let behind = last_piece(s, '/');
    last_piece(behind.as_str(), '\\')
}

/// A program name without the ending of a JavaScript file.
pub open spec fn stem(b: Seq<char>) -> Seq<char> {
    if ".js"@.is_suffix_of(b) {
        b.take(b.len() - ".js"@.len())
    } else if ".cjs"@.is_suffix_of(b) {
        b.take(b.len() - ".cjs"@.len())
    } else if ".mjs"@.is_suffix_of(b) {
        b.take(b.len() - ".mjs"@.len())
    } else {
        b
    }
}

fn strip_js(b: &str) -> (r: String)
    ensures
        r@ == stem(b@),
{
    match text::strip_suffix(b, ".js") {
        Some(s) => return s,
        None => {},
    }
    match text::strip_suffix(b, ".cjs") {
        Some(s) => return s,
        None => {},
    }
    match text::strip_suffix(b, ".mjs") {
        Some(s) => return s,
        None => {},
    }
    b.to_owned()
}

/// Launchers that are not themselves the interesting command.
pub open spec fn launches(name: Seq<char>) -> bool {
    ||| name == "pnpm"@
    ||| name == "npm"@
    ||| name == "npx"@
    ||| name == "yarn"@
    ||| name == "bun"@
    ||| name == "node"@
    ||| name == "deno"@
    ||| name == "ts-node"@
    ||| name == "tsx"@
    ||| name == "dotenv"@
    ||| name == "dotenvx"@
    ||| name == "cross-env"@
    ||| name == "concurrently"@
    ||| name == "turbo"@
    ||| name == "nx"@
    ||| name == "make"@
    ||| name == "env"@
}

fn is_launch_name(name: &str) -> (r: bool)
    ensures
        r == launches(name@),
{
    text::same(name, "pnpm")
        || text::same(name, "npm")
        || text::same(name, "npx")
        || text::same(name, "yarn")
        || text::same(name, "bun")
        || text::same(name, "node")
        || text::same(name, "deno")
        || text::same(name, "ts-node")
        || text::same(name, "tsx")
        || text::same(name, "dotenv")
        || text::same(name, "dotenvx")
        || text::same(name, "cross-env")
        || text::same(name, "concurrently")
        || text::same(name, "turbo")
        || text::same(name, "nx")
        || text::same(name, "make")
        || text::same(name, "env")
}

/// The name of a launcher, perhaps spelled as a JavaScript file.
pub open spec fn wraps(name: Seq<char>) -> bool {
    launches(stem(name))
}

fn is_wrapper(name: &str) -> (r: bool)
    ensures
        r == wraps(name@),
{
    let s = strip_js(name);
    is_launch_name(s.as_str())
}

/// A shell, with or without the dashes that mark a login shell.
pub open spec fn names_shell(name: Seq<char>) -> bool {
    let n = text::without_leading(name, '-');
    ||| n == "zsh"@
    ||| n == "bash"@
    ||| n == "sh"@
    ||| n == "fish"@
    ||| n == "dash"@
    ||| n == "ksh"@
    ||| n == "tcsh"@
}

/// Common interactive shells: never a watcher or a meaningful command.
pub fn is_shell(name: &str) -> (r: bool)
    ensures
        r == names_shell(name@),
{
    let n = text::trim_start_matches(name, '-');
    text::same(n, "zsh")
        || text::same(n, "bash")
        || text::same(n, "sh")
        || text::same(n, "fish")
        || text::same(n, "dash")
        || text::same(n, "ksh")
        || text::same(n, "tcsh")
}

// ---------------------------------------------------------------- known tools

/// The label of a command that several words together identify.
pub open spec fn multiword_label(line: Seq<char>) -> Option<Seq<char>> {
    if text::occurs("next dev"@, line) {
        Some("next dev"@)
    } else if text::occurs("manage.py runserver"@, line) {
        Some("django runserver"@)
    } else if text::occurs("mix phx.server"@, line) {
        Some("phoenix"@)
    } else if text::occurs("artisan serve"@, line) {
        Some("php artisan serve"@)
    } else if text::occurs("dotnet watch"@, line) {
        Some("dotnet watch"@)
    } else if text::occurs("dotnet run"@, line) {
        Some("dotnet run"@)
    } else if text::occurs("cargo run"@, line) {
        Some("cargo run"@)
    } else if text::occurs("rails server"@, line) {
        Some("rails s"@)
    } else if text::occurs("rails s"@, line) {
        Some("rails s"@)
    } else {
        None
    }
}

fn multiword(line: &str) -> (r: Option<&'static str>)
    ensures
        match r {
            Some(l) => multiword_label(line@) == Some(l@),
            None => multiword_label(line@) is None,
        },
{
    if text::contains(line, "next dev") {
        Some("next dev")
    } else if text::contains(line, "manage.py runserver") {
        Some("django runserver")
    } else if text::contains(line, "mix phx.server") {
        Some("phoenix")
    } else if text::contains(line, "artisan serve") {
        Some("php artisan serve")
    } else if text::contains(line, "dotnet watch") {
        Some("dotnet watch")
    } else if text::contains(line, "dotnet run") {
        Some("dotnet run")
    } else if text::contains(line, "cargo run") {
        Some("cargo run")
    } else if text::contains(line, "rails server") {
        Some("rails s")
    } else if text::contains(line, "rails s") {
        Some("rails s")
    } else {
        None
    }
}

/// The label of a tool by the name of its program.
pub open spec fn tool_label(name: Seq<char>) -> Option<Seq<char>> {
    if name == "vite"@ {
        Some("vite"@)
    } else if name == "next"@ {
        Some("next dev"@)
    } else if name == "nuxt"@ {
        Some("nuxt"@)
    } else if name == "astro"@ {
        Some("astro"@)
    } else if name == "remix"@ {
        Some("remix"@)
    } else if name == "webpack"@ {
        Some("webpack"@)
    } else if name == "esbuild"@ {
        Some("esbuild"@)
    } else if name == "parcel"@ {
        Some("parcel"@)
    } else if name == "storybook"@ {
        Some("storybook"@)
    } else if name == "uvicorn"@ {
        Some("uvicorn"@)
    } else if name == "gunicorn"@ {
        Some("gunicorn"@)
    } else if name == "hypercorn"@ {
        Some("hypercorn"@)
    } else if name == "flask"@ {
        Some("flask"@)
    } else if name == "celery"@ {
        Some("celery"@)
    } else if name == "streamlit"@ {
        Some("streamlit"@)
    } else if name == "puma"@ {
        Some("puma"@)
    } else if name == "unicorn"@ {
        Some("unicorn"@)
    } else if name == "sidekiq"@ {
        Some("sidekiq"@)
    } else if name == "postgres"@ {
        Some("postgres"@)
    } else if name == "postmaster"@ {
        Some("postgres"@)
    } else if name == "redis-server"@ {
        Some("redis"@)
    } else if name == "mysqld"@ {
        Some("mysql"@)
    } else if name == "mongod"@ {
        Some("mongodb"@)
    } else if name == "memcached"@ {
        Some("memcached"@)
    } else if name == "nodemon"@ {
        Some("nodemon"@)
    } else if name == "air"@ {
        Some("air"@)
    } else {
        None
    }
}

fn tool(name: &str) -> (r: Option<&'static str>)
    ensures
        match r {
            Some(l) => tool_label(name@) == Some(l@),
            None => tool_label(name@) is None,
        },
{
    if text::same(name, "vite") {
        Some("vite")
    } else if text::same(name, "next") {
        Some("next dev")
    } else if text::same(name, "nuxt") {
        Some("nuxt")
    } else if text::same(name, "astro") {
        Some("astro")
    } else if text::same(name, "remix") {
        Some("remix")
    } else if text::same(name, "webpack") {
        Some("webpack")
    } else if text::same(name, "esbuild") {
        Some("esbuild")
    } else if text::same(name, "parcel") {
        Some("parcel")
    } else if text::same(name, "storybook") {
        Some("storybook")
    } else if text::same(name, "uvicorn") {
        Some("uvicorn")
    } else if text::same(name, "gunicorn") {
        Some("gunicorn")
    } else if text::same(name, "hypercorn") {
        Some("hypercorn")
    } else if text::same(name, "flask") {
        Some("flask")
    } else if text::same(name, "celery") {
        Some("celery")
    } else if text::same(name, "streamlit") {
        Some("streamlit")
    } else if text::same(name, "puma") {
        Some("puma")
    } else if text::same(name, "unicorn") {
        Some("unicorn")
    } else if text::same(name, "sidekiq") {
        Some("sidekiq")
    } else if text::same(name, "postgres") {
        Some("postgres")
    } else if text::same(name, "postmaster") {
        Some("postgres")
    } else if text::same(name, "redis-server") {
        Some("redis")
    } else if text::same(name, "mysqld") {
        Some("mysql")
    } else if text::same(name, "mongod") {
        Some("mongodb")
    } else if text::same(name, "memcached") {
        Some("memcached")
    } else if text::same(name, "nodemon") {
        Some("nodemon")
    } else if text::same(name, "air") {
        Some("air")
    } else {
        None
    }
}

/// The first element of a command line that names a tool.
pub open spec fn first_tool(argv: Seq<Seq<char>>) -> Option<Seq<char>>
    decreases argv.len(),
{
    if argv.len() == 0 {
        None
    } else {
        match first_tool(argv.drop_last()) {
            Some(l) => Some(l),
            None => tool_label(stem(base(argv.last()))),
        }
    }
}

/// The words stand in a line as whole words; the first may be the end of a path.
pub open spec fn says(line: Seq<char>, words: Seq<char>) -> bool {
    ||| text::occurs(" "@ + words + " "@, " "@ + line + " "@)
    ||| text::occurs("/"@ + words + " "@, " "@ + line + " "@)
}

fn line_says(line: &str, words: &str) -> (r: bool)
    ensures
        r == says(line@, words@),
{
    let mut padded = " ".to_owned();
    padded.append(line);
    padded.append(" ");
    let mut plain = " ".to_owned();
    plain.append(words);
    plain.append(" ");
    let mut in_path = "/".to_owned();
    in_path.append(words);
    in_path.append(" ");
    text::contains(padded.as_str(), plain.as_str()) || text::contains(
        padded.as_str(),
        in_path.as_str(),
    )
}

/// The label of a command that a program and its first argument identify together.
pub open spec fn command_label(line: Seq<char>) -> Option<Seq<char>> {
    if says(line, "go run"@) {
        Some("go run"@)
    } else if says(line, "gradle bootRun"@) || says(line, "gradlew bootRun"@) {
        Some("gradle bootRun"@)
    } else if text::occurs("spring-boot:run"@, line) {
        Some("spring-boot:run"@)
    } else if says(line, "java -jar"@) {
        Some("java -jar"@)
    } else if says(line, "php -S"@) {
        Some("php -S"@)
    } else {
        None
    }
}

fn command(line: &str) -> (r: Option<&'static str>)
    ensures
        match r {
            Some(l) => command_label(line@) == Some(l@),
            None => command_label(line@) is None,
        },
{
    if line_says(line, "go run") {
        Some("go run")
    } else if line_says(line, "gradle bootRun") || line_says(line, "gradlew bootRun") {
        Some("gradle bootRun")
    } else if text::contains(line, "spring-boot:run") {
        Some("spring-boot:run")
    } else if line_says(line, "java -jar") {
        Some("java -jar")
    } else if line_says(line, "php -S") {
        Some("php -S")
    } else {
        None
    }
}

/// The tool that a command line runs, if it is a known one: by several words of the
/// whole line, otherwise by the first element that names a tool, otherwise by a program
/// with its first argument.
pub open spec fn tool_of(argv: Seq<Seq<char>>) -> Option<Seq<char>> {
    let line = text::joined(argv, " "@);
    match multiword_label(line) {
        Some(l) => Some(l),
        None => match first_tool(argv) {
            Some(l) => Some(l),
            None => command_label(line),
        },
    }
}

/// A recognized dev tool from one process's argv, if any.
pub fn known_tool(argv: &[String]) -> (r: Option<String>)
    ensures
        match r {
            Some(l) => tool_of(text::texts(argv@)) == Some(l@),
            None => tool_of(text::texts(argv@)) is None,
        },
{
    let line = text::join(argv, " ");
    match multiword(line.as_str()) {
        Some(l) => return Some(l.to_owned()),
        None => {},
    }
    let ghost all = text::texts(argv@);
    let mut i: usize = 0;
    while i < argv.len()
        invariant
            i <= argv@.len(),
            all == text::texts(argv@),
            multiword_label(text::joined(all, " "@)) is None,
            first_tool(all.take(i as int)) is None,
        decreases argv@.len() - i,
    {
        let b = basename(argv[i].as_str());
        let s = strip_js(b.as_str());
        proof {
            assert(all.take(i + 1).drop_last() =~= all.take(i as int));
            assert(all.take(i + 1).last() == argv@[i as int]@);
        }
        match tool(s.as_str()) {
            Some(l) => {
                proof {
                    lemma_first_tool_stays(all, i + 1);
                }
                return Some(l.to_owned());
            },
            None => {},
        }
        i = i + 1;
    }
    proof {
        assert(all.take(i as int) =~= all);
    }
    match command(line.as_str()) {
        Some(l) => Some(l.to_owned()),
        None => None,
    }
}

proof fn lemma_first_tool_stays(argv: Seq<Seq<char>>, k: int)
    requires
        0 <= k <= argv.len(),
        first_tool(argv.take(k)) is Some,
    ensures
        first_tool(argv) == first_tool(argv.take(k)),
    decreases argv.len(),
{
    if k == argv.len() {
        assert(argv.take(k) =~= argv);
    } else {
        assert(argv.drop_last().take(k) =~= argv.take(k));
        lemma_first_tool_stays(argv.drop_last(), k);
    }
}

// --------------------------------------------------------------------- labels

/// The first known tool among some command lines.
pub open spec fn first_known(argvs: Seq<Seq<Seq<char>>>) -> Option<Seq<char>>
    decreases argvs.len(),
{
    if argvs.len() == 0 {
        None
    } else {
        match first_known(argvs.drop_last()) {
            Some(l) => Some(l),
            None => tool_of(argvs.last()),
        }
    }
}

/// A command line whose program is neither a launcher nor a shell.
pub open spec fn runs_program(argv: Seq<Seq<char>>) -> bool {
    argv.len() > 0 && !wraps(base(argv[0])) && !names_shell(base(argv[0]))
}

/// The label of the first command line that runs a program of its own.
pub open spec fn first_program(argvs: Seq<Seq<Seq<char>>>) -> Option<Seq<char>>
    decreases argvs.len(),
{
    if argvs.len() == 0 {
        None
    } else {
        match first_program(argvs.drop_last()) {
            Some(l) => Some(l),
            None => if runs_program(argvs.last()) {
                Some(plain_label(argvs.last()))
            } else {
                None
            },
        }
    }
}

/// The label of a command line when nothing better is recognized: a launcher with
/// its script, otherwise the name of the program.
pub open spec fn plain_label(argv: Seq<Seq<char>>) -> Seq<char> {
    if argv.len() == 0 {
        "?"@
    } else if argv.len() > 1 && (base(argv[0]) == "node"@ || wraps(base(argv[0])))
        && !"-"@.is_prefix_of(argv[1]) {
        base(argv[0]) + " "@ + base(argv[1])
    } else {
        base(argv[0])
    }
}

fn single_label(argv: &[String]) -> (r: String)
    ensures
        r@ == plain_label(text::texts(argv@)),
{
    let ghost all = text::texts(argv@);
    if argv.len() == 0 {
        return "?".to_owned();
    }
    let first = basename(argv[0].as_str());
    assert(all[0] == argv@[0]@);
    if argv.len() > 1 {
        assert(all[1] == argv@[1]@);
        if (text::same(first.as_str(), "node") || is_wrapper(first.as_str()))
            && !text::starts_with(argv[1].as_str(), "-") {
            let script = basename(argv[1].as_str());
            let mut out = first;
            out.append(" ");
            out.append(script.as_str());
            return out;
        }
    }
    first
}

/// The label of a whole subtree: a known tool anywhere in it, otherwise its first
/// program, otherwise its first command line.
pub open spec fn subtree_label(argvs: Seq<Seq<Seq<char>>>) -> Seq<char> {
    match first_known(argvs) {
        Some(l) => l,
        None => match first_program(argvs) {
            Some(l) => l,
            None => if argvs.len() > 0 {
                plain_label(argvs[0])
            } else {
                "?"@
            },
        },
    }
}

proof fn lemma_first_known_stays(argvs: Seq<Seq<Seq<char>>>, k: int)
    requires
        0 <= k <= argvs.len(),
        first_known(argvs.take(k)) is Some,
    ensures
        first_known(argvs) == first_known(argvs.take(k)),
    decreases argvs.len(),
{
    if k == argvs.len() {
        assert(argvs.take(k) =~= argvs);
    } else {
        assert(argvs.drop_last().take(k) =~= argvs.take(k));
        lemma_first_known_stays(argvs.drop_last(), k);
    }
}

proof fn lemma_first_program_stays(argvs: Seq<Seq<Seq<char>>>, k: int)
    requires
        0 <= k <= argvs.len(),
        first_program(argvs.take(k)) is Some,
    ensures
        first_program(argvs) == first_program(argvs.take(k)),
    decreases argvs.len(),
{
    if k == argvs.len() {
        assert(argvs.take(k) =~= argvs);
    } else {
        assert(argvs.drop_last().take(k) =~= argvs.take(k));
        lemma_first_program_stays(argvs.drop_last(), k);
    }
}

/// Friendly label for a target, from its whole subtree, so that launchers resolve to
/// the tool running underneath.
pub fn label_from_subtree(argvs: &[Vec<String>]) -> (r: String)
    ensures
        r@ == subtree_label(proctree::argv_views(argvs@)),
{
    let ghost all = proctree::argv_views(argvs@);
    let mut i: usize = 0;
    while i < argvs.len()
        invariant
            i <= argvs@.len(),
            all == proctree::argv_views(argvs@),
            first_known(all.take(i as int)) is None,
        decreases argvs@.len() - i,
    {
        proof {
            assert(all.take(i + 1).drop_last() =~= all.take(i as int));
            assert(all.take(i + 1).last() == text::texts(argvs@[i as int]@));
        }
        match known_tool(argvs[i].as_slice()) {
            Some(l) => {
                proof {
                    lemma_first_known_stays(all, i + 1);
                }
                return l;
            },
            None => {},
        }
        i = i + 1;
    }
    proof {
        assert(all.take(i as int) =~= all);
    }
    let mut k: usize = 0;
    while k < argvs.len()
        invariant
            k <= argvs@.len(),
            all == proctree::argv_views(argvs@),
            first_known(all) is None,
            first_program(all.take(k as int)) is None,
        decreases argvs@.len() - k,
    {
        let argv = &argvs[k];
        proof {
            assert(all.take(k + 1).drop_last() =~= all.take(k as int));
            assert(all.take(k + 1).last() == text::texts(argv@));
        }
        if argv.len() > 0 {
            assert(text::texts(argv@)[0] == argv@[0]@);
            let b = basename(argv[0].as_str());
            if !is_wrapper(b.as_str()) && !is_shell(b.as_str()) {
                proof {
                    lemma_first_program_stays(all, k + 1);
                }
                return single_label(argv.as_slice());
            }
        }
        k = k + 1;
    }
    proof {
        assert(all.take(k as int) =~= all);
    }
    if argvs.len() > 0 {
        assert(all[0] == text::texts(argvs@[0]@));
        single_label(argvs[0].as_slice())
    } else {
        "?".to_owned()
    }
}

// ------------------------------------------------------------------- watchers

/// Some element of the command line is a program of this name.
pub open spec fn has_program(argv: Seq<Seq<char>>, name: Seq<char>) -> bool {
    exists|i: int| 0 <= i < argv.len() && base(#[trigger] argv[i]) == name
}

/// Some element of the command line is this word.
pub open spec fn has_word(argv: Seq<Seq<char>>, word: Seq<char>) -> bool {
    exists|i: int| 0 <= i < argv.len() && #[trigger] argv[i] == word
}

fn any_program(argv: &[String], name: &str) -> (r: bool)
    ensures
        r == has_program(text::texts(argv@), name@),
{
    let ghost all = text::texts(argv@);
    let mut i: usize = 0;
    while i < argv.len()
        invariant
            i <= argv@.len(),
            all == text::texts(argv@),
            forall|j: int| 0 <= j < i ==> base(#[trigger] all[j]) != name@,
        decreases argv@.len() - i,
    {
        let b = basename(argv[i].as_str());
        assert(all[i as int] == argv@[i as int]@);
        if text::same(b.as_str(), name) {
            return true;
        }
        i = i + 1;
    }
    false
}

fn any_word(argv: &[String], word: &str) -> (r: bool)
    ensures
        r == has_word(text::texts(argv@), word@),
{
    let ghost all = text::texts(argv@);
    let mut i: usize = 0;
    while i < argv.len()
        invariant
            i <= argv@.len(),
            all == text::texts(argv@),
            forall|j: int| 0 <= j < i ==> #[trigger] all[j] != word@,
        decreases argv@.len() - i,
    {
        assert(all[i as int] == argv@[i as int]@);
        if text::same(argv[i].as_str(), word) {
            return true;
        }
        i = i + 1;
    }
    false
}

/// The command line carries a watch flag as a word of its own.
pub open spec fn asks_to_watch(argv: Seq<Seq<char>>) -> bool {
    has_word(argv, "--watch"@) || has_word(argv, "-w"@)
}

/// The label of a command line that watches, by its programs and separate words.
pub open spec fn watch_label(argv: Seq<Seq<char>>) -> Option<Seq<char>> {
    if has_program(argv, "tsc"@) && asks_to_watch(argv) {
        Some("tsc --watch"@)
    } else if has_program(argv, "vitest"@) {
        Some("vitest"@)
    } else if has_program(argv, "jest"@) {
        Some("jest"@)
    } else if has_program(argv, "cargo-watch"@) || has_program(argv, "cargo"@) && has_word(
        argv,
        "watch"@,
    ) {
        Some("cargo watch"@)
    } else if has_program(argv, "tailwindcss"@) && asks_to_watch(argv) {
        Some("tailwind --watch"@)
    } else if has_program(argv, "nodemon"@) {
        Some("nodemon"@)
    } else if asks_to_watch(argv) {
        Some("watch"@)
    } else {
        None
    }
}

/// Port-less watcher detection: a label when argv looks like a watcher. Separate
/// words and program names count, not parts of a longer word: a shell that runs a
/// script mentioning `--watch` keeps the script in one element.
pub fn watcher_label(argv: &[String]) -> (r: Option<String>)
    ensures
        match r {
            Some(l) => watch_label(text::texts(argv@)) == Some(l@),
            None => watch_label(text::texts(argv@)) is None,
        },
{
    let watch = any_word(argv, "--watch") || any_word(argv, "-w");
    if watch && any_program(argv, "tsc") {
        return Some("tsc --watch".to_owned());
    }
    if any_program(argv, "vitest") {
        return Some("vitest".to_owned());
    }
    if any_program(argv, "jest") {
        return Some("jest".to_owned());
    }
    if any_program(argv, "cargo-watch") || (any_program(argv, "cargo") && any_word(argv, "watch")) {
        return Some("cargo watch".to_owned());
    }
    if watch && any_program(argv, "tailwindcss") {
        return Some("tailwind --watch".to_owned());
    }
    if any_program(argv, "nodemon") {
        return Some("nodemon".to_owned());
    }
    if watch {
        return Some("watch".to_owned());
    }
    None
}

// ----------------------------------------------------------------------- URLs

/// The scheme and the text before the port of a label's default URL.
pub open spec fn url_head(label: Seq<char>) -> (UrlScheme, Seq<char>) {
    if label == "postgres"@ {
        (UrlScheme::Postgres, "postgres://localhost:"@)
    } else if label == "redis"@ {
        (UrlScheme::Redis, "redis://localhost:"@)
    } else if label == "mysql"@ {
        (UrlScheme::Mysql, "mysql://localhost:"@)
    } else if label == "mongodb"@ {
        (UrlScheme::Other, "mongodb://localhost:"@)
    } else {
        (UrlScheme::Http, "http://localhost:"@)
    }
}

/// The URL that a label has by default on a port.
pub open spec fn standard_url(label: Seq<char>, port: u16) -> UrlView {
    UrlView {
        scheme: url_head(label).0,
        value: url_head(label).1 + text::decimal(port as nat),
    }
}

/// Typed default URL for a listener target.
pub fn default_url(label: &str, port: u16) -> (r: Option<Url>)
    ensures
        r is Some,
        r->0@ == standard_url(label@, port),
{
    let (scheme, head) = if text::same(label, "postgres") {
        (UrlScheme::Postgres, "postgres://localhost:")
    } else if text::same(label, "redis") {
        (UrlScheme::Redis, "redis://localhost:")
    } else if text::same(label, "mysql") {
        (UrlScheme::Mysql, "mysql://localhost:")
    } else if text::same(label, "mongodb") {
        (UrlScheme::Other, "mongodb://localhost:")
    } else {
        (UrlScheme::Http, "http://localhost:")
    };
    let mut value = head.to_owned();
    let digits = text::to_decimal(port as u64);
    value.append(digits.as_str());
    Some(Url { scheme, value })
}

/// The scheme that a URL's text shows.
pub open spec fn shown_scheme(v: Seq<char>) -> UrlScheme {
    if "https://"@.is_prefix_of(v) {
        UrlScheme::Https
    } else if "http://"@.is_prefix_of(v) {
        UrlScheme::Http
    } else if "postgres"@.is_prefix_of(v) {
        UrlScheme::Postgres
    } else if "redis"@.is_prefix_of(v) {
        UrlScheme::Redis
    } else if "mysql"@.is_prefix_of(v) {
        UrlScheme::Mysql
    } else {
        UrlScheme::Other
    }
}

/// The scheme of a URL.
pub fn scheme_from_url(v: &str) -> (r: UrlScheme)
    ensures
        r == shown_scheme(v@),
{
    if text::starts_with(v, "https://") {
        UrlScheme::Https
    } else if text::starts_with(v, "http://") {
        UrlScheme::Http
    } else if text::starts_with(v, "postgres") {
        UrlScheme::Postgres
    } else if text::starts_with(v, "redis") {
        UrlScheme::Redis
    } else if text::starts_with(v, "mysql") {
        UrlScheme::Mysql
    } else {
        UrlScheme::Other
    }
}

// --------------------------------------------------------------- user's rules

/// A rule that gives a command its label, and perhaps its URL.
pub struct CmdRule {
    pub re: Regex,
    pub label: String,
    pub url: Option<String>,
}

/// A rule that surfaces a port-less command as a watcher.
pub struct WatchRule {
    pub re: Regex,
    pub label: String,
}

/// A rule that pins a target's project or label.
pub struct OverrideRule {
    pub port: Option<u16>,
    pub cmd: Option<Regex>,
    pub project: Option<String>,
    pub label: Option<String>,
}

/// A declared group and what belongs to it.
pub struct GroupRule {
    pub name: String,
    pub selectors: Vec<GroupSelector>,
}

pub enum GroupSelector {
    Port(u16),
    /// Lowercased; sought in the project and in the command label.
    Text(String),
}

/// A rule that hides targets.
pub struct IgnoreRule {
    pub port: Option<u16>,
    pub cmd: Option<Regex>,
}

/// Compiled configuration rules over the built-in defaults: the rules win, the
/// built-ins are the fallback.
pub struct Resolver {
    pub cmd_rules: Vec<CmdRule>,
    pub watch_rules: Vec<WatchRule>,
    pub overrides: Vec<OverrideRule>,
    pub groups: Vec<GroupRule>,
    pub ignores: Vec<IgnoreRule>,
}

/// The place of the first `true`.
pub open spec fn first_hit(hits: Seq<bool>) -> Option<int>
    decreases hits.len(),
{
    if hits.len() == 0 {
        None
    } else {
        match first_hit(hits.drop_last()) {
            Some(i) => Some(i),
            None => if hits.last() {
                Some(hits.len() - 1)
            } else {
                None
            },
        }
    }
}

pub proof fn lemma_first_hit(hits: Seq<bool>)
    ensures
        match first_hit(hits) {
            Some(i) => 0 <= i < hits.len() && hits[i] && forall|j: int|
                0 <= j < i ==> !#[trigger] hits[j],
            None => forall|j: int| 0 <= j < hits.len() ==> !#[trigger] hits[j],
        },
    decreases hits.len(),
{
    if hits.len() > 0 {
        lemma_first_hit(hits.drop_last());
        assert forall|j: int| 0 <= j < hits.len() - 1 implies hits.drop_last()[j] == hits[j] by {}
        match first_hit(hits.drop_last()) {
            Some(i) => {
                assert(hits.drop_last()[i] == hits[i]);
            },
            None => {
                assert forall|j: int| 0 <= j < hits.len() - 1 implies !#[trigger] hits[j] by {
                    assert(!hits.drop_last()[j]);
                }
            },
        }
    }
}

pub proof fn lemma_is_first_hit(hits: Seq<bool>, i: int)
    requires
        0 <= i < hits.len(),
        hits[i],
        forall|j: int| 0 <= j < i ==> !#[trigger] hits[j],
    ensures
        first_hit(hits) == Some(i),
{
    lemma_first_hit(hits);
    match first_hit(hits) {
        Some(k) => {
            if k < i {
                assert(!hits[k]);
            }
            if i < k {
                assert(!hits[i]);
            }
        },
        None => {
            assert(!hits[i]);
        },
    }
}

/// The place of the first `true` in a list.
pub fn first_true(hits: &[bool]) -> (r: Option<usize>)
    ensures
        match r {
            Some(i) => first_hit(hits@) == Some(i as int) && i < hits@.len(),
            None => first_hit(hits@) is None,
        },
{
    let mut i: usize = 0;
    while i < hits.len()
        invariant
            i <= hits@.len(),
            forall|j: int| 0 <= j < i ==> !#[trigger] hits@[j],
        decreases hits@.len() - i,
    {
        if hits[i] {
            proof {
                lemma_is_first_hit(hits@, i as int);
            }
            return Some(i);
        }
        i = i + 1;
    }
    proof {
        lemma_first_hit(hits@);
    }
    None
}

/// The first hit of the first line that has one.
pub open spec fn first_line_hit(hits: Seq<Seq<bool>>) -> Option<int>
    decreases hits.len(),
{
    if hits.len() == 0 {
        None
    } else {
        match first_line_hit(hits.drop_last()) {
            Some(i) => Some(i),
            None => first_hit(hits.last()),
        }
    }
}

/// Which command rules match a line.
pub open spec fn cmd_hits(rules: Seq<CmdRule>, line: Seq<char>) -> Seq<bool> {
    Seq::new(rules.len(), |j: int| patterns::matches(rules[j].re, line))
}

/// Which command rules match each command line.
pub open spec fn all_cmd_hits(rules: Seq<CmdRule>, argvs: Seq<Seq<Seq<char>>>) -> Seq<Seq<bool>> {
    Seq::new(argvs.len(), |i: int| cmd_hits(rules, text::joined(argvs[i], " "@)))
}

/// The digits of a port, or nothing.
pub open spec fn port_text(port: Option<u16>) -> Seq<char> {
    match port {
        Some(p) => text::decimal(p as nat),
        None => Seq::empty(),
    }
}

/// The URL that a command rule gives on a port: its template with `{port}` filled
/// in, otherwise the default of its label.
pub open spec fn rule_url(
    label: Seq<char>,
    template: Option<Seq<char>>,
    port: Option<u16>,
) -> Option<UrlView> {
    match template {
        Some(tpl) => {
            let value = text::replaced(tpl, "{port}"@, port_text(port));
            Some(UrlView { scheme: shown_scheme(value), value })
        },
        None => label_url(label, port),
    }
}

/// The default URL of a label, where there is a port.
pub open spec fn label_url(label: Seq<char>, port: Option<u16>) -> Option<UrlView> {
    match port {
        Some(p) => Some(standard_url(label, p)),
        None => None,
    }
}

/// The label and the URL, given which rules match each command line: those of the
/// first rule that matches the first line with a match, otherwise the built-in ones.
pub open spec fn label_given(
    rules: Seq<CmdRule>,
    hits: Seq<Seq<bool>>,
    argvs: Seq<Seq<Seq<char>>>,
    port: Option<u16>,
) -> (Seq<char>, Option<UrlView>) {
    match first_line_hit(hits) {
        Some(j) => (
            rules[j].label@,
            rule_url(rules[j].label@, opt_text(rules[j].url), port),
        ),
        None => (subtree_label(argvs), label_url(subtree_label(argvs), port)),
    }
}

fn url_of_rule(rule: &CmdRule, port: Option<u16>) -> (r: Option<Url>)
    ensures
        opt_url(r) == rule_url(rule.label@, opt_text(rule.url), port),
{
    match &rule.url {
        Some(tpl) => {
            let p = match port {
                Some(p) => text::to_decimal(p as u64),
                None => String::new(),
            };
            proof {
                reveal_strlit("{port}");
                assert(port_text(port) =~= p@);
            }
            let value = text::replace(tpl.as_str(), "{port}", p.as_str());
            let scheme = scheme_from_url(value.as_str());
            Some(Url { scheme, value })
        },
        None => match port {
            Some(p) => default_url(rule.label.as_str(), p),
            None => None,
        },
    }
}

/// The label and URL of a subtree, given for each of its command lines which rules
/// match it.
pub fn choose_label(
    rules: &[CmdRule],
    hits: &[Vec<bool>],
    argvs: &[Vec<String>],
    port: Option<u16>,
) -> (r: (String, Option<Url>))
    requires
        forall|i: int| 0 <= i < hits@.len() ==> (#[trigger] hits@[i])@.len() == rules@.len(),
    ensures
        (r.0@, opt_url(r.1)) == label_given(
            rules@,
            hit_views(hits@),
            proctree::argv_views(argvs@),
            port,
        ),
{
    let ghost all = hit_views(hits@);
    let mut i: usize = 0;
    while i < hits.len()
        invariant
            i <= hits@.len(),
            all == hit_views(hits@),
            forall|k: int| 0 <= k < hits@.len() ==> (#[trigger] hits@[k])@.len() == rules@.len(),
            first_line_hit(all.take(i as int)) is None,
        decreases hits@.len() - i,
    {
        proof {
            assert(all.take(i + 1).drop_last() =~= all.take(i as int));
            assert(all.take(i + 1).last() == hits@[i as int]@);
        }
        match first_true(hits[i].as_slice()) {
            Some(j) => {
                proof {
                    lemma_first_line_hit_stays(all, i + 1);
                }
                let rule = &rules[j];
                return (rule.label.clone(), url_of_rule(rule, port));
            },
            None => {},
        }
        i = i + 1;
    }
    proof {
        assert(all.take(i as int) =~= all);
    }
    let label = label_from_subtree(argvs);
    let url = match port {
        Some(p) => default_url(label.as_str(), p),
        None => None,
    };
    (label, url)
}

pub open spec fn hit_views(hits: Seq<Vec<bool>>) -> Seq<Seq<bool>> {
    hits.map_values(|h: Vec<bool>| h@)
}

proof fn lemma_first_line_hit_stays(hits: Seq<Seq<bool>>, k: int)
    requires
        0 <= k <= hits.len(),
        first_line_hit(hits.take(k)) is Some,
    ensures
        first_line_hit(hits) == first_line_hit(hits.take(k)),
    decreases hits.len(),
{
    if k == hits.len() {
        assert(hits.take(k) =~= hits);
    } else {
        assert(hits.drop_last().take(k) =~= hits.take(k));
        lemma_first_line_hit_stays(hits.drop_last(), k);
    }
}

/// A command rule of the user's decides the label, whatever the built-in knowledge
/// says of the command lines.
pub proof fn command_rule_wins(
    rules: Seq<CmdRule>,
    argvs: Seq<Seq<Seq<char>>>,
    port: Option<u16>,
    i: int,
    j: int,
)
    requires
        0 <= i < argvs.len(),
        0 <= j < rules.len(),
        patterns::matches(rules[j].re, text::joined(argvs[i], " "@)),
    ensures
        exists|k: int|
            0 <= k < rules.len() && label_given(
                rules,
                all_cmd_hits(rules, argvs),
                argvs,
                port,
            ).0 == (#[trigger] rules[k]).label@,
{
    let hits = all_cmd_hits(rules, argvs);
    assert(hits[i][j]);
    lemma_first_hit(hits[i]);
    assert(hits.take(i + 1).last() == hits[i]);
    assert(first_line_hit(hits.take(i + 1)) is Some);
    lemma_first_line_hit_stays(hits, i + 1);
    lemma_line_hit_in_range(hits, rules.len());
    let k = first_line_hit(hits)->0;
    assert(label_given(rules, hits, argvs, port).0 == rules[k].label@);
}

proof fn lemma_line_hit_in_range(hits: Seq<Seq<bool>>, n: nat)
    requires
        forall|i: int| 0 <= i < hits.len() ==> (#[trigger] hits[i]).len() == n,
    ensures
        first_line_hit(hits) is Some ==> 0 <= first_line_hit(hits)->0 < n,
    decreases hits.len(),
{
    if hits.len() > 0 {
        lemma_line_hit_in_range(hits.drop_last(), n);
        lemma_first_hit(hits.last());
    }
}

/// The watcher label, given which watch rules match the command line.
pub open spec fn watcher_given(rules: Seq<WatchRule>, hits: Seq<bool>, argv: Seq<Seq<char>>) -> Option<
    Seq<char>,
> {
    match first_hit(hits) {
        Some(j) => Some(rules[j].label@),
        None => watch_label(argv),
    }
}

/// The watcher label of a command line, given which watch rules match it.
pub fn choose_watcher(rules: &[WatchRule], hits: &[bool], argv: &[String]) -> (r: Option<String>)
    requires
        hits@.len() == rules@.len(),
    ensures
        opt_text(r) == watcher_given(rules@, hits@, text::texts(argv@)),
{
    match first_true(hits) {
        Some(j) => Some(rules[j].label.clone()),
        None => watcher_label(argv),
    }
}

/// Which watch rules match a line.
pub open spec fn watch_hits(rules: Seq<WatchRule>, line: Seq<char>) -> Seq<bool> {
    Seq::new(rules.len(), |j: int| patterns::matches(rules[j].re, line))
}

/// An absent condition holds; a given pattern holds where it matches.
pub open spec fn pattern_holds(cmd: Option<Regex>, line: Seq<char>) -> bool {
    match cmd {
        Some(re) => patterns::matches(re, line),
        None => true,
    }
}

/// Of which overrides the command condition holds.
pub open spec fn override_hits(rules: Seq<OverrideRule>, line: Seq<char>) -> Seq<bool> {
    Seq::new(rules.len(), |j: int| pattern_holds(rules[j].cmd, line))
}

/// Which overrides apply, given of which the command condition holds.
pub open spec fn overrides_for(
    rules: Seq<OverrideRule>,
    hits: Seq<bool>,
    port: Option<u16>,
) -> Seq<bool> {
    Seq::new(
        rules.len(),
        |j: int| hits[j] && (rules[j].port is None || rules[j].port == port),
    )
}

/// The text that a rule puts in place of another, if it has one.
pub open spec fn replaced_by(o: Option<String>, was: Seq<char>) -> Seq<char> {
    match o {
        Some(s) => s@,
        None => was,
    }
}

/// Project and label after the first override that applies.
pub open spec fn overridden(
    rules: Seq<OverrideRule>,
    hits: Seq<bool>,
    port: Option<u16>,
    project: Seq<char>,
    label: Seq<char>,
) -> (Seq<char>, Seq<char>) {
    match first_hit(overrides_for(rules, hits, port)) {
        Some(j) => (
            replaced_by(rules[j].project, project),
            replaced_by(rules[j].label, label),
        ),
        None => (project, label),
    }
}

/// Apply the first override whose conditions hold, given of which the command
/// condition does.
pub fn pin(
    rules: &[OverrideRule],
    hits: &[bool],
    port: Option<u16>,
    project: &mut String,
    label: &mut String,
)
    requires
        hits@.len() == rules@.len(),
    ensures
        (final(project)@, final(label)@) == overridden(
            rules@,
            hits@,
            port,
            old(project)@,
            old(label)@,
        ),
{
    let mut i: usize = 0;
    let ghost applies = overrides_for(rules@, hits@, port);
    while i < rules.len()
        invariant
            i <= rules@.len(),
            hits@.len() == rules@.len(),
            applies == overrides_for(rules@, hits@, port),
            forall|j: int| 0 <= j < i ==> !#[trigger] applies[j],
            project@ == old(project)@,
            label@ == old(label)@,
        decreases rules@.len() - i,
    {
        let o = &rules[i];
        let port_ok = match o.port {
            Some(p) => port == Some(p),
            None => true,
        };
        if port_ok && hits[i] {
            proof {
                assert(applies[i as int]);
                lemma_is_first_hit(applies, i as int);
            }
            match &o.project {
                Some(p) => {
                    *project = p.clone();
                },
                None => {},
            }
            match &o.label {
                Some(l) => {
                    *label = l.clone();
                },
                None => {},
            }
            return;
        }
        proof {
            assert(!applies[i as int]);
        }
        i = i + 1;
    }
    proof {
        lemma_first_hit(applies);
    }
}

/// A selector of a group fits a target.
pub open spec fn selects(
    s: GroupSelector,
    ports: Seq<u16>,
    project: Seq<char>,
    label: Seq<char>,
) -> bool {
    match s {
        GroupSelector::Port(p) => ports.contains(p),
        GroupSelector::Text(t) => text::occurs(t@, text::lowercase(project)) || text::occurs(
            t@,
            text::lowercase(label),
        ),
    }
}

/// Some selector of the group fits.
pub open spec fn group_fits(
    g: GroupRule,
    ports: Seq<u16>,
    project: Seq<char>,
    label: Seq<char>,
) -> bool {
    exists|k: int|
        0 <= k < g.selectors@.len() && selects(#[trigger] g.selectors@[k], ports, project, label)
}

/// The name of the first group that fits.
pub open spec fn group_of(
    groups: Seq<GroupRule>,
    ports: Seq<u16>,
    project: Seq<char>,
    label: Seq<char>,
) -> Option<Seq<char>> {
    match first_hit(
        Seq::new(groups.len(), |j: int| group_fits(groups[j], ports, project, label)),
    ) {
        Some(j) => Some(groups[j].name@),
        None => None,
    }
}

impl GroupSelector {
    /// Whether the selector fits a target.
    pub fn matches(&self, ports: &[u16], project: &str, label: &str) -> (r: bool)
        ensures
            r == selects(*self, ports@, project@, label@),
    {
        match self {
            GroupSelector::Port(p) => has_port(ports, *p),
            GroupSelector::Text(t) => {
                let in_project = text::to_lowercase(project);
                let in_label = text::to_lowercase(label);
                text::contains(in_project.as_str(), t.as_str()) || text::contains(
                    in_label.as_str(),
                    t.as_str(),
                )
            },
        }
    }
}

/// An ignore rule hides a target, given whether its command condition holds. A rule
/// without any condition hides nothing.
pub open spec fn hides(rule: IgnoreRule, hit: bool, ports: Seq<u16>) -> bool {
    &&& rule.port is Some || rule.cmd is Some
    &&& rule.port is Some ==> ports.contains(rule.port->0)
    &&& hit
}

/// Of which ignore rules the command condition holds.
pub open spec fn ignore_hits(rules: Seq<IgnoreRule>, line: Seq<char>) -> Seq<bool> {
    Seq::new(rules.len(), |j: int| pattern_holds(rules[j].cmd, line))
}

/// Some ignore rule hides the target.
pub open spec fn hidden(rules: Seq<IgnoreRule>, hits: Seq<bool>, ports: Seq<u16>) -> bool {
    exists|j: int| 0 <= j < rules.len() && hides(#[trigger] rules[j], hits[j], ports)
}

/// Whether some ignore rule hides a target, given of which the command condition
/// holds.
pub fn is_hidden(rules: &[IgnoreRule], hits: &[bool], ports: &[u16]) -> (r: bool)
    requires
        hits@.len() == rules@.len(),
    ensures
        r == hidden(rules@, hits@, ports@),
{
    let mut i: usize = 0;
    while i < rules.len()
        invariant
            i <= rules@.len(),
            hits@.len() == rules@.len(),
            forall|j: int| 0 <= j < i ==> !hides(#[trigger] rules@[j], hits@[j], ports@),
        decreases rules@.len() - i,
    {
        let rule = &rules[i];
        let port_ok = match rule.port {
            Some(p) => has_port(ports, p),
            None => true,
        };
        if (rule.port.is_some() || rule.cmd.is_some()) && port_ok && hits[i] {
            assert(hides(rules@[i as int], hits@[i as int], ports@));
            return true;
        }
        i = i + 1;
    }
    false
}

impl Resolver {
    /// A resolver without configuration rules: the built-in defaults only.
    pub fn empty() -> (r: Self)
        ensures
            r.cmd_rules@.len() == 0,
            r.watch_rules@.len() == 0,
            r.overrides@.len() == 0,
            r.groups@.len() == 0,
            r.ignores@.len() == 0,
    {
        Resolver {
            cmd_rules: Vec::new(),
            watch_rules: Vec::new(),
            overrides: Vec::new(),
            groups: Vec::new(),
            ignores: Vec::new(),
        }
    }

    /// The declared group a target belongs to, if any: it takes the place of the
    /// project, so that an app can be bundled with its database.
    pub fn group_name(&self, ports: &[u16], project: &str, label: &str) -> (r: Option<String>)
        ensures
            opt_text(r) == group_of(self.groups@, ports@, project@, label@),
    {
        let ghost fits = Seq::new(
            self.groups@.len(),
            |j: int| group_fits(self.groups@[j], ports@, project@, label@),
        );
        let mut i: usize = 0;
        while i < self.groups.len()
            invariant
                i <= self.groups@.len(),
                fits == Seq::new(
                    self.groups@.len(),
                    |j: int| group_fits(self.groups@[j], ports@, project@, label@),
                ),
                forall|j: int| 0 <= j < i ==> !#[trigger] fits[j],
            decreases self.groups@.len() - i,
        {
            let g = &self.groups[i];
            let mut k: usize = 0;
            while k < g.selectors.len()
                invariant
                    i < self.groups@.len(),
                    *g == self.groups@[i as int],
                    k <= g.selectors@.len(),
                    fits == Seq::new(
                        self.groups@.len(),
                        |j: int| group_fits(self.groups@[j], ports@, project@, label@),
                    ),
                    forall|j: int| 0 <= j < i ==> !#[trigger] fits[j],
                    forall|j: int|
                        0 <= j < k ==> !selects(
                            #[trigger] g.selectors@[j],
                            ports@,
                            project@,
                            label@,
                        ),
                decreases g.selectors@.len() - k,
            {
                if g.selectors[k].matches(ports, project, label) {
                    proof {
                        assert(group_fits(*g, ports@, project@, label@));
                        assert(fits[i as int]);
                        lemma_is_first_hit(fits, i as int);
                    }
                    return Some(g.name.clone());
                }
                k = k + 1;
            }
            proof {
                assert(!fits[i as int]);
            }
            i = i + 1;
        }
        proof {
            lemma_first_hit(fits);
        }
        None
    }

    /// Label and typed URL for a target: command rules first, then the built-in
    /// classifier, which sees the whole subtree.
    pub fn label_and_url(&self, argvs: &[Vec<String>], port: Option<u16>) -> (r: (
        String,
        Option<Url>,
    ))
        ensures
            (r.0@, opt_url(r.1)) == label_given(
                self.cmd_rules@,
                all_cmd_hits(self.cmd_rules@, proctree::argv_views(argvs@)),
                proctree::argv_views(argvs@),
                port,
            ),
    {
        let ghost lines = proctree::argv_views(argvs@);
        let mut hits: Vec<Vec<bool>> = Vec::new();
        let mut i: usize = 0;
        while i < argvs.len()
            invariant
                i <= argvs@.len(),
                lines == proctree::argv_views(argvs@),
                hits@.len() == i,
                forall|k: int|
                    0 <= k < i ==> (#[trigger] hits@[k])@ == cmd_hits(
                        self.cmd_rules@,
                        text::joined(lines[k], " "@),
                    ),
            decreases argvs@.len() - i,
        {
            let line = text::join(argvs[i].as_slice(), " ");
            let mut row: Vec<bool> = Vec::new();
            let mut j: usize = 0;
            while j < self.cmd_rules.len()
                invariant
                    j <= self.cmd_rules@.len(),
                    row@ == cmd_hits(self.cmd_rules@, line@).take(j as int),
                decreases self.cmd_rules@.len() - j,
            {
                row.push(patterns::is_match(&self.cmd_rules[j].re, line.as_str()));
                proof {
                    assert(row@ =~= cmd_hits(self.cmd_rules@, line@).take(j + 1));
                }
                j = j + 1;
            }
            proof {
                assert(lines[i as int] == text::texts(argvs@[i as int]@));
                assert(row@ =~= cmd_hits(self.cmd_rules@, line@));
            }
            hits.push(row);
            i = i + 1;
        }
        proof {
            assert(hit_views(hits@) =~= all_cmd_hits(self.cmd_rules@, lines));
        }
        choose_label(self.cmd_rules.as_slice(), hits.as_slice(), argvs, port)
    }

    /// Watcher label: watch rules first, then the built-in detector.
    pub fn watcher_label(&self, argv: &[String]) -> (r: Option<String>)
        ensures
            opt_text(r) == watcher_given(
                self.watch_rules@,
                watch_hits(self.watch_rules@, text::joined(text::texts(argv@), " "@)),
                text::texts(argv@),
            ),
    {
        let line = text::join(argv, " ");
        let ghost all = watch_hits(self.watch_rules@, line@);
        let mut hits: Vec<bool> = Vec::new();
        let mut j: usize = 0;
        while j < self.watch_rules.len()
            invariant
                j <= self.watch_rules@.len(),
                all == watch_hits(self.watch_rules@, line@),
                hits@ == all.take(j as int),
            decreases self.watch_rules@.len() - j,
        {
            hits.push(patterns::is_match(&self.watch_rules[j].re, line.as_str()));
            proof {
                assert(hits@ =~= all.take(j + 1));
            }
            j = j + 1;
        }
        proof {
            assert(hits@ =~= all);
        }
        choose_watcher(self.watch_rules.as_slice(), hits.as_slice(), argv)
    }

    /// Apply the first matching override to project and label in place.
    pub fn apply_override(
        &self,
        port: Option<u16>,
        argv_joined: &str,
        project: &mut String,
        label: &mut String,
    )
        ensures
            (final(project)@, final(label)@) == overridden(
                self.overrides@,
                override_hits(self.overrides@, argv_joined@),
                port,
                old(project)@,
                old(label)@,
            ),
    {
        let ghost all = override_hits(self.overrides@, argv_joined@);
        let mut hits: Vec<bool> = Vec::new();
        let mut j: usize = 0;
        while j < self.overrides.len()
            invariant
                j <= self.overrides@.len(),
                all == override_hits(self.overrides@, argv_joined@),
                hits@ == all.take(j as int),
            decreases self.overrides@.len() - j,
        {
            hits.push(pattern_ok(&self.overrides[j].cmd, argv_joined));
            proof {
                assert(hits@ =~= all.take(j + 1));
            }
            j = j + 1;
        }
        proof {
            assert(hits@ =~= all);
        }
        pin(self.overrides.as_slice(), hits.as_slice(), port, project, label)
    }

    /// Whether the user said never to show a target with these ports and this
    /// command or label.
    pub fn is_ignored(&self, ports: &[u16], text: &str) -> (r: bool)
        ensures
            r == hidden(self.ignores@, ignore_hits(self.ignores@, text@), ports@),
    {
        let ghost all = ignore_hits(self.ignores@, text@);
        let mut hits: Vec<bool> = Vec::new();
        let mut j: usize = 0;
        while j < self.ignores.len()
            invariant
                j <= self.ignores@.len(),
                all == ignore_hits(self.ignores@, text@),
                hits@ == all.take(j as int),
            decreases self.ignores@.len() - j,
        {
            hits.push(pattern_ok(&self.ignores[j].cmd, text));
            proof {
                assert(hits@ =~= all.take(j + 1));
            }
            j = j + 1;
        }
        proof {
            assert(hits@ =~= all);
        }
        is_hidden(self.ignores.as_slice(), hits.as_slice(), ports)
    }
}

fn pattern_ok(cmd: &Option<Regex>, line: &str) -> (r: bool)
    ensures
        r == pattern_holds(*cmd, line@),
{
    match cmd {
        Some(re) => patterns::is_match(re, line),
        None => true,
    }
}

// -------------------------------------------------------------------- loading

/// What a member of a group selects: a port in range, a text that spells a port with
/// or without leading colons, or else the lowercased text.
pub open spec fn member_selects(m: Member) -> Option<GroupSelectorView> {
    match m {
        Member::Integer(n) => if 0 <= n <= 65535 {
            Some(GroupSelectorView::Port(n as u16))
        } else {
            None
        },
        Member::Text(s) => match text::port_number(text::without_leading(s@, ':')) {
            Some(p) => Some(GroupSelectorView::Port(p)),
            None => Some(GroupSelectorView::Text(text::lowercase(s@))),
        },
        Member::Other => None,
    }
}

pub enum GroupSelectorView {
    Port(u16),
    Text(Seq<char>),
}

impl View for GroupSelector {
    type V = GroupSelectorView;

    open spec fn view(&self) -> GroupSelectorView {
        match self {
            GroupSelector::Port(p) => GroupSelectorView::Port(*p),
            GroupSelector::Text(t) => GroupSelectorView::Text(t@),
        }
    }
}

/// The selector that a member of a group stands for.
pub fn parse_member(m: &Member) -> (r: Option<GroupSelector>)
    ensures
        match r {
            Some(s) => member_selects(*m) == Some(s@),
            None => member_selects(*m) is None,
        },
{
    match m {
        Member::Integer(n) => if 0 <= *n && *n <= 65535 {
            Some(GroupSelector::Port(*n as u16))
        } else {
            None
        },
        Member::Text(s) => {
            let bare = text::trim_start_matches(s.as_str(), ':');
            match text::parse_u16(bare) {
                Some(p) => Some(GroupSelector::Port(p)),
                None => Some(GroupSelector::Text(text::to_lowercase(s.as_str()))),
            }
        },
        Member::Other => None,
    }
}

/// What compiles of an optional pattern.
pub open spec fn usable(pattern: Option<String>) -> Option<Regex> {
    match pattern {
        Some(p) => match patterns::compiled(p@) {
            Ok(re) => Some(re),
            Err(_) => None,
        },
        None => None,
    }
}

/// The warning about a pattern that does not compile.
pub open spec fn complaint(pattern: Seq<char>) -> Option<Seq<char>> {
    match patterns::compiled(pattern) {
        Ok(_) => None,
        Err(e) => Some("marina: ignoring bad regex "@ + patterns::quoted(pattern) + ": "@ + e),
    }
}

/// The warnings about some patterns, in order.
pub open spec fn complaints(patterns: Seq<Seq<char>>) -> Seq<Seq<char>>
    decreases patterns.len(),
{
    if patterns.len() == 0 {
        Seq::empty()
    } else {
        let before = complaints(patterns.drop_last());
        match complaint(patterns.last()) {
            Some(c) => before.push(c),
            None => before,
        }
    }
}

/// The patterns among some optional ones.
pub open spec fn given(list: Seq<Option<String>>) -> Seq<Seq<char>>
    decreases list.len(),
{
    if list.len() == 0 {
        Seq::empty()
    } else {
        let before = given(list.drop_last());
        match list.last() {
            Some(p) => before.push(p@),
            None => before,
        }
    }
}

/// All patterns of a configuration, in the order in which they are compiled.
pub open spec fn config_patterns(cfg: ConfigFile) -> Seq<Seq<char>> {
    given(cfg.rule@.map_values(|c: RuleCfg| Some(c.match_cmd))) + given(
        cfg.watch@.map_values(|c: WatchCfg| Some(c.match_cmd)),
    ) + given(cfg.overrides@.map_values(|c: OverrideCfg| c.match_cmd)) + given(
        cfg.ignore@.map_values(|c: IgnoreCfg| c.match_cmd),
    )
}

/// The command rules whose pattern compiles.
pub open spec fn compiled_rules(list: Seq<RuleCfg>) -> Seq<CmdRule>
    decreases list.len(),
{
    if list.len() == 0 {
        Seq::empty()
    } else {
        let before = compiled_rules(list.drop_last());
        let c = list.last();
        match usable(Some(c.match_cmd)) {
            Some(re) => before.push(CmdRule { re, label: c.label, url: c.url }),
            None => before,
        }
    }
}

/// The watch rules whose pattern compiles.
pub open spec fn compiled_watches(list: Seq<WatchCfg>) -> Seq<WatchRule>
    decreases list.len(),
{
    if list.len() == 0 {
        Seq::empty()
    } else {
        let before = compiled_watches(list.drop_last());
        let c = list.last();
        match usable(Some(c.match_cmd)) {
            Some(re) => before.push(WatchRule { re, label: c.label }),
            None => before,
        }
    }
}

/// A pattern is given and does not compile.
pub open spec fn is_broken(pattern: Option<String>) -> bool {
    pattern is Some && usable(pattern) is None
}

/// The overrides, without those whose pattern does not compile.
pub open spec fn compiled_overrides(list: Seq<OverrideCfg>) -> Seq<OverrideRule>
    decreases list.len(),
{
    if list.len() == 0 {
        Seq::empty()
    } else {
        let before = compiled_overrides(list.drop_last());
        let c = list.last();
        if is_broken(c.match_cmd) {
            before
        } else {
            before.push(
                OverrideRule {
                    port: c.match_port,
                    cmd: usable(c.match_cmd),
                    project: c.project,
                    label: c.label,
                },
            )
        }
    }
}

/// The ignore rules, without those whose pattern does not compile.
pub open spec fn compiled_ignores(list: Seq<IgnoreCfg>) -> Seq<IgnoreRule>
    decreases list.len(),
{
    if list.len() == 0 {
        Seq::empty()
    } else {
        let before = compiled_ignores(list.drop_last());
        let c = list.last();
        if is_broken(c.match_cmd) {
            before
        } else {
            before.push(IgnoreRule { port: c.match_port, cmd: usable(c.match_cmd) })
        }
    }
}

/// The selectors of some members.
pub open spec fn compiled_members(list: Seq<Member>) -> Seq<GroupSelectorView>
    decreases list.len(),
{
    if list.len() == 0 {
        Seq::empty()
    } else {
        let before = compiled_members(list.drop_last());
        match member_selects(list.last()) {
            Some(s) => before.push(s),
            None => before,
        }
    }
}

pub open spec fn selector_views(list: Seq<GroupSelector>) -> Seq<GroupSelectorView> {
    list.map_values(|s: GroupSelector| s@)
}

fn try_pattern(pattern: &str, warnings: &mut Vec<String>) -> (r: Option<Regex>)
    ensures
        match r {
            Some(re) => patterns::compiled(pattern@) == Ok::<Regex, Seq<char>>(re),
            None => patterns::compiled(pattern@) is Err,
        },
        text::texts(final(warnings)@) == match complaint(pattern@) {
            Some(c) => text::texts(old(warnings)@).push(c),
            None => text::texts(old(warnings)@),
        },
{
    match patterns::compile(pattern) {
        Ok(re) => Some(re),
        Err(e) => {
            let mut w = "marina: ignoring bad regex ".to_owned();
            let q = patterns::quote(pattern);
            w.append(q.as_str());
            w.append(": ");
            w.append(e.as_str());
            warnings.push(w);
            proof {
                assert(text::texts(warnings@) =~= text::texts(old(warnings)@).push(w@));
            }
            None
        },
    }
}

proof fn lemma_complain(before: Seq<Seq<char>>, list: Seq<Option<String>>, i: int)
    requires
        0 <= i < list.len(),
    ensures
        complaints(before + given(list.take(i + 1))) == match list[i] {
            Some(p) => match complaint(p@) {
                Some(c) => complaints(before + given(list.take(i))).push(c),
                None => complaints(before + given(list.take(i))),
            },
            None => complaints(before + given(list.take(i))),
        },
{
    assert(list.take(i + 1).drop_last() =~= list.take(i));
    assert(list.take(i + 1).last() == list[i]);
    match list[i] {
        Some(p) => {
            let was = before + given(list.take(i));
            assert(before + given(list.take(i)).push(p@) =~= was.push(p@));
            assert(was.push(p@).drop_last() =~= was);
        },
        None => {},
    }
}

fn load_rules(list: Vec<RuleCfg>, warnings: &mut Vec<String>) -> (r: Vec<CmdRule>)
    requires
        old(warnings)@.len() == 0,
    ensures
        r@ == compiled_rules(list@),
        text::texts(final(warnings)@) == complaints(
            given(list@.map_values(|c: RuleCfg| Some(c.match_cmd))),
        ),
{
    let ghost all = list@;
    let ghost pats = all.map_values(|c: RuleCfg| Some(c.match_cmd));
    let ghost none = Seq::<Seq<char>>::empty();
    let mut out: Vec<CmdRule> = Vec::new();
    proof {
        assert(none + given(pats.take(0)) =~= none);
        assert(text::texts(warnings@) =~= complaints(none));
    }
    for c in it: list
        invariant
            it.seq() == all,
            pats == all.map_values(|c: RuleCfg| Some(c.match_cmd)),
            out@ == compiled_rules(all.take(it.index() as int)),
            text::texts(warnings@) == complaints(none + given(pats.take(it.index() as int))),
    {
        let ghost k = it.index() as int;
        proof {
            assert(all.take(k + 1).drop_last() =~= all.take(k));
            assert(all.take(k + 1).last() == c);
            assert(pats[k] == Some(c.match_cmd));
            lemma_complain(none, pats, k);
        }
        match try_pattern(c.match_cmd.as_str(), warnings) {
            Some(re) => {
                out.push(CmdRule { re, label: c.label, url: c.url });
            },
            None => {},
        }
    }
    proof {
        assert(all.take(all.len() as int) =~= all);
        assert(pats.take(pats.len() as int) =~= pats);
        assert(none + given(pats) =~= given(pats));
    }
    out
}

fn load_watches(list: Vec<WatchCfg>, warnings: &mut Vec<String>, Ghost(before): Ghost<
    Seq<Seq<char>>,
>) -> (r: Vec<WatchRule>)
    requires
        text::texts(old(warnings)@) == complaints(before),
    ensures
        r@ == compiled_watches(list@),
        text::texts(final(warnings)@) == complaints(
            before + given(list@.map_values(|c: WatchCfg| Some(c.match_cmd))),
        ),
{
    let ghost all = list@;
    let ghost pats = all.map_values(|c: WatchCfg| Some(c.match_cmd));
    let mut out: Vec<WatchRule> = Vec::new();
    proof {
        assert(before + given(pats.take(0)) =~= before);
    }
    for c in it: list
        invariant
            it.seq() == all,
            pats == all.map_values(|c: WatchCfg| Some(c.match_cmd)),
            out@ == compiled_watches(all.take(it.index() as int)),
            text::texts(warnings@) == complaints(before + given(pats.take(it.index() as int))),
    {
        let ghost k = it.index() as int;
        proof {
            assert(all.take(k + 1).drop_last() =~= all.take(k));
            assert(all.take(k + 1).last() == c);
            assert(pats[k] == Some(c.match_cmd));
            lemma_complain(before, pats, k);
        }
        match try_pattern(c.match_cmd.as_str(), warnings) {
            Some(re) => {
                out.push(WatchRule { re, label: c.label });
            },
            None => {},
        }
    }
    proof {
        assert(all.take(all.len() as int) =~= all);
        assert(pats.take(pats.len() as int) =~= pats);
    }
    out
}

fn try_optional(pattern: &Option<String>, warnings: &mut Vec<String>) -> (r: Option<Regex>)
    ensures
        r == usable(*pattern),
        text::texts(final(warnings)@) == match *pattern {
            Some(p) => match complaint(p@) {
                Some(c) => text::texts(old(warnings)@).push(c),
                None => text::texts(old(warnings)@),
            },
            None => text::texts(old(warnings)@),
        },
{
    match pattern {
        Some(p) => try_pattern(p.as_str(), warnings),
        None => None,
    }
}

fn load_overrides(list: Vec<OverrideCfg>, warnings: &mut Vec<String>, Ghost(before): Ghost<
    Seq<Seq<char>>,
>) -> (r: Vec<OverrideRule>)
    requires
        text::texts(old(warnings)@) == complaints(before),
    ensures
        r@ == compiled_overrides(list@),
        text::texts(final(warnings)@) == complaints(
            before + given(list@.map_values(|c: OverrideCfg| c.match_cmd)),
        ),
{
    let ghost all = list@;
    let ghost pats = all.map_values(|c: OverrideCfg| c.match_cmd);
    let mut out: Vec<OverrideRule> = Vec::new();
    proof {
        assert(before + given(pats.take(0)) =~= before);
    }
    for c in it: list
        invariant
            it.seq() == all,
            pats == all.map_values(|c: OverrideCfg| c.match_cmd),
            out@ == compiled_overrides(all.take(it.index() as int)),
            text::texts(warnings@) == complaints(before + given(pats.take(it.index() as int))),
    {
        let ghost k = it.index() as int;
        proof {
            assert(all.take(k + 1).drop_last() =~= all.take(k));
            assert(all.take(k + 1).last() == c);
            assert(pats[k] == c.match_cmd);
            lemma_complain(before, pats, k);
        }
        let cmd = try_optional(&c.match_cmd, warnings);
        if cmd.is_some() || c.match_cmd.is_none() {
            out.push(OverrideRule { port: c.match_port, cmd, project: c.project, label: c.label });
        }
    }
    proof {
        assert(all.take(all.len() as int) =~= all);
        assert(pats.take(pats.len() as int) =~= pats);
    }
    out
}

fn load_ignores(list: Vec<IgnoreCfg>, warnings: &mut Vec<String>, Ghost(before): Ghost<
    Seq<Seq<char>>,
>) -> (r: Vec<IgnoreRule>)
    requires
        text::texts(old(warnings)@) == complaints(before),
    ensures
        r@ == compiled_ignores(list@),
        text::texts(final(warnings)@) == complaints(
            before + given(list@.map_values(|c: IgnoreCfg| c.match_cmd)),
        ),
{
    let ghost all = list@;
    let ghost pats = all.map_values(|c: IgnoreCfg| c.match_cmd);
    let mut out: Vec<IgnoreRule> = Vec::new();
    proof {
        assert(before + given(pats.take(0)) =~= before);
    }
    for c in it: list
        invariant
            it.seq() == all,
            pats == all.map_values(|c: IgnoreCfg| c.match_cmd),
            out@ == compiled_ignores(all.take(it.index() as int)),
            text::texts(warnings@) == complaints(before + given(pats.take(it.index() as int))),
    {
        let ghost k = it.index() as int;
        proof {
            assert(all.take(k + 1).drop_last() =~= all.take(k));
            assert(all.take(k + 1).last() == c);
            assert(pats[k] == c.match_cmd);
            lemma_complain(before, pats, k);
        }
        let cmd = try_optional(&c.match_cmd, warnings);
        if cmd.is_some() || c.match_cmd.is_none() {
            out.push(IgnoreRule { port: c.match_port, cmd });
        }
    }
    proof {
        assert(all.take(all.len() as int) =~= all);
        assert(pats.take(pats.len() as int) =~= pats);
    }
    out
}

fn load_members(list: &Vec<Member>) -> (r: Vec<GroupSelector>)
    ensures
        selector_views(r@) == compiled_members(list@),
{
    let mut out: Vec<GroupSelector> = Vec::new();
    let mut i: usize = 0;
    while i < list.len()
        invariant
            i <= list@.len(),
            selector_views(out@) == compiled_members(list@.take(i as int)),
        decreases list@.len() - i,
    {
        proof {
            assert(list@.take(i + 1).drop_last() =~= list@.take(i as int));
            assert(list@.take(i + 1).last() == list@[i as int]);
        }
        let ghost out0 = out@;
        match parse_member(&list[i]) {
            Some(s) => {
                out.push(s);
                proof {
                    assert(selector_views(out@) =~= selector_views(out0).push(s@));
                }
            },
            None => {},
        }
        i = i + 1;
    }
    proof {
        assert(list@.take(i as int) =~= list@);
    }
    out
}

/// The compiled groups stand for the configured ones, one for one.
pub open spec fn groups_stand_for(rules: Seq<GroupRule>, cfgs: Seq<GroupCfg>) -> bool {
    &&& rules.len() == cfgs.len()
    &&& forall|i: int|
        0 <= i < cfgs.len() ==> (#[trigger] rules[i]).name@ == cfgs[i].name@ && selector_views(
            rules[i].selectors@,
        ) == compiled_members(cfgs[i].members@)
}

fn load_groups(list: Vec<GroupCfg>) -> (r: Vec<GroupRule>)
    ensures
        groups_stand_for(r@, list@),
{
    let ghost all = list@;
    let mut out: Vec<GroupRule> = Vec::new();
    for c in it: list
        invariant
            it.seq() == all,
            groups_stand_for(out@, all.take(it.index() as int)),
    {
        let ghost k = it.index() as int;
        let ghost out0 = out@;
        let selectors = load_members(&c.members);
        out.push(GroupRule { name: c.name, selectors });
        proof {
            assert forall|i: int| 0 <= i < k + 1 implies (#[trigger] out@[i]).name@ == all.take(
                k + 1,
            )[i].name@ && selector_views(out@[i].selectors@) == compiled_members(
                all.take(k + 1)[i].members@,
            ) by {
                if i < k {
                    assert(out@[i] == out0[i]);
                    assert(all.take(k)[i] == all.take(k + 1)[i]);
                }
            }
        }
    }
    proof {
        assert(all.take(all.len() as int) =~= all);
    }
    out
}

impl Resolver {
    /// Compile the user's configuration. Patterns that do not compile are left out,
    /// each with a warning.
    pub fn load(cfg: ConfigFile) -> (r: (Resolver, Vec<String>))
        ensures
            r.0.cmd_rules@ == compiled_rules(cfg.rule@),
            r.0.watch_rules@ == compiled_watches(cfg.watch@),
            r.0.overrides@ == compiled_overrides(cfg.overrides@),
            r.0.ignores@ == compiled_ignores(cfg.ignore@),
            groups_stand_for(r.0.groups@, cfg.group@),
            text::texts(r.1@) == complaints(config_patterns(cfg)),
    {
        let ghost p1 = given(cfg.rule@.map_values(|c: RuleCfg| Some(c.match_cmd)));
        let ghost p2 = p1 + given(cfg.watch@.map_values(|c: WatchCfg| Some(c.match_cmd)));
        let ghost p3 = p2 + given(cfg.overrides@.map_values(|c: OverrideCfg| c.match_cmd));
        let mut warnings: Vec<String> = Vec::new();
        let cmd_rules = load_rules(cfg.rule, &mut warnings);
        let watch_rules = load_watches(cfg.watch, &mut warnings, Ghost(p1));
        let overrides = load_overrides(cfg.overrides, &mut warnings, Ghost(p2));
        let ignores = load_ignores(cfg.ignore, &mut warnings, Ghost(p3));
        let groups = load_groups(cfg.group);
        (Resolver { cmd_rules, watch_rules, overrides, groups, ignores }, warnings)
    }
}

} // verus!
