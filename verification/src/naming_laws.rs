//! What holds of names: which label, URL and project a target gets, whatever stands
//! around the program that runs.
use vstd::prelude::*;

use crate::config::{ConfigFile, IgnoreCfg, Member, OverrideCfg, RuleCfg, WatchCfg};
use crate::model::opt_text;
use crate::patterns;
use crate::proctree::lemma_joined_contains;
use crate::resolve::{
    all_cmd_hits, base, cmd_hits, command_label, compiled_ignores, compiled_members,
    compiled_overrides, compiled_rules, compiled_watches, complaints, config_patterns, first_hit,
    first_known, first_line_hit, first_program, first_tool, given, group_fits, group_of, hidden,
    ignore_hits, label_given, label_url, lemma_first_hit, lemma_is_first_hit, member_selects,
    multiword_label, names_shell, overridden, override_hits, overrides_for, plain_label, rule_url,
    runs_program, says, selects, shown_scheme, standard_url, stem, subtree_label, tool_label,
    tool_of, url_head, watch_hits, watch_label, watcher_given, wraps, CmdRule, GroupRule,
    GroupSelector, GroupSelectorView, IgnoreRule, OverrideRule, WatchRule,
};
use crate::text;

verus! {

// ------------------------------------------------------------------ file names

/// The character does not occur.
pub open spec fn lacks(s: Seq<char>, c: char) -> bool {
    forall|i: int| 0 <= i < s.len() ==> #[trigger] s[i] != c
}

/// A text without the separator is its own only piece.
pub proof fn lemma_one_piece(s: Seq<char>, c: char)
    requires
        lacks(s, c),
    ensures
        text::pieces(s, c) == seq![s],
    decreases s.len(),
{
    if s.len() > 0 {
        let d = s.drop_last();
        assert(lacks(d, c)) by {
            assert forall|i: int| 0 <= i < d.len() implies #[trigger] d[i] != c by {
                assert(s[i] != c);
            }
        }
        lemma_one_piece(d, c);
        assert(s[s.len() - 1] != c);
        assert(d.push(s.last()) =~= s);
        assert(text::pieces(s, c) =~= seq![s]);
    } else {
        assert(s =~= Seq::<char>::empty());
    }
}

/// What stands behind the last separator is the last piece, and what stands ahead of it
/// makes the others.
pub proof fn lemma_last_piece(a: Seq<char>, c: char, b: Seq<char>)
    requires
        lacks(b, c),
    ensures
        text::pieces(a + seq![c] + b, c) == text::pieces(a, c).push(b),
    decreases b.len(),
{
    let s = a + seq![c] + b;
    if b.len() == 0 {
        assert(s.drop_last() =~= a);
        assert(s.last() == c);
        assert(b =~= Seq::<char>::empty());
    } else {
        let d = b.drop_last();
        assert(lacks(d, c)) by {
            assert forall|i: int| 0 <= i < d.len() implies #[trigger] d[i] != c by {
                assert(b[i] != c);
            }
        }
        lemma_last_piece(a, c, d);
        assert(s.drop_last() =~= a + seq![c] + d);
        assert(s.last() == b.last());
        assert(b[b.len() - 1] != c);
        assert(d.push(b.last()) =~= b);
        assert(text::pieces(a, c).push(d).drop_last() =~= text::pieces(a, c));
        assert(text::pieces(s, c) =~= text::pieces(a, c).push(b));
    }
}

/// The name of a program is what stands behind the last slash of its path, of either kind,
/// whatever directory it lies in; a bare name is itself.
pub proof fn programs_go_by_their_file(dir: Seq<char>, name: Seq<char>)
    requires
        lacks(name, '/'),
        lacks(name, '\\'),
    ensures
        base(name) == name,
        base(dir + seq!['/'] + name) == name,
        lacks(dir, '/') ==> base(dir + seq!['\\'] + name) == name,
{
    if lacks(dir, '/') {
        let s = dir + seq!['\\'] + name;
        assert(lacks(s, '/')) by {
            assert forall|i: int| 0 <= i < s.len() implies #[trigger] s[i] != '/' by {
                if i < dir.len() {
                    assert(dir[i] != '/');
                } else if i > dir.len() {
                    assert(name[i - dir.len() - 1] != '/');
                }
            }
        }
        lemma_one_piece(s, '/');
        lemma_last_piece(dir, '\\', name);
        assert(seq![s].last() == s);
        assert(text::pieces(dir, '\\').push(name).last() == name);
    }
    lemma_one_piece(name, '/');
    lemma_one_piece(name, '\\');
    lemma_last_piece(dir, '/', name);
    assert(text::pieces(name, '/').last() == name);
    assert(text::pieces(dir, '/').push(name).last() == name);
    assert(text::pieces(name, '\\').last() == name);
}

// ------------------------------------------------------------------- launchers

/// The programs that only start others.
pub open spec fn launcher_names() -> Seq<Seq<char>> {
    seq![
        "pnpm"@,
        "npm"@,
        "npx"@,
        "yarn"@,
        "bun"@,
        "node"@,
        "deno"@,
        "ts-node"@,
        "tsx"@,
        "dotenv"@,
        "dotenvx"@,
        "cross-env"@,
        "concurrently"@,
        "turbo"@,
        "nx"@,
        "make"@,
        "env"@,
    ]
}

/// The shells.
pub open spec fn shell_names() -> Seq<Seq<char>> {
    seq!["zsh"@, "bash"@, "sh"@, "fish"@, "dash"@, "ksh"@, "tcsh"@]
}

/// The name of a launcher, as it is or as a script.
pub open spec fn is_launcher_file(b: Seq<char>) -> bool {
    exists|i: int|
        0 <= i < launcher_names().len() && {
            ||| b == #[trigger] launcher_names()[i]
            ||| b == launcher_names()[i] + ".js"@
            ||| b == launcher_names()[i] + ".cjs"@
            ||| b == launcher_names()[i] + ".mjs"@
        }
}

/// The name of a shell, behind any number of dashes.
pub open spec fn is_shell_file(b: Seq<char>) -> bool {
    exists|i: int|
        0 <= i < shell_names().len() && (#[trigger] shell_names()[i]).is_suffix_of(b) && forall|
            j: int,
        |
            0 <= j < b.len() - shell_names()[i].len() ==> #[trigger] b[j] == '-'
}

proof fn lemma_launcher_letters()
    ensures
        forall|i: int|
            0 <= i < launcher_names().len() ==> lacks(#[trigger] launcher_names()[i], '.'),
{
    reveal_strlit("pnpm");
    reveal_strlit("npm");
    reveal_strlit("npx");
    reveal_strlit("yarn");
    reveal_strlit("bun");
    reveal_strlit("node");
    reveal_strlit("deno");
    reveal_strlit("ts-node");
    reveal_strlit("tsx");
    reveal_strlit("dotenv");
    reveal_strlit("dotenvx");
    reveal_strlit("cross-env");
    reveal_strlit("concurrently");
    reveal_strlit("turbo");
    reveal_strlit("nx");
    reveal_strlit("make");
    reveal_strlit("env");
}

proof fn lemma_stem(n: Seq<char>, b: Seq<char>)
    requires
        lacks(n, '.'),
    ensures
        stem(b) == n <==> b == n || b == n + ".js"@ || b == n + ".cjs"@ || b == n + ".mjs"@,
{
    reveal_strlit(".js");
    reveal_strlit(".cjs");
    reveal_strlit(".mjs");
    let j = ".js"@;
    let c = ".cjs"@;
    let m = ".mjs"@;
    if stem(b) == n {
        if j.is_suffix_of(b) {
            assert(b =~= n + j);
        } else if c.is_suffix_of(b) {
            assert(b =~= n + c);
        } else if m.is_suffix_of(b) {
            assert(b =~= n + m);
        }
    }
    if b == n {
        assert(!j.is_suffix_of(b)) by {
            if j.is_suffix_of(b) {
                assert(b.subrange(b.len() - 3, b.len() as int)[0] == '.');
                assert(n[b.len() - 3] != '.');
            }
        }
        assert(!c.is_suffix_of(b)) by {
            if c.is_suffix_of(b) {
                assert(b.subrange(b.len() - 4, b.len() as int)[0] == '.');
                assert(n[b.len() - 4] != '.');
            }
        }
        assert(!m.is_suffix_of(b)) by {
            if m.is_suffix_of(b) {
                assert(b.subrange(b.len() - 4, b.len() as int)[0] == '.');
                assert(n[b.len() - 4] != '.');
            }
        }
    }
    if b == n + j {
        assert(b.subrange(b.len() - 3, b.len() as int) =~= j);
        assert(b.take(b.len() - 3) =~= n);
    }
    if b == n + c {
        assert(b.subrange(b.len() - 4, b.len() as int) =~= c);
        assert(!j.is_suffix_of(b)) by {
            if j.is_suffix_of(b) {
                assert(b.subrange(b.len() - 3, b.len() as int)[0] == '.');
                assert(b[b.len() - 3] == c[1]);
            }
        }
        assert(b.take(b.len() - 4) =~= n);
    }
    if b == n + m {
        assert(b.subrange(b.len() - 4, b.len() as int) =~= m);
        assert(!j.is_suffix_of(b)) by {
            if j.is_suffix_of(b) {
                assert(b.subrange(b.len() - 3, b.len() as int)[0] == '.');
                assert(b[b.len() - 3] == m[1]);
            }
        }
        assert(!c.is_suffix_of(b)) by {
            if c.is_suffix_of(b) {
                assert(b.subrange(b.len() - 4, b.len() as int)[1] == 'c');
                assert(b[b.len() - 3] == m[1]);
            }
        }
        assert(b.take(b.len() - 4) =~= n);
    }
}

proof fn lemma_launchers(b: Seq<char>)
    ensures
        wraps(b) <==> is_launcher_file(b),
{
    lemma_launcher_letters();
    let names = launcher_names();
    if wraps(b) {
        let i = choose|i: int| 0 <= i < names.len() && #[trigger] names[i] == stem(b);
        assert(exists|i: int| 0 <= i < names.len() && #[trigger] names[i] == stem(b)) by {
            assert(names[0] == "pnpm"@ && names[1] == "npm"@ && names[2] == "npx"@ && names[3]
                == "yarn"@ && names[4] == "bun"@ && names[5] == "node"@ && names[6] == "deno"@
                && names[7] == "ts-node"@ && names[8] == "tsx"@ && names[9] == "dotenv"@
                && names[10] == "dotenvx"@ && names[11] == "cross-env"@ && names[12]
                == "concurrently"@ && names[13] == "turbo"@ && names[14] == "nx"@ && names[15]
                == "make"@ && names[16] == "env"@);
        }
        lemma_stem(names[i], b);
    }
    if is_launcher_file(b) {
        let i = choose|i: int|
            0 <= i < names.len() && {
                ||| b == #[trigger] names[i]
                ||| b == names[i] + ".js"@
                ||| b == names[i] + ".cjs"@
                ||| b == names[i] + ".mjs"@
            };
        lemma_stem(names[i], b);
    }
}

proof fn lemma_dashed(b: Seq<char>, s: Seq<char>)
    requires
        s.len() > 0,
        s[0] != '-',
    ensures
        text::without_leading(b, '-') == s <==> s.is_suffix_of(b) && forall|j: int|
            0 <= j < b.len() - s.len() ==> #[trigger] b[j] == '-',
    decreases b.len(),
{
    if b.len() > 0 && b[0] == '-' {
        let d = b.drop_first();
        lemma_dashed(d, s);
        if text::without_leading(b, '-') == s {
            assert(b.subrange(b.len() - s.len(), b.len() as int) =~= d.subrange(
                d.len() - s.len(),
                d.len() as int,
            ));
            assert forall|j: int| 0 <= j < b.len() - s.len() implies #[trigger] b[j] == '-' by {
                if j > 0 {
                    assert(b[j] == d[j - 1]);
                }
            }
        }
        if s.is_suffix_of(b) && forall|j: int|
            0 <= j < b.len() - s.len() ==> #[trigger] b[j] == '-' {
            assert(s.len() < b.len()) by {
                if s.len() == b.len() {
                    assert(b.subrange(0, b.len() as int)[0] == s[0]);
                }
            }
            assert(b.subrange(b.len() - s.len(), b.len() as int) =~= d.subrange(
                d.len() - s.len(),
                d.len() as int,
            ));
            assert forall|j: int| 0 <= j < d.len() - s.len() implies #[trigger] d[j] == '-' by {
                assert(b[j + 1] == d[j]);
            }
        }
    } else {
        if text::without_leading(b, '-') == s {
            assert(b.subrange(0, b.len() as int) =~= b);
        }
        if s.is_suffix_of(b) && forall|j: int|
            0 <= j < b.len() - s.len() ==> #[trigger] b[j] == '-' {
            if s.len() < b.len() {
                assert(b[0] == '-');
            }
            assert(b.subrange(0, b.len() as int) =~= b);
        }
    }
}

pub proof fn lemma_shells(b: Seq<char>)
    ensures
        names_shell(b) <==> is_shell_file(b),
{
    reveal_strlit("zsh");
    reveal_strlit("bash");
    reveal_strlit("sh");
    reveal_strlit("fish");
    reveal_strlit("dash");
    reveal_strlit("ksh");
    reveal_strlit("tcsh");
    let names = shell_names();
    assert forall|i: int| 0 <= i < names.len() implies {
        let s = #[trigger] names[i];
        text::without_leading(b, '-') == s <==> s.is_suffix_of(b) && forall|j: int|
            0 <= j < b.len() - s.len() ==> #[trigger] b[j] == '-'
    } by {
        lemma_dashed(b, names[i]);
    }
    if names_shell(b) {
        assert(names[0] == "zsh"@ && names[1] == "bash"@ && names[2] == "sh"@ && names[3]
            == "fish"@ && names[4] == "dash"@ && names[5] == "ksh"@ && names[6] == "tcsh"@);
        assert(exists|i: int| 0 <= i < names.len() && #[trigger] names[i] == text::without_leading(
            b,
            '-',
        ));
    }
}

/// The command line starts a program that is neither a launcher nor a shell.
pub open spec fn starts_program(argv: Seq<Seq<char>>) -> bool {
    argv.len() > 0 && !is_launcher_file(base(argv[0])) && !is_shell_file(base(argv[0]))
}

proof fn lemma_runs(argv: Seq<Seq<char>>)
    ensures
        runs_program(argv) <==> starts_program(argv),
{
    if argv.len() > 0 {
        lemma_launchers(base(argv[0]));
        lemma_shells(base(argv[0]));
    }
}

proof fn lemma_no_known(argvs: Seq<Seq<Seq<char>>>)
    requires
        forall|i: int| 0 <= i < argvs.len() ==> tool_of(#[trigger] argvs[i]) is None,
    ensures
        first_known(argvs) is None,
    decreases argvs.len(),
{
    if argvs.len() > 0 {
        let d = argvs.drop_last();
        assert forall|i: int| 0 <= i < d.len() implies tool_of(#[trigger] d[i]) is None by {
            assert(d[i] == argvs[i]);
        }
        lemma_no_known(d);
        assert(argvs[argvs.len() - 1] == argvs.last());
    }
}

proof fn lemma_plain(argv: Seq<Seq<char>>)
    requires
        runs_program(argv),
    ensures
        plain_label(argv) == base(argv[0]),
{
    reveal_strlit("node");
    reveal_strlit(".js");
    if base(argv[0]) == "node"@ {
        lemma_launchers("node"@);
        assert(launcher_names()[5] == "node"@);
        assert(is_launcher_file("node"@));
    }
}

proof fn lemma_first_program(argvs: Seq<Seq<Seq<char>>>, k: int)
    requires
        0 <= k < argvs.len(),
        runs_program(argvs[k]),
        forall|j: int| 0 <= j < k ==> !runs_program(#[trigger] argvs[j]),
    ensures
        first_program(argvs) == Some(base(argvs[k][0])),
    decreases argvs.len(),
{
    let d = argvs.drop_last();
    if k == argvs.len() - 1 {
        assert forall|j: int| 0 <= j < d.len() implies !runs_program(#[trigger] d[j]) by {
            assert(d[j] == argvs[j]);
        }
        lemma_no_program(d);
        lemma_plain(argvs[k]);
    } else {
        assert(d[k] == argvs[k]);
        assert forall|j: int| 0 <= j < k implies !runs_program(#[trigger] d[j]) by {
            assert(d[j] == argvs[j]);
        }
        lemma_first_program(d, k);
    }
}

proof fn lemma_no_program(argvs: Seq<Seq<Seq<char>>>)
    requires
        forall|j: int| 0 <= j < argvs.len() ==> !runs_program(#[trigger] argvs[j]),
    ensures
        first_program(argvs) is None,
    decreases argvs.len(),
{
    if argvs.len() > 0 {
        let d = argvs.drop_last();
        assert forall|j: int| 0 <= j < d.len() implies !runs_program(#[trigger] d[j]) by {
            assert(d[j] == argvs[j]);
        }
        lemma_no_program(d);
        assert(argvs[argvs.len() - 1] == argvs.last());
    }
}

/// Labels see through launchers: where no command line of the subtree is a known tool and
/// some command line starts a program that is neither a launcher nor a shell, the label is
/// the name of the first such program, so it is then never the name of a launcher or of a
/// shell.
pub proof fn labels_see_through_launchers(argvs: Seq<Seq<Seq<char>>>, k: int)
    requires
        forall|i: int| 0 <= i < argvs.len() ==> tool_of(#[trigger] argvs[i]) is None,
        0 <= k < argvs.len(),
        starts_program(argvs[k]),
        forall|j: int| 0 <= j < k ==> !starts_program(#[trigger] argvs[j]),
    ensures
        subtree_label(argvs) == base(argvs[k][0]),
        !is_launcher_file(subtree_label(argvs)),
        !is_shell_file(subtree_label(argvs)),
{
    lemma_no_known(argvs);
    lemma_runs(argvs[k]);
    assert forall|j: int| 0 <= j < k implies !runs_program(#[trigger] argvs[j]) by {
        lemma_runs(argvs[j]);
        assert(!starts_program(argvs[j]));
    }
    lemma_first_program(argvs, k);
}

/// Where nothing but launchers and shells runs, the label is that of the anchor: a
/// launcher with the file it starts, unless a flag stands there, otherwise the bare name.
pub proof fn bare_launchers_show_what_they_start(argvs: Seq<Seq<Seq<char>>>)
    requires
        forall|i: int| 0 <= i < argvs.len() ==> tool_of(#[trigger] argvs[i]) is None,
        forall|i: int| 0 <= i < argvs.len() ==> !starts_program(#[trigger] argvs[i]),
    ensures
        argvs.len() == 0 || argvs[0].len() == 0 ==> subtree_label(argvs) == "?"@,
        argvs.len() > 0 && argvs[0].len() > 1 && is_launcher_file(base(argvs[0][0])) && !(
        argvs[0][1].len() > 0 && argvs[0][1][0] == '-') ==> subtree_label(argvs) == base(
            argvs[0][0],
        ) + " "@ + base(argvs[0][1]),
        argvs.len() > 0 && argvs[0].len() > 0 && (argvs[0].len() == 1 || argvs[0][1].len() > 0
            && argvs[0][1][0] == '-') ==> subtree_label(argvs) == base(argvs[0][0]),
{
    lemma_no_known(argvs);
    assert forall|j: int| 0 <= j < argvs.len() implies !runs_program(#[trigger] argvs[j]) by {
        lemma_runs(argvs[j]);
        assert(!starts_program(argvs[j]));
    }
    lemma_no_program(argvs);
    reveal_strlit("-");
    if argvs.len() > 0 && argvs[0].len() > 0 {
        lemma_launchers(base(argvs[0][0]));
        if argvs[0].len() > 1 {
            let a = argvs[0][1];
            if "-"@.is_prefix_of(a) {
                assert(a.subrange(0, 1)[0] == '-');
            } else if a.len() > 0 && a[0] == '-' {
                assert("-"@ =~= a.subrange(0, 1));
            }
        }
    }
}

/// A known tool anywhere in the subtree gives the label, whatever launchers, shells and
/// programs stand around it: the first command line that is one.
pub proof fn known_tools_win(argvs: Seq<Seq<Seq<char>>>, k: int)
    requires
        0 <= k < argvs.len(),
        tool_of(argvs[k]) is Some,
        forall|j: int| 0 <= j < k ==> tool_of(#[trigger] argvs[j]) is None,
    ensures
        Some(subtree_label(argvs)) == tool_of(argvs[k]),
    decreases argvs.len(),
{
    let d = argvs.drop_last();
    if k == argvs.len() - 1 {
        assert forall|j: int| 0 <= j < d.len() implies tool_of(#[trigger] d[j]) is None by {
            assert(d[j] == argvs[j]);
        }
        lemma_no_known(d);
    } else {
        assert(d[k] == argvs[k]);
        assert forall|j: int| 0 <= j < k implies tool_of(#[trigger] d[j]) is None by {
            assert(d[j] == argvs[j]);
        }
        known_tools_win(d, k);
        assert(first_known(d) is Some) by {
            lemma_known(d, k);
        }
    }
}

proof fn lemma_known(argvs: Seq<Seq<Seq<char>>>, k: int)
    requires
        0 <= k < argvs.len(),
        tool_of(argvs[k]) is Some,
    ensures
        first_known(argvs) is Some,
    decreases argvs.len(),
{
    if k < argvs.len() - 1 {
        assert(argvs.drop_last()[k] == argvs[k]);
        lemma_known(argvs.drop_last(), k);
    }
}

// ----------------------------------------------------------------------- tools

/// The phrases that say which tool runs, the first to occur first, each with its label.
pub open spec fn phrases() -> Seq<(Seq<char>, Seq<char>)> {
    seq![
        ("next dev"@, "next dev"@),
        ("manage.py runserver"@, "django runserver"@),
        ("mix phx.server"@, "phoenix"@),
        ("artisan serve"@, "php artisan serve"@),
        ("dotnet watch"@, "dotnet watch"@),
        ("dotnet run"@, "dotnet run"@),
        ("cargo run"@, "cargo run"@),
        ("rails server"@, "rails s"@),
        ("rails s"@, "rails s"@),
    ]
}

/// A phrase anywhere in a command line gives its label, unless an earlier one of the list
/// occurs too; a command line without a phrase has no label of this kind.
pub proof fn phrases_give_labels(line: Seq<char>, i: int)
    requires
        0 <= i < phrases().len(),
        forall|j: int| 0 <= j < i ==> !text::occurs((#[trigger] phrases()[j]).0, line),
    ensures
        text::occurs(phrases()[i].0, line) ==> multiword_label(line) == Some(phrases()[i].1),
        i == phrases().len() - 1 && !text::occurs(phrases()[i].0, line) ==> multiword_label(
            line,
        ) is None,
{
    let p = phrases();
    if i > 0 {
        assert(!text::occurs(p[0].0, line));
    }
    if i > 1 {
        assert(!text::occurs(p[1].0, line));
    }
    if i > 2 {
        assert(!text::occurs(p[2].0, line));
    }
    if i > 3 {
        assert(!text::occurs(p[3].0, line));
    }
    if i > 4 {
        assert(!text::occurs(p[4].0, line));
    }
    if i > 5 {
        assert(!text::occurs(p[5].0, line));
    }
    if i > 6 {
        assert(!text::occurs(p[6].0, line));
    }
    if i > 7 {
        assert(!text::occurs(p[7].0, line));
    }
}

/// Tools that go by the name of their program.
pub open spec fn plain_tools() -> Seq<Seq<char>> {
    seq![
        "vite"@,
        "nuxt"@,
        "astro"@,
        "remix"@,
        "webpack"@,
        "esbuild"@,
        "parcel"@,
        "storybook"@,
        "uvicorn"@,
        "gunicorn"@,
        "hypercorn"@,
        "flask"@,
        "celery"@,
        "streamlit"@,
        "puma"@,
        "unicorn"@,
        "sidekiq"@,
        "postgres"@,
        "memcached"@,
        "nodemon"@,
        "air"@,
    ]
}

/// Tools that go by another name than that of their program.
pub open spec fn renamed_tools() -> Seq<(Seq<char>, Seq<char>)> {
    seq![
        ("next"@, "next dev"@),
        ("postmaster"@, "postgres"@),
        ("redis-server"@, "redis"@),
        ("mysqld"@, "mysql"@),
        ("mongod"@, "mongodb"@),
    ]
}

/// A tool goes by the name of its program, but for the few that have another; no other
/// program is a tool.
pub proof fn tools_go_by_their_names(name: Seq<char>)
    ensures
        forall|i: int|
            0 <= i < plain_tools().len() && name == #[trigger] plain_tools()[i] ==> tool_label(name)
                == Some(name),
        forall|i: int|
            0 <= i < renamed_tools().len() && name == (#[trigger] renamed_tools()[i]).0
                ==> tool_label(name) == Some(renamed_tools()[i].1),
        tool_label(name) is Some ==> plain_tools().contains(name) || exists|i: int|
            0 <= i < renamed_tools().len() && (#[trigger] renamed_tools()[i]).0 == name,
{
    reveal_strlit("vite");
    reveal_strlit("nuxt");
    reveal_strlit("astro");
    reveal_strlit("remix");
    reveal_strlit("webpack");
    reveal_strlit("esbuild");
    reveal_strlit("parcel");
    reveal_strlit("storybook");
    reveal_strlit("uvicorn");
    reveal_strlit("gunicorn");
    reveal_strlit("hypercorn");
    reveal_strlit("flask");
    reveal_strlit("celery");
    reveal_strlit("streamlit");
    reveal_strlit("puma");
    reveal_strlit("unicorn");
    reveal_strlit("sidekiq");
    reveal_strlit("postgres");
    reveal_strlit("memcached");
    reveal_strlit("nodemon");
    reveal_strlit("air");
    reveal_strlit("next");
    reveal_strlit("postmaster");
    reveal_strlit("redis-server");
    reveal_strlit("mysqld");
    reveal_strlit("mongod");
    assert("next"@[1] == 'e' && "nuxt"@[1] == 'u' && "vite"@[1] == 'i' && "puma"@[1] == 'u');
    assert("mysqld"@[1] == 'y' && "mongod"@[1] == 'o' && "parcel"@[1] == 'a' && "celery"@[1]
        == 'e');
    if tool_label(name) is Some {
        let p = plain_tools();
        let r = renamed_tools();
        assert(p[0] == "vite"@ && p[1] == "nuxt"@ && p[2] == "astro"@ && p[3] == "remix"@ && p[4]
            == "webpack"@ && p[5] == "esbuild"@ && p[6] == "parcel"@ && p[7] == "storybook"@
            && p[8] == "uvicorn"@ && p[9] == "gunicorn"@ && p[10] == "hypercorn"@ && p[11]
            == "flask"@ && p[12] == "celery"@ && p[13] == "streamlit"@ && p[14] == "puma"@
            && p[15] == "unicorn"@ && p[16] == "sidekiq"@ && p[17] == "postgres"@ && p[18]
            == "memcached"@ && p[19] == "nodemon"@ && p[20] == "air"@);
        assert(r[0].0 == "next"@ && r[1].0 == "postmaster"@ && r[2].0 == "redis-server"@ && r[3].0
            == "mysqld"@ && r[4].0 == "mongod"@);
    }
}

/// A tool is found at any place of a command line, in any directory and as a script: the
/// first argument that is one gives the label, where no phrase does.
pub proof fn tools_are_found_anywhere(argv: Seq<Seq<char>>, k: int)
    requires
        0 <= k < argv.len(),
        multiword_label(text::joined(argv, " "@)) is None,
        tool_label(stem(base(argv[k]))) is Some,
        forall|j: int| 0 <= j < k ==> tool_label(stem(base(#[trigger] argv[j]))) is None,
    ensures
        tool_of(argv) == tool_label(stem(base(argv[k]))),
{
    lemma_first_tool(argv, k);
}

/// A phrase decides before any tool among the arguments does, and where neither does the
/// command as a whole decides.
pub proof fn phrases_decide_first(argv: Seq<Seq<char>>)
    ensures
        multiword_label(text::joined(argv, " "@)) is Some ==> tool_of(argv) == multiword_label(
            text::joined(argv, " "@),
        ),
        multiword_label(text::joined(argv, " "@)) is None && (forall|j: int|
            0 <= j < argv.len() ==> tool_label(stem(base(#[trigger] argv[j]))) is None) ==> tool_of(
            argv,
        ) == command_label(text::joined(argv, " "@)),
{
    if forall|j: int| 0 <= j < argv.len() ==> tool_label(stem(base(#[trigger] argv[j]))) is None {
        lemma_no_tool(argv);
    }
}

proof fn lemma_first_tool(argv: Seq<Seq<char>>, k: int)
    requires
        0 <= k < argv.len(),
        tool_label(stem(base(argv[k]))) is Some,
        forall|j: int| 0 <= j < k ==> tool_label(stem(base(#[trigger] argv[j]))) is None,
    ensures
        first_tool(argv) == tool_label(stem(base(argv[k]))),
    decreases argv.len(),
{
    let d = argv.drop_last();
    if k == argv.len() - 1 {
        assert forall|j: int| 0 <= j < d.len() implies tool_label(
            stem(base(#[trigger] d[j])),
        ) is None by {
            assert(d[j] == argv[j]);
        }
        lemma_no_tool(d);
    } else {
        assert(d[k] == argv[k]);
        assert forall|j: int| 0 <= j < k implies tool_label(stem(base(#[trigger] d[j]))) is None by {
            assert(d[j] == argv[j]);
        }
        lemma_first_tool(d, k);
    }
}

proof fn lemma_no_tool(argv: Seq<Seq<char>>)
    requires
        forall|j: int|
            0 <= j < argv.len() ==> tool_label(stem(base(#[trigger] argv[j]))) is None,
    ensures
        first_tool(argv) is None,
    decreases argv.len(),
{
    if argv.len() > 0 {
        let d = argv.drop_last();
        assert forall|j: int| 0 <= j < d.len() implies tool_label(
            stem(base(#[trigger] d[j])),
        ) is None by {
            assert(d[j] == argv[j]);
        }
        lemma_no_tool(d);
        assert(argv[argv.len() - 1] == argv.last());
    }
}

/// The command line has the words as whole words: at its start, behind a space or behind a
/// slash, and up to a space or its end.
pub open spec fn has_words(line: Seq<char>, words: Seq<char>) -> bool {
    exists|i: int|
        {
            &&& #[trigger] text::stands_at(line, words, i)
            &&& i == 0 || line[i - 1] == ' ' || line[i - 1] == '/'
            &&& i + words.len() == line.len() || line[i + words.len()] == ' '
        }
}

proof fn lemma_says(line: Seq<char>, words: Seq<char>)
    requires
        words.len() > 0,
    ensures
        says(line, words) <==> has_words(line, words),
{
    reveal_strlit(" ");
    reveal_strlit("/");
    let big = " "@ + line + " "@;
    if says(line, words) {
        let head = if text::occurs(" "@ + words + " "@, big) { " "@ } else { "/"@ };
        let p = head + words + " "@;
        let i = choose|i: int| #[trigger] text::stands_at(big, p, i);
        let q = big.subrange(i, (i + p.len()) as int);
        assert(q == p);
        assert(q[0] == big[i]);
        assert(q[(words.len() + 1) as int] == big[i + words.len() + 1]);
        assert(p[(words.len() + 1) as int] == ' ');
        assert forall|x: int| 0 <= x < words.len() implies line[i + x] == words[x] by {
            assert(q[x + 1] == big[i + x + 1]);
            assert(p[x + 1] == words[x]);
        }
        assert(line.subrange(i, (i + words.len()) as int) =~= words);
        assert(text::stands_at(line, words, i));
    }
    if has_words(line, words) {
        let i = choose|i: int|
            {
                &&& #[trigger] text::stands_at(line, words, i)
                &&& i == 0 || line[i - 1] == ' ' || line[i - 1] == '/'
                &&& i + words.len() == line.len() || line[i + words.len()] == ' '
            };
        let head = if i > 0 && line[i - 1] == '/' { "/"@ } else { " "@ };
        let p = head + words + " "@;
        let q = big.subrange(i, (i + p.len()) as int);
        assert forall|x: int| 0 <= x < p.len() implies q[x] == p[x] by {
            if 0 < x <= words.len() {
                assert(line.subrange(i, (i + words.len()) as int)[x - 1] == line[i + x - 1]);
            }
        }
        assert(q =~= p);
        assert(text::stands_at(big, p, i));
    }
}

/// A command that is no known tool by its program gets a label where its line says so in
/// whole words; `gopher run` is no `go run`.
pub proof fn commands_give_labels(line: Seq<char>)
    ensures
        has_words(line, "go run"@) ==> command_label(line) == Some("go run"@),
        !has_words(line, "go run"@) && (has_words(line, "gradle bootRun"@) || has_words(
            line,
            "gradlew bootRun"@,
        )) ==> command_label(line) == Some("gradle bootRun"@),
        !has_words(line, "go run"@) && !has_words(line, "gradle bootRun"@) && !has_words(
            line,
            "gradlew bootRun"@,
        ) ==> {
            &&& text::occurs("spring-boot:run"@, line) ==> command_label(line) == Some(
                "spring-boot:run"@,
            )
            &&& !text::occurs("spring-boot:run"@, line) && has_words(line, "java -jar"@)
                ==> command_label(line) == Some("java -jar"@)
            &&& !text::occurs("spring-boot:run"@, line) && !has_words(line, "java -jar"@)
                ==> command_label(line) == (if has_words(line, "php -S"@) {
                Some("php -S"@)
            } else {
                None
            })
        },
{
    reveal_strlit("go run");
    reveal_strlit("gradle bootRun");
    reveal_strlit("gradlew bootRun");
    reveal_strlit("java -jar");
    reveal_strlit("php -S");
    lemma_says(line, "go run"@);
    lemma_says(line, "gradle bootRun"@);
    lemma_says(line, "gradlew bootRun"@);
    lemma_says(line, "java -jar"@);
    lemma_says(line, "php -S"@);
}

// ------------------------------------------------------------------------ URLs

/// Which scheme a label's URL has.
pub open spec fn scheme_word(label: Seq<char>) -> Seq<char> {
    if label == "postgres"@ || label == "redis"@ || label == "mysql"@ || label == "mongodb"@ {
        label
    } else {
        "http"@
    }
}

proof fn lemma_url_head(label: Seq<char>)
    ensures
        url_head(label).1 == scheme_word(label) + "://localhost:"@,
{
    reveal_strlit("://localhost:");
    if label == "postgres"@ {
        reveal_strlit("postgres");
        reveal_strlit("postgres://localhost:");
        assert("postgres"@ + "://localhost:"@ =~= "postgres://localhost:"@);
    } else if label == "redis"@ {
        reveal_strlit("redis");
        reveal_strlit("redis://localhost:");
        assert("redis"@ + "://localhost:"@ =~= "redis://localhost:"@);
    } else if label == "mysql"@ {
        reveal_strlit("mysql");
        reveal_strlit("mysql://localhost:");
        assert("mysql"@ + "://localhost:"@ =~= "mysql://localhost:"@);
    } else if label == "mongodb"@ {
        reveal_strlit("mongodb");
        reveal_strlit("mongodb://localhost:");
        assert("mongodb"@ + "://localhost:"@ =~= "mongodb://localhost:"@);
    } else {
        reveal_strlit("http");
        reveal_strlit("http://localhost:");
        assert("http"@ + "://localhost:"@ =~= "http://localhost:"@);
    }
}

proof fn lemma_scheme_words()
    ensures
        "postgres"@ != "http"@,
        "redis"@ != "http"@,
        "mysql"@ != "http"@,
        "mongodb"@ != "http"@,
        "postgres"@ != "redis"@,
        "postgres"@ != "mysql"@,
        "postgres"@ != "mongodb"@,
        "redis"@ != "mysql"@,
        "redis"@ != "mongodb"@,
        "mysql"@ != "mongodb"@,
{
    reveal_strlit("http");
    reveal_strlit("postgres");
    reveal_strlit("redis");
    reveal_strlit("mysql");
    reveal_strlit("mongodb");
    assert("redis"@[0] == 'r' && "mysql"@[0] == 'm');
    assert("http"@.len() == 4 && "postgres"@.len() == 8 && "redis"@.len() == 5 && "mysql"@.len()
        == 5 && "mongodb"@.len() == 7);
}

/// The standard URL of a port is the scheme of what listens there, this machine and the
/// port, and targets on two ports have two URLs.
pub proof fn urls_name_the_port(label: Seq<char>, p: u16, q: u16)
    ensures
        standard_url(label, p).value == scheme_word(label) + "://localhost:"@ + text::decimal(
            p as nat,
        ),
        standard_url(label, p).value == standard_url(label, q).value ==> p == q,
        label_url(label, Some(p)) == Some(standard_url(label, p)),
        label_url(label, None) is None,
{
    lemma_url_head(label);
    text::lemma_decimal(p as nat);
    text::lemma_decimal(q as nat);
    let head = scheme_word(label) + "://localhost:"@;
    let a = head + text::decimal(p as nat);
    let b = head + text::decimal(q as nat);
    if a == b {
        assert(a.skip(head.len() as int) =~= text::decimal(p as nat));
        assert(b.skip(head.len() as int) =~= text::decimal(q as nat));
    }
}

/// The scheme of a standard URL is that of the database or the cache that it leads to, and
/// the web's for everything else.
pub proof fn schemes_go_by_the_label(label: Seq<char>, p: u16)
    ensures
        standard_url(label, p).scheme is Http <==> scheme_word(label) == "http"@,
        label == "postgres"@ <==> standard_url(label, p).scheme is Postgres,
        label == "redis"@ <==> standard_url(label, p).scheme is Redis,
        label == "mysql"@ <==> standard_url(label, p).scheme is Mysql,
        label == "mongodb"@ <==> standard_url(label, p).scheme is Other,
{
    lemma_scheme_words();
}

proof fn lemma_nothing_to_replace(s: Seq<char>, pat: Seq<char>, with: Seq<char>)
    requires
        pat.len() > 0,
        forall|i: int| !#[trigger] text::stands_at(s, pat, i),
    ensures
        text::replaced(s, pat, with) == s,
    decreases s.len(),
{
    if s.len() >= pat.len() {
        assert(!text::stands_at(s, pat, 0));
        let d = s.drop_first();
        assert forall|i: int| !#[trigger] text::stands_at(d, pat, i) by {
            if text::stands_at(d, pat, i) {
                assert(s.subrange(i + 1, i + 1 + pat.len()) =~= d.subrange(i, i + pat.len()));
                assert(text::stands_at(s, pat, i + 1));
            }
        }
        lemma_nothing_to_replace(d, pat, with);
        assert(seq![s[0]] + d =~= s);
    }
}

proof fn lemma_replaced_at(s: Seq<char>, pat: Seq<char>, with: Seq<char>, k: int)
    requires
        pat.len() > 0,
        text::first_at(s, pat, k),
    ensures
        text::replaced(s, pat, with) == s.take(k) + with + text::replaced(
            s.skip(k + pat.len()),
            pat,
            with,
        ),
    decreases s.len(),
{
    if k == 0 {
        assert(s.take(0) + with =~= with);
    } else {
        assert(!text::stands_at(s, pat, 0));
        let d = s.drop_first();
        assert(d.subrange(k - 1, k - 1 + pat.len()) =~= s.subrange(k, k + pat.len()));
        assert(text::stands_at(d, pat, k - 1));
        assert forall|j: int| 0 <= j < k - 1 implies !#[trigger] text::stands_at(d, pat, j) by {
            if text::stands_at(d, pat, j) {
                assert(s.subrange(j + 1, j + 1 + pat.len()) =~= d.subrange(j, j + pat.len()));
                assert(text::stands_at(s, pat, j + 1));
            }
        }
        lemma_replaced_at(d, pat, with, k - 1);
        assert(d.skip(k - 1 + pat.len()) =~= s.skip(k + pat.len()));
        assert(seq![s[0]] + d.take(k - 1) =~= s.take(k));
        let rest = text::replaced(s.skip(k + pat.len()), pat, with);
        assert(seq![s[0]] + (d.take(k - 1) + with + rest) =~= s.take(k) + with + rest);
    }
}

/// A rule's URL is its template with the port in the place of `{port}`: a template
/// without that place stays as it is, and the first place is filled with the port and
/// what stands ahead of it kept. Its scheme is the one it begins with.
pub proof fn templates_take_the_port(label: Seq<char>, tpl: Seq<char>, p: u16, k: int)
    ensures
        rule_url(label, Some(tpl), Some(p)) is Some,
        !text::occurs("{port}"@, tpl) ==> rule_url(label, Some(tpl), Some(p))->0.value == tpl,
        text::first_at(tpl, "{port}"@, k) && !text::occurs("{port}"@, tpl.skip(k + 6)) ==> rule_url(
            label,
            Some(tpl),
            Some(p),
        )->0.value == tpl.take(k) + text::decimal(p as nat) + tpl.skip(k + 6),
        rule_url(label, None, Some(p)) == Some(standard_url(label, p)),
{
    reveal_strlit("{port}");
    let d = text::decimal(p as nat);
    if !text::occurs("{port}"@, tpl) {
        lemma_nothing_to_replace(tpl, "{port}"@, d);
    }
    if text::first_at(tpl, "{port}"@, k) && !text::occurs("{port}"@, tpl.skip(k + 6)) {
        lemma_replaced_at(tpl, "{port}"@, d, k);
        lemma_nothing_to_replace(tpl.skip(k + 6), "{port}"@, d);
    }
}

proof fn lemma_no_web(x: Seq<char>)
    requires
        x.len() > 0,
        x[0] != 'h',
    ensures
        !"https://"@.is_prefix_of(x),
        !"http://"@.is_prefix_of(x),
{
    reveal_strlit("https://");
    reveal_strlit("http://");
    if "https://"@.is_prefix_of(x) {
        assert(x.subrange(0, 8)[0] == 'h');
    }
    if "http://"@.is_prefix_of(x) {
        assert(x.subrange(0, 7)[0] == 'h');
    }
}

/// The scheme of a URL is the word it begins with.
pub proof fn schemes_are_read_off(rest: Seq<char>)
    ensures
        shown_scheme("https://"@ + rest) is Https,
        shown_scheme("http://"@ + rest) is Http,
        shown_scheme("postgres"@ + rest) is Postgres,
        shown_scheme("redis"@ + rest) is Redis,
        shown_scheme("mysql"@ + rest) is Mysql,
{
    reveal_strlit("https://");
    reveal_strlit("http://");
    reveal_strlit("postgres");
    reveal_strlit("redis");
    reveal_strlit("mysql");
    let s = "https://"@ + rest;
    let h = "http://"@ + rest;
    let p = "postgres"@ + rest;
    let r = "redis"@ + rest;
    let m = "mysql"@ + rest;
    assert("https://"@ =~= s.subrange(0, 8));
    assert("http://"@ =~= h.subrange(0, 7));
    assert("postgres"@ =~= p.subrange(0, 8));
    assert("redis"@ =~= r.subrange(0, 5));
    assert("mysql"@ =~= m.subrange(0, 5));
    if "https://"@.is_prefix_of(h) {
        assert(h.subrange(0, 8)[4] == 's');
        assert(h[4] == ':');
    }
    assert(p[0] == 'p' && r[0] == 'r' && m[0] == 'm');
    lemma_no_web(p);
    lemma_no_web(r);
    lemma_no_web(m);
    if "postgres"@.is_prefix_of(r) {
        assert(r.subrange(0, 8)[0] == 'p');
    }
    if "postgres"@.is_prefix_of(m) {
        assert(m.subrange(0, 8)[0] == 'p');
    }
    if "redis"@.is_prefix_of(m) {
        assert(m.subrange(0, 5)[0] == 'r');
    }
}

// ----------------------------------------------------------------- user's rules

/// Some rule of the user's matches the command line.
pub open spec fn any_rule_matches(rules: Seq<CmdRule>, argv: Seq<Seq<char>>) -> bool {
    exists|j: int|
        0 <= j < rules.len() && patterns::matches(
            (#[trigger] rules[j]).re,
            text::joined(argv, " "@),
        )
}

proof fn lemma_line_hit(hits: Seq<Seq<bool>>, i: int)
    requires
        0 <= i < hits.len(),
        first_hit(hits[i]) is Some,
        forall|k: int| 0 <= k < i ==> first_hit(#[trigger] hits[k]) is None,
    ensures
        first_line_hit(hits) == first_hit(hits[i]),
    decreases hits.len(),
{
    let d = hits.drop_last();
    if i == hits.len() - 1 {
        assert forall|k: int| 0 <= k < d.len() implies first_hit(#[trigger] d[k]) is None by {
            assert(d[k] == hits[k]);
        }
        lemma_no_line_hit(d);
    } else {
        assert(d[i] == hits[i]);
        assert forall|k: int| 0 <= k < i implies first_hit(#[trigger] d[k]) is None by {
            assert(d[k] == hits[k]);
        }
        lemma_line_hit(d, i);
    }
}

proof fn lemma_no_line_hit(hits: Seq<Seq<bool>>)
    requires
        forall|k: int| 0 <= k < hits.len() ==> first_hit(#[trigger] hits[k]) is None,
    ensures
        first_line_hit(hits) is None,
    decreases hits.len(),
{
    if hits.len() > 0 {
        let d = hits.drop_last();
        assert forall|k: int| 0 <= k < d.len() implies first_hit(#[trigger] d[k]) is None by {
            assert(d[k] == hits[k]);
        }
        lemma_no_line_hit(d);
        assert(hits[hits.len() - 1] == hits.last());
    }
}

/// The first rule that matches the first command line that any rule matches gives the
/// label, and its template the URL.
pub proof fn first_rule_on_the_first_line_wins(
    rules: Seq<CmdRule>,
    argvs: Seq<Seq<Seq<char>>>,
    port: Option<u16>,
    i: int,
    j: int,
)
    requires
        0 <= i < argvs.len(),
        0 <= j < rules.len(),
        patterns::matches(rules[j].re, text::joined(argvs[i], " "@)),
        forall|k: int| 0 <= k < i ==> !any_rule_matches(rules, #[trigger] argvs[k]),
        forall|k: int|
            0 <= k < j ==> !patterns::matches(
                (#[trigger] rules[k]).re,
                text::joined(argvs[i], " "@),
            ),
    ensures
        label_given(rules, all_cmd_hits(rules, argvs), argvs, port) == (
            rules[j].label@,
            rule_url(rules[j].label@, opt_text(rules[j].url), port),
        ),
{
    let hits = all_cmd_hits(rules, argvs);
    assert(hits[i] == cmd_hits(rules, text::joined(argvs[i], " "@)));
    assert forall|k: int| 0 <= k < j implies !#[trigger] hits[i][k] by {
        assert(!patterns::matches(rules[k].re, text::joined(argvs[i], " "@)));
    }
    lemma_is_first_hit(hits[i], j);
    assert forall|k: int| 0 <= k < i implies first_hit(#[trigger] hits[k]) is None by {
        assert(!any_rule_matches(rules, argvs[k]));
        lemma_first_hit(hits[k]);
        if first_hit(hits[k]) is Some {
            let x = first_hit(hits[k])->0;
            assert(hits[k][x] == patterns::matches(rules[x].re, text::joined(argvs[k], " "@)));
        }
    }
    lemma_line_hit(hits, i);
}

/// Where no rule matches, the built-in knowledge names the subtree and its URL.
pub proof fn without_a_rule_the_subtree_speaks(
    rules: Seq<CmdRule>,
    argvs: Seq<Seq<Seq<char>>>,
    port: Option<u16>,
)
    requires
        forall|k: int| 0 <= k < argvs.len() ==> !any_rule_matches(rules, #[trigger] argvs[k]),
    ensures
        label_given(rules, all_cmd_hits(rules, argvs), argvs, port) == (
            subtree_label(argvs),
            label_url(subtree_label(argvs), port),
        ),
{
    let hits = all_cmd_hits(rules, argvs);
    assert forall|k: int| 0 <= k < hits.len() implies first_hit(#[trigger] hits[k]) is None by {
        assert(!any_rule_matches(rules, argvs[k]));
        lemma_first_hit(hits[k]);
        if first_hit(hits[k]) is Some {
            let x = first_hit(hits[k])->0;
            assert(hits[k][x] == patterns::matches(rules[x].re, text::joined(argvs[k], " "@)));
        }
    }
    lemma_no_line_hit(hits);
}

/// The rule names neither another port nor a pattern that fails on the line.
pub open spec fn override_fits(o: OverrideRule, line: Seq<char>, port: Option<u16>) -> bool {
    &&& o.port matches Some(p) ==> port == Some(p)
    &&& o.cmd matches Some(re) ==> patterns::matches(re, line)
}

/// The first override that fits replaces the project and the label that it gives and
/// keeps the others; where none fits, both stay.
pub proof fn first_override_wins(
    rules: Seq<OverrideRule>,
    line: Seq<char>,
    port: Option<u16>,
    project: Seq<char>,
    label: Seq<char>,
    j: int,
)
    ensures
        ({
            let out = overridden(rules, override_hits(rules, line), port, project, label);
            &&& 0 <= j < rules.len() && override_fits(rules[j], line, port) && (forall|k: int|
                0 <= k < j ==> !override_fits(#[trigger] rules[k], line, port)) ==> {
                &&& rules[j].project matches Some(p) ==> out.0 == p@
                &&& rules[j].project is None ==> out.0 == project
                &&& rules[j].label matches Some(l) ==> out.1 == l@
                &&& rules[j].label is None ==> out.1 == label
            }
            &&& (forall|k: int|
                0 <= k < rules.len() ==> !override_fits(#[trigger] rules[k], line, port)) ==> out
                == (project, label)
        }),
{
    let hits = overrides_for(rules, override_hits(rules, line), port);
    assert forall|k: int| 0 <= k < rules.len() implies #[trigger] hits[k] == override_fits(
        rules[k],
        line,
        port,
    ) by {}
    lemma_first_hit(hits);
    if 0 <= j < rules.len() && override_fits(rules[j], line, port) && (forall|k: int|
        0 <= k < j ==> !override_fits(#[trigger] rules[k], line, port)) {
        assert forall|k: int| 0 <= k < j implies !#[trigger] hits[k] by {
            assert(!override_fits(rules[k], line, port));
        }
        assert(hits[j]);
        lemma_is_first_hit(hits, j);
    }
    if forall|k: int| 0 <= k < rules.len() ==> !override_fits(#[trigger] rules[k], line, port) {
        if first_hit(hits) is Some {
            let x = first_hit(hits)->0;
            assert(!override_fits(rules[x], line, port));
        }
    }
}

/// A member of the group holds one of the ports, or is a part of the project or the label.
pub open spec fn sits_in(
    g: GroupRule,
    ports: Seq<u16>,
    project: Seq<char>,
    label: Seq<char>,
) -> bool {
    exists|k: int|
        0 <= k < g.selectors@.len() && match #[trigger] g.selectors@[k] {
            GroupSelector::Port(p) => exists|i: int| 0 <= i < ports.len() && #[trigger] ports[i] == p,
            GroupSelector::Text(t) => text::occurs(t@, text::lowercase(project)) || text::occurs(
                t@,
                text::lowercase(label),
            ),
        }
}

/// A target joins the first group that it sits in, and no group where it sits in none.
pub proof fn first_group_takes_the_target(
    groups: Seq<GroupRule>,
    ports: Seq<u16>,
    project: Seq<char>,
    label: Seq<char>,
    j: int,
)
    ensures
        0 <= j < groups.len() && sits_in(groups[j], ports, project, label) && (forall|k: int|
            0 <= k < j ==> !sits_in(#[trigger] groups[k], ports, project, label)) ==> group_of(
            groups,
            ports,
            project,
            label,
        ) == Some(groups[j].name@),
        (forall|k: int|
            0 <= k < groups.len() ==> !sits_in(#[trigger] groups[k], ports, project, label))
            ==> group_of(groups, ports, project, label) is None,
{
    let hits = Seq::new(groups.len(), |x: int| group_fits(groups[x], ports, project, label));
    assert forall|x: int| 0 <= x < groups.len() implies #[trigger] hits[x] == sits_in(
        groups[x],
        ports,
        project,
        label,
    ) by {
        let g = groups[x];
        if group_fits(g, ports, project, label) {
            let k = choose|k: int|
                0 <= k < g.selectors@.len() && selects(
                    #[trigger] g.selectors@[k],
                    ports,
                    project,
                    label,
                );
            assert(sits_in(g, ports, project, label));
        }
        if sits_in(g, ports, project, label) {
            let k = choose|k: int|
                0 <= k < g.selectors@.len() && match #[trigger] g.selectors@[k] {
                    GroupSelector::Port(p) => exists|i: int|
                        0 <= i < ports.len() && #[trigger] ports[i] == p,
                    GroupSelector::Text(t) => text::occurs(t@, text::lowercase(project))
                        || text::occurs(t@, text::lowercase(label)),
                };
            assert(selects(g.selectors@[k], ports, project, label));
        }
    }
    lemma_first_hit(hits);
    if 0 <= j < groups.len() && sits_in(groups[j], ports, project, label) && (forall|k: int|
        0 <= k < j ==> !sits_in(#[trigger] groups[k], ports, project, label)) {
        assert forall|k: int| 0 <= k < j implies !#[trigger] hits[k] by {
            assert(!sits_in(groups[k], ports, project, label));
        }
        assert(hits[j]);
        lemma_is_first_hit(hits, j);
    }
    if forall|k: int|
        0 <= k < groups.len() ==> !sits_in(#[trigger] groups[k], ports, project, label) {
        if first_hit(hits) is Some {
            let x = first_hit(hits)->0;
            assert(!sits_in(groups[x], ports, project, label));
        }
    }
}

/// A member of a group that spells a port, bare or behind a colon, is that port; a number
/// is that port where it can be one; any other text is sought in lower case.
pub proof fn members_are_ports_or_parts(m: Member, p: u16)
    ensures
        m matches Member::Integer(n) ==> (n == p ==> member_selects(m) == Some(
            GroupSelectorView::Port(p),
        )),
        m matches Member::Integer(n) ==> (n < 0 || n > 65535 ==> member_selects(m) is None),
        m matches Member::Text(s) ==> (s@ == text::decimal(p as nat) || s@ == ":"@ + text::decimal(
            p as nat,
        ) ==> member_selects(m) == Some(GroupSelectorView::Port(p))),
        m matches Member::Text(s) ==> (s@.len() > 0 && lacks(s@, ':') && !text::is_digit(s@.last())
            ==> member_selects(m) == Some(GroupSelectorView::Text(text::lowercase(s@)))),
        m is Other ==> member_selects(m) is None,
{
    crate::cli_laws::port_is_read_back(p);
    text::lemma_decimal(p as nat);
    crate::cli_laws::lemma_colon(text::decimal(p as nat));
    match m {
        Member::Text(s) => {
            if s@.len() > 0 && lacks(s@, ':') && !text::is_digit(s@.last()) {
                assert(s@[0] != ':');
                assert(text::without_leading(s@, ':') == s@);
                let d = text::unsigned(s@);
                if d.len() > 0 {
                    assert(d[d.len() - 1] == s@.last());
                }
            }
        },
        _ => {},
    }
}

/// A rule that names a port, a pattern or both hides exactly what has the port and
/// matches the pattern; a rule that names neither hides nothing.
pub proof fn ignores_hide_what_they_name(rules: Seq<IgnoreRule>, line: Seq<char>, ports: Seq<u16>)
    ensures
        hidden(rules, ignore_hits(rules, line), ports) <==> exists|j: int|
            {
                &&& 0 <= j < rules.len()
                &&& (#[trigger] rules[j]).port is Some || rules[j].cmd is Some
                &&& rules[j].port matches Some(p) ==> ports.contains(p)
                &&& rules[j].cmd matches Some(re) ==> patterns::matches(re, line)
            },
{
    let hits = ignore_hits(rules, line);
    if hidden(rules, hits, ports) {
        let j = choose|j: int|
            0 <= j < rules.len() && crate::resolve::hides(#[trigger] rules[j], hits[j], ports);
        assert(hits[j] == crate::resolve::pattern_holds(rules[j].cmd, line));
    }
    if exists|j: int|
        {
            &&& 0 <= j < rules.len()
            &&& (#[trigger] rules[j]).port is Some || rules[j].cmd is Some
            &&& rules[j].port matches Some(p) ==> ports.contains(p)
            &&& rules[j].cmd matches Some(re) ==> patterns::matches(re, line)
        } {
        let j = choose|j: int|
            {
                &&& 0 <= j < rules.len()
                &&& (#[trigger] rules[j]).port is Some || rules[j].cmd is Some
                &&& rules[j].port matches Some(p) ==> ports.contains(p)
                &&& rules[j].cmd matches Some(re) ==> patterns::matches(re, line)
            };
        assert(hits[j]);
        assert(crate::resolve::hides(rules[j], hits[j], ports));
    }
}

// -------------------------------------------------------------------- watchers

/// Some argument is the word.
pub open spec fn has_argument(argv: Seq<Seq<char>>, w: Seq<char>) -> bool {
    exists|i: int| 0 <= i < argv.len() && #[trigger] argv[i] == w
}

/// Some argument is the program, in whatever directory.
pub open spec fn mentions(argv: Seq<Seq<char>>, name: Seq<char>) -> bool {
    exists|i: int| 0 <= i < argv.len() && base(#[trigger] argv[i]) == name
}

/// A watch flag stands among the arguments as a word of its own.
pub open spec fn has_watch_flag(argv: Seq<Seq<char>>) -> bool {
    has_argument(argv, "--watch"@) || has_argument(argv, "-w"@)
}

/// Every command line with a watch flag watches, and so does one that mentions a program
/// that always does; nothing else does.
pub proof fn watching_is_recognised(argv: Seq<Seq<char>>)
    ensures
        watch_label(argv) is Some <==> has_watch_flag(argv) || mentions(argv, "vitest"@)
            || mentions(argv, "jest"@) || mentions(argv, "nodemon"@) || mentions(
            argv,
            "cargo-watch"@,
        ) || mentions(argv, "cargo"@) && has_argument(argv, "watch"@),
{
}

/// A watcher is named after its program, and only one that is not known by a name is a
/// plain watcher.
pub proof fn watchers_are_named(argv: Seq<Seq<char>>)
    ensures
        mentions(argv, "tsc"@) && has_watch_flag(argv) ==> watch_label(argv) == Some(
            "tsc --watch"@,
        ),
        !mentions(argv, "tsc"@) && mentions(argv, "vitest"@) ==> watch_label(argv) == Some(
            "vitest"@,
        ),
        !mentions(argv, "tsc"@) && !mentions(argv, "vitest"@) && mentions(argv, "jest"@)
            ==> watch_label(argv) == Some("jest"@),
        !mentions(argv, "tsc"@) && !mentions(argv, "vitest"@) && !mentions(argv, "jest"@) && (
        mentions(argv, "cargo-watch"@) || mentions(argv, "cargo"@) && has_argument(argv, "watch"@))
            ==> watch_label(argv) == Some("cargo watch"@),
        !mentions(argv, "tsc"@) && !mentions(argv, "vitest"@) && !mentions(argv, "jest"@)
            && !mentions(argv, "cargo-watch"@) && !mentions(argv, "cargo"@) ==> {
            &&& mentions(argv, "tailwindcss"@) && has_watch_flag(argv) ==> watch_label(argv)
                == Some("tailwind --watch"@)
            &&& !mentions(argv, "tailwindcss"@) && mentions(argv, "nodemon"@) ==> watch_label(argv)
                == Some("nodemon"@)
            &&& !mentions(argv, "tailwindcss"@) && !mentions(argv, "nodemon"@) && has_watch_flag(
                argv,
            ) ==> watch_label(argv) == Some("watch"@)
        },
{
}

/// The first watch rule that matches gives a watcher its label; where none does, the
/// built-in knowledge decides.
pub proof fn first_watch_rule_wins(
    rules: Seq<WatchRule>,
    line: Seq<char>,
    argv: Seq<Seq<char>>,
    j: int,
)
    ensures
        0 <= j < rules.len() && patterns::matches(rules[j].re, line) && (forall|k: int|
            0 <= k < j ==> !patterns::matches((#[trigger] rules[k]).re, line)) ==> watcher_given(
            rules,
            watch_hits(rules, line),
            argv,
        ) == Some(rules[j].label@),
        (forall|k: int|
            0 <= k < rules.len() ==> !patterns::matches((#[trigger] rules[k]).re, line))
            ==> watcher_given(rules, watch_hits(rules, line), argv) == watch_label(argv),
{
    let hits = watch_hits(rules, line);
    lemma_first_hit(hits);
    if 0 <= j < rules.len() && patterns::matches(rules[j].re, line) && (forall|k: int|
        0 <= k < j ==> !patterns::matches((#[trigger] rules[k]).re, line)) {
        assert forall|k: int| 0 <= k < j implies !#[trigger] hits[k] by {
            assert(!patterns::matches(rules[k].re, line));
        }
        assert(hits[j]);
        lemma_is_first_hit(hits, j);
    }
    if forall|k: int|
        0 <= k < rules.len() ==> !patterns::matches((#[trigger] rules[k]).re, line) {
        if first_hit(hits) is Some {
            let x = first_hit(hits)->0;
            assert(!patterns::matches(rules[x].re, line));
        }
    }
}

// --------------------------------------------------------------- configuration

/// Command rules come in the order of the file, one for each entry whose pattern
/// compiles, with its label and URL; an entry whose pattern does not is left out.
pub proof fn command_rules_come_from_the_file(a: Seq<RuleCfg>, b: Seq<RuleCfg>, c: RuleCfg)
    ensures
        compiled_rules(a + b) == compiled_rules(a) + compiled_rules(b),
        patterns::compiled(c.match_cmd@) matches Ok(re) ==> compiled_rules(seq![c]) == seq![
            CmdRule { re, label: c.label, url: c.url },
        ],
        patterns::compiled(c.match_cmd@) is Err ==> compiled_rules(seq![c]).len() == 0,
    decreases b.len(),
{
    assert(seq![c].drop_last() =~= Seq::<RuleCfg>::empty());
    reveal_with_fuel(compiled_rules, 2);
    if b.len() > 0 {
        command_rules_come_from_the_file(a, b.drop_last(), c);
        assert((a + b).drop_last() =~= a + b.drop_last());
        assert((a + b).last() == b.last());
        assert(compiled_rules(a + b) =~= compiled_rules(a) + compiled_rules(b));
    } else {
        assert(a + b =~= a);
        assert(compiled_rules(a) + compiled_rules(b) =~= compiled_rules(a));
    }
    match patterns::compiled(c.match_cmd@) {
        Ok(re) => {
            assert(compiled_rules(seq![c]) =~= seq![CmdRule { re, label: c.label, url: c.url }]);
        },
        Err(_) => {},
    }
}

/// Watch rules come in the order of the file, one for each entry whose pattern compiles,
/// with its label.
pub proof fn watch_rules_come_from_the_file(a: Seq<WatchCfg>, b: Seq<WatchCfg>, c: WatchCfg)
    ensures
        compiled_watches(a + b) == compiled_watches(a) + compiled_watches(b),
        patterns::compiled(c.match_cmd@) matches Ok(re) ==> compiled_watches(seq![c]) == seq![
            WatchRule { re, label: c.label },
        ],
        patterns::compiled(c.match_cmd@) is Err ==> compiled_watches(seq![c]).len() == 0,
    decreases b.len(),
{
    assert(seq![c].drop_last() =~= Seq::<WatchCfg>::empty());
    reveal_with_fuel(compiled_watches, 2);
    if b.len() > 0 {
        watch_rules_come_from_the_file(a, b.drop_last(), c);
        assert((a + b).drop_last() =~= a + b.drop_last());
        assert((a + b).last() == b.last());
        assert(compiled_watches(a + b) =~= compiled_watches(a) + compiled_watches(b));
    } else {
        assert(a + b =~= a);
        assert(compiled_watches(a) + compiled_watches(b) =~= compiled_watches(a));
    }
    match patterns::compiled(c.match_cmd@) {
        Ok(re) => {
            assert(compiled_watches(seq![c]) =~= seq![WatchRule { re, label: c.label }]);
        },
        Err(_) => {},
    }
}

/// What a pattern compiles to, where it does.
pub open spec fn compiles_to(pattern: Option<String>, re: Option<regex::Regex>) -> bool {
    match (pattern, re) {
        (None, None) => true,
        (Some(p), Some(x)) => patterns::compiled(p@) == Ok::<regex::Regex, Seq<char>>(x),
        _ => false,
    }
}

/// Overrides come in the order of the file, each with its own port, pattern, project and
/// label; an entry whose pattern does not compile is left out and never becomes one that
/// fits everything.
pub proof fn overrides_come_from_the_file(
    a: Seq<OverrideCfg>,
    b: Seq<OverrideCfg>,
    c: OverrideCfg,
)
    ensures
        compiled_overrides(a + b) == compiled_overrides(a) + compiled_overrides(b),
        ({
            let one = compiled_overrides(seq![c]);
            &&& one.len() <= 1
            &&& one.len() == 0 <==> c.match_cmd is Some && patterns::compiled(
                c.match_cmd->0@,
            ) is Err
            &&& one.len() == 1 ==> {
                &&& one[0].port == c.match_port
                &&& compiles_to(c.match_cmd, one[0].cmd)
                &&& one[0].project == c.project
                &&& one[0].label == c.label
            }
        }),
    decreases b.len(),
{
    assert(seq![c].drop_last() =~= Seq::<OverrideCfg>::empty());
    reveal_with_fuel(compiled_overrides, 2);
    if b.len() > 0 {
        overrides_come_from_the_file(a, b.drop_last(), c);
        assert((a + b).drop_last() =~= a + b.drop_last());
        assert((a + b).last() == b.last());
        assert(compiled_overrides(a + b) =~= compiled_overrides(a) + compiled_overrides(b));
    } else {
        assert(a + b =~= a);
        assert(compiled_overrides(a) + compiled_overrides(b) =~= compiled_overrides(a));
    }
}

/// Ignore rules come in the order of the file, each with its own port and pattern; an
/// entry whose pattern does not compile is left out and never hides by its port alone.
pub proof fn ignores_come_from_the_file(a: Seq<IgnoreCfg>, b: Seq<IgnoreCfg>, c: IgnoreCfg)
    ensures
        compiled_ignores(a + b) == compiled_ignores(a) + compiled_ignores(b),
        ({
            let one = compiled_ignores(seq![c]);
            &&& one.len() <= 1
            &&& one.len() == 0 <==> c.match_cmd is Some && patterns::compiled(
                c.match_cmd->0@,
            ) is Err
            &&& one.len() == 1 ==> one[0].port == c.match_port && compiles_to(
                c.match_cmd,
                one[0].cmd,
            )
        }),
    decreases b.len(),
{
    assert(seq![c].drop_last() =~= Seq::<IgnoreCfg>::empty());
    reveal_with_fuel(compiled_ignores, 2);
    if b.len() > 0 {
        ignores_come_from_the_file(a, b.drop_last(), c);
        assert((a + b).drop_last() =~= a + b.drop_last());
        assert((a + b).last() == b.last());
        assert(compiled_ignores(a + b) =~= compiled_ignores(a) + compiled_ignores(b));
    } else {
        assert(a + b =~= a);
        assert(compiled_ignores(a) + compiled_ignores(b) =~= compiled_ignores(a));
    }
}

/// The members of a group come in the order of the file, each that selects something.
pub proof fn members_come_from_the_file(a: Seq<Member>, b: Seq<Member>, m: Member)
    ensures
        compiled_members(a + b) == compiled_members(a) + compiled_members(b),
        member_selects(m) matches Some(s) ==> compiled_members(seq![m]) == seq![s],
        member_selects(m) is None ==> compiled_members(seq![m]).len() == 0,
    decreases b.len(),
{
    assert(seq![m].drop_last() =~= Seq::<Member>::empty());
    reveal_with_fuel(compiled_members, 2);
    if b.len() > 0 {
        members_come_from_the_file(a, b.drop_last(), m);
        assert((a + b).drop_last() =~= a + b.drop_last());
        assert((a + b).last() == b.last());
        assert(compiled_members(a + b) =~= compiled_members(a) + compiled_members(b));
    } else {
        assert(a + b =~= a);
        assert(compiled_members(a) + compiled_members(b) =~= compiled_members(a));
    }
    match member_selects(m) {
        Some(s) => {
            assert(compiled_members(seq![m]) =~= seq![s]);
        },
        None => {},
    }
}

/// Every pattern that does not compile is complained of, in order and by its text, and no
/// other.
pub proof fn bad_patterns_are_told(a: Seq<Seq<char>>, b: Seq<Seq<char>>, p: Seq<char>)
    ensures
        complaints(a + b) == complaints(a) + complaints(b),
        patterns::compiled(p) is Ok ==> complaints(seq![p]).len() == 0,
        patterns::compiled(p) is Err ==> complaints(seq![p]).len() == 1 && text::occurs(
            patterns::quoted(p),
            complaints(seq![p])[0],
        ),
    decreases b.len(),
{
    assert(seq![p].drop_last() =~= Seq::<Seq<char>>::empty());
    reveal_with_fuel(complaints, 2);
    if b.len() > 0 {
        bad_patterns_are_told(a, b.drop_last(), p);
        assert((a + b).drop_last() =~= a + b.drop_last());
        assert((a + b).last() == b.last());
        assert(complaints(a + b) =~= complaints(a) + complaints(b));
    } else {
        assert(a + b =~= a);
        assert(complaints(a) + complaints(b) =~= complaints(a));
    }
    match patterns::compiled(p) {
        Err(e) => {
            let rest = ": "@ + e;
            let c = "marina: ignoring bad regex "@ + patterns::quoted(p) + ": "@ + e;
            assert(c =~= "marina: ignoring bad regex "@ + patterns::quoted(p) + rest);
            text::lemma_stands_between("marina: ignoring bad regex "@, patterns::quoted(p), rest);
        },
        Ok(_) => {},
    }
}

/// What is there of a list of patterns is kept.
proof fn lemma_given(list: Seq<Option<String>>, i: int)
    requires
        0 <= i < list.len(),
        list[i] is Some,
    ensures
        given(list).contains(list[i]->0@),
    decreases list.len(),
{
    let d = list.drop_last();
    let before = given(d);
    let after = given(list);
    if i == list.len() - 1 {
        assert(after[before.len() as int] == list[i]->0@);
    } else {
        assert(d[i] == list[i]);
        lemma_given(d, i);
        let k = choose|k: int| 0 <= k < before.len() && before[k] == list[i]->0@;
        assert(after[k] == list[i]->0@);
    }
}

/// Every pattern of the configuration is tried, whichever kind of rule it stands in.
pub proof fn every_pattern_is_tried(cfg: ConfigFile, i: int)
    ensures
        0 <= i < cfg.rule@.len() ==> config_patterns(cfg).contains(cfg.rule@[i].match_cmd@),
        0 <= i < cfg.watch@.len() ==> config_patterns(cfg).contains(cfg.watch@[i].match_cmd@),
        0 <= i < cfg.overrides@.len() ==> (cfg.overrides@[i].match_cmd matches Some(p)
            ==> config_patterns(cfg).contains(p@)),
        0 <= i < cfg.ignore@.len() ==> (cfg.ignore@[i].match_cmd matches Some(p)
            ==> config_patterns(cfg).contains(p@)),
{
    let la = cfg.rule@.map_values(|c: RuleCfg| Some(c.match_cmd));
    let lb = cfg.watch@.map_values(|c: WatchCfg| Some(c.match_cmd));
    let lc = cfg.overrides@.map_values(|c: OverrideCfg| c.match_cmd);
    let ld = cfg.ignore@.map_values(|c: IgnoreCfg| c.match_cmd);
    let (a, b, c, d) = (given(la), given(lb), given(lc), given(ld));
    assert(config_patterns(cfg) == a + b + c + d);
    assert forall|x: Seq<char>|
        a.contains(x) || b.contains(x) || c.contains(x) || d.contains(
            x,
        ) implies #[trigger] config_patterns(cfg).contains(x) by {
        lemma_joined_contains(a, b, x);
        lemma_joined_contains(a + b, c, x);
        lemma_joined_contains(a + b + c, d, x);
    }
    if 0 <= i < la.len() {
        lemma_given(la, i);
    }
    if 0 <= i < lb.len() {
        lemma_given(lb, i);
    }
    if 0 <= i < lc.len() && lc[i] is Some {
        lemma_given(lc, i);
    }
    if 0 <= i < ld.len() && ld[i] is Some {
        lemma_given(ld, i);
    }
}

} // verus!
