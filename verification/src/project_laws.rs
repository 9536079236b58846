//! What holds of places: paths, project roots and their names, branches, and the
//! containers that a listing tells of.
use vstd::prelude::*;

use crate::docker::{
    all_published, bare_image, container_line, containers, host_ports, is_loopback, names_binder,
    published,
};
use crate::documents;
use crate::naming_laws::{lacks, lemma_last_piece, lemma_one_piece};
use crate::paths::{below, components, file_name, is_name, path_head, spelled, upward, within};
use crate::project::{
    app_of, app_on, artifact_of, branch_of, declared_name, dir_name, first_given, gem_of, gem_on,
    head_file, is_hex, is_project_file_in, least_ending, marked, markers, module_of, module_on,
    name_given, name_or_dir, quoted_text, solution_of, word_length, Manifests,
};
use crate::text;

verus! {

// ----------------------------------------------------------------------- paths

/// A name that can stand for a file: it is not empty, has no slash and is not one of the
/// dots.
pub open spec fn is_file_name(n: Seq<char>) -> bool {
    n.len() > 0 && lacks(n, '/') && n != "."@ && n != ".."@
}

/// A path below a directory is the directory, a slash and the name; a name that is a path
/// from the root stands for itself.
pub proof fn paths_are_put_together(dir: Seq<char>, name: Seq<char>)
    ensures
        dir.len() > 0 && dir.last() != '/' && !(name.len() > 0 && name[0] == '/') ==> below(
            dir,
            name,
        ) == dir + "/"@ + name,
        name.len() > 0 && name[0] == '/' ==> below(dir, name) == name,
{
}

proof fn lemma_components(dir: Seq<char>, name: Seq<char>)
    requires
        dir.len() > 0,
        is_file_name(name),
    ensures
        components(dir + "/"@ + name) == components(dir).push(name),
{
    reveal_strlit("/");
    let s = dir + "/"@ + name;
    assert("/"@ =~= seq!['/']);
    lemma_last_piece(dir, '/', name);
    text::lemma_pieces_nonempty(dir, '/');
    let p = text::pieces(dir, '/');
    assert(text::pieces(s, '/') == p.push(name));
    assert(p.push(name)[0] == p[0]);
    assert(s[0] == dir[0]);
    assert(path_head(s) == path_head(dir));
    let f = |x: Seq<char>| is_name(x);
    assert(is_name(name));
    lemma_filter_push(p, name, f);
    assert(components(s) =~= components(dir).push(name));
}

proof fn lemma_filter_push(p: Seq<Seq<char>>, x: Seq<char>, f: spec_fn(Seq<char>) -> bool)
    requires
        f(x),
    ensures
        p.push(x).filter(f) == p.filter(f).push(x),
{
    reveal(Seq::filter);
    assert(p.push(x).drop_last() =~= p);
}

/// The name of a directory is the last part of its path, and everything below a directory
/// is inside it, as is the directory itself.
pub proof fn names_are_the_last_part(dir: Seq<char>, name: Seq<char>)
    requires
        dir.len() > 0,
        is_file_name(name),
    ensures
        file_name(dir + "/"@ + name) == Some(name),
        dir_name(dir + "/"@ + name) == name,
        within(dir + "/"@ + name, dir),
        within(dir, dir),
        !within(dir, dir + "/"@ + name),
{
    lemma_components(dir, name);
    reveal_strlit("/");
    let c = components(dir);
    assert(c.push(name).last() == name);
    assert(name != "/"@) by {
        if name == "/"@ {
            assert(name[0] == '/');
        }
    }
    assert(c =~= c.push(name).subrange(0, c.len() as int));
    assert(c =~= c.subrange(0, c.len() as int));
}

/// Inside is a matter of whole parts: a path that goes on from a directory's name without
/// a slash is not inside that directory.
pub proof fn inside_goes_by_whole_parts(dir: Seq<char>, a: Seq<char>, b: Seq<char>)
    requires
        dir.len() > 0,
        is_file_name(a),
        is_file_name(b),
        a != b,
    ensures
        !within(dir + "/"@ + a, dir + "/"@ + b),
{
    lemma_components(dir, a);
    lemma_components(dir, b);
    let c = components(dir);
    let x = c.push(a);
    let y = c.push(b);
    if y.is_prefix_of(x) {
        assert(y[c.len() as int] == x.subrange(0, y.len() as int)[c.len() as int]);
    }
}

// ----------------------------------------------------------------------- roots

/// The files that mark a project root.
pub open spec fn marker_files() -> Seq<Seq<char>> {
    seq![
        "package.json"@,
        "Cargo.toml"@,
        "go.mod"@,
        "pyproject.toml"@,
        "setup.py"@,
        "Pipfile"@,
        "Gemfile"@,
        "pom.xml"@,
        "build.gradle"@,
        "build.gradle.kts"@,
        "mix.exs"@,
        "composer.json"@,
        ".git"@,
    ]
}

/// Any one of the marking files makes a directory a project root, and so does a file with
/// an ending that marks one; nothing else does.
pub proof fn roots_are_marked(dir: Seq<char>, existing: Seq<Seq<char>>)
    ensures
        forall|i: int|
            0 <= i < marker_files().len() && existing.contains(
                below(dir, #[trigger] marker_files()[i]),
            ) ==> marked(dir, existing),
        forall|n: Seq<char>|
            (".gemspec"@.is_suffix_of(n) || ".csproj"@.is_suffix_of(n) || ".sln"@.is_suffix_of(n))
                && file_name(below(dir, n)) == Some(n) && existing.contains(
                #[trigger] below(dir, n),
            ) ==> marked(dir, existing),
        marked(dir, existing) ==> exists|n: Seq<char>|
            {
                &&& existing.contains(#[trigger] below(dir, n))
                &&& marker_files().contains(n) || ".gemspec"@.is_suffix_of(n)
                    || ".csproj"@.is_suffix_of(n) || ".sln"@.is_suffix_of(n)
            },
{
    assert(marker_files() =~= markers());
    assert forall|i: int|
        0 <= i < marker_files().len() && existing.contains(
            below(dir, #[trigger] marker_files()[i]),
        ) implies marked(dir, existing) by {
        assert(existing.contains(below(dir, markers()[i])));
    }
    assert forall|n: Seq<char>|
        (".gemspec"@.is_suffix_of(n) || ".csproj"@.is_suffix_of(n) || ".sln"@.is_suffix_of(n))
            && file_name(below(dir, n)) == Some(n) && existing.contains(
            #[trigger] below(dir, n),
        ) implies marked(dir, existing) by {
        let i = choose|i: int| 0 <= i < existing.len() && existing[i] == below(dir, n);
        assert(is_project_file_in(dir, existing[i]));
    }
    if marked(dir, existing) {
        if exists|i: int|
            0 <= i < markers().len() && existing.contains(below(dir, #[trigger] markers()[i])) {
            let i = choose|i: int|
                0 <= i < markers().len() && existing.contains(below(dir, #[trigger] markers()[i]));
            assert(marker_files().contains(marker_files()[i]));
        } else {
            let i = choose|i: int|
                0 <= i < existing.len() && is_project_file_in(dir, #[trigger] existing[i]);
            let n = file_name(existing[i])->0;
            assert(existing.contains(existing[i]));
            assert(existing.contains(below(dir, n)));
        }
    }
}

// ----------------------------------------------------------------------- names

/// The first of a list that is there.
pub open spec fn first_there(list: Seq<Option<Seq<char>>>) -> Option<Seq<char>>
    decreases list.len(),
{
    if list.len() == 0 {
        None
    } else if list[0] is Some {
        list[0]
    } else {
        first_there(list.drop_first())
    }
}

/// What a file gives, where it is there.
pub open spec fn if_there(
    file: Option<String>,
    read: spec_fn(Seq<char>) -> Option<Seq<char>>,
) -> Option<Seq<char>> {
    match file {
        Some(t) => read(t@),
        None => None,
    }
}

/// The manifests are asked in turn, and the first that gives a name gives it: the package,
/// the crate, the Python project, the Go module, the gem, the Maven artifact, the Mix
/// application, the Composer package, and last a .NET project or solution.
pub proof fn manifests_are_asked_in_turn(
    package: Option<Seq<char>>,
    cargo: Option<Seq<char>>,
    project: Option<Seq<char>>,
    poetry: Option<Seq<char>>,
    composer: Option<Seq<char>>,
    files: Manifests,
)
    ensures
        name_given(package, cargo, project, poetry, composer, files) == first_there(
            seq![
                package,
                cargo,
                project,
                poetry,
                if_there(files.go_mod, |t: Seq<char>| module_of(t)),
                if_there(files.gemspec, |t: Seq<char>| gem_of(t)),
                if_there(files.pom_xml, |t: Seq<char>| artifact_of(t)),
                if_there(files.mix_exs, |t: Seq<char>| app_of(t)),
                composer,
                solution_of(text::texts(files.files@)),
            ],
        ),
{
    reveal_with_fuel(first_there, 12);
    let all = seq![
        package,
        cargo,
        project,
        poetry,
        if_there(files.go_mod, |t: Seq<char>| module_of(t)),
        if_there(files.gemspec, |t: Seq<char>| gem_of(t)),
        if_there(files.pom_xml, |t: Seq<char>| artifact_of(t)),
        if_there(files.mix_exs, |t: Seq<char>| app_of(t)),
        composer,
        solution_of(text::texts(files.files@)),
    ];
    let l1 = all.drop_first();
    let l2 = l1.drop_first();
    let l3 = l2.drop_first();
    let l4 = l3.drop_first();
    let l5 = l4.drop_first();
    let l6 = l5.drop_first();
    let l7 = l6.drop_first();
    let l8 = l7.drop_first();
    let l9 = l8.drop_first();
    assert(l1[0] == all[1] && l2[0] == all[2] && l3[0] == all[3] && l4[0] == all[4] && l5[0]
        == all[5] && l6[0] == all[6] && l7[0] == all[7] && l8[0] == all[8] && l9[0] == all[9]);
    assert(l9.drop_first().len() == 0);
}

/// A package that declares its name gives it to the project, whatever other manifests lie
/// beside it; without one a crate does; a project that declares none has the name of its
/// directory.
pub proof fn declared_names_win(files: Manifests, root: Seq<char>, n: Seq<char>)
    ensures
        files.package_json matches Some(t) ==> (documents::serde_json_document(t@) matches Some(m)
            ==> (m.contains_key(seq!["name"@]) && m[seq!["name"@]] == n ==> declared_name(files)
            == Some(n))),
        files.package_json is None ==> (files.cargo_toml matches Some(t) ==> (
        documents::toml_document(t@) matches Some(m) ==> (m.contains_key(seq!["package"@, "name"@])
            && m[seq!["package"@, "name"@]] == n ==> declared_name(files) == Some(n)))),
        name_or_dir(Some(n), root) == n,
        name_or_dir(None, root) == dir_name(root),
{
}

/// The first line that gives a name gives it.
pub proof fn the_first_line_gives_the_name(
    lines: Seq<Seq<char>>,
    read: spec_fn(Seq<char>) -> Option<Seq<char>>,
    k: int,
)
    ensures
        0 <= k < lines.len() && read(lines[k]) is Some && (forall|j: int|
            0 <= j < k ==> read(#[trigger] lines[j]) is None) ==> first_given(lines, read) == read(
            lines[k],
        ),
        (forall|j: int| 0 <= j < lines.len() ==> read(#[trigger] lines[j]) is None)
            ==> first_given(lines, read) is None,
    decreases lines.len(),
{
    if lines.len() > 0 {
        let d = lines.drop_last();
        let last = lines.len() - 1;
        the_first_line_gives_the_name(d, read, k);
        if forall|j: int| 0 <= j < lines.len() ==> read(#[trigger] lines[j]) is None {
            assert forall|j: int| 0 <= j < d.len() implies read(#[trigger] d[j]) is None by {
                assert(d[j] == lines[j]);
            }
            assert(lines[last] == lines.last());
        }
        if 0 <= k < lines.len() && read(lines[k]) is Some && (forall|j: int|
            0 <= j < k ==> read(#[trigger] lines[j]) is None) {
            assert forall|j: int| 0 <= j < d.len() && j < k implies read(
                #[trigger] d[j],
            ) is None by {
                assert(d[j] == lines[j]);
            }
            if k < last {
                assert(d[k] == lines[k]);
            } else {
                assert(forall|j: int| 0 <= j < d.len() ==> read(#[trigger] d[j]) is None);
            }
        }
    }
}

/// The text has something to it, and no white space at either end.
pub open spec fn is_trim(s: Seq<char>) -> bool {
    s.len() > 0 && !text::is_white(s[0]) && !text::is_white(s.last())
}

/// Nothing but white space.
pub open spec fn is_space(s: Seq<char>) -> bool {
    forall|i: int| 0 <= i < s.len() ==> text::is_white(#[trigger] s[i])
}

proof fn lemma_trim_end(s: Seq<char>, b: Seq<char>)
    requires
        is_trim(s),
        is_space(b),
    ensures
        text::trimmed_end(s + b) == s,
    decreases b.len(),
{
    if b.len() > 0 {
        let d = b.drop_last();
        assert(is_space(d)) by {
            assert forall|i: int| 0 <= i < d.len() implies text::is_white(#[trigger] d[i]) by {
                assert(text::is_white(b[i]));
            }
        }
        lemma_trim_end(s, d);
        assert(text::is_white(b[b.len() - 1]));
        assert((s + b).drop_last() =~= s + d);
        assert((s + b).last() == b.last());
    } else {
        assert(s + b =~= s);
    }
}

/// Trimming takes white space off both ends and nothing else.
pub proof fn trimming_takes_the_ends_off(a: Seq<char>, s: Seq<char>, b: Seq<char>)
    requires
        is_space(a),
        is_trim(s),
        is_space(b),
    ensures
        text::trimmed(a + s + b) == s,
    decreases a.len(),
{
    let all = a + s + b;
    if a.len() > 0 {
        let d = a.drop_first();
        assert(is_space(d)) by {
            assert forall|i: int| 0 <= i < d.len() implies text::is_white(#[trigger] d[i]) by {
                assert(text::is_white(a[i + 1]));
            }
        }
        trimming_takes_the_ends_off(d, s, b);
        assert(text::is_white(a[0]));
        assert(all[0] == a[0]);
        assert(all.drop_first() =~= d + s + b);
    } else {
        assert(all =~= s + b);
        assert(all[0] == s[0]);
        lemma_trim_end(s, b);
    }
}

proof fn lemma_trimmed_is_part(s: Seq<char>)
    ensures
        exists|a: Seq<char>, b: Seq<char>| #[trigger] (a + text::trimmed(s) + b) == s,
{
    lemma_start_is_part(s);
    let a = choose|a: Seq<char>| #[trigger] (a + text::trimmed_start(s)) == s;
    lemma_end_is_part(text::trimmed_start(s));
    let b = choose|b: Seq<char>| #[trigger]
        (text::trimmed(s) + b) == text::trimmed_start(s);
    assert(a + text::trimmed(s) + b =~= s);
}

proof fn lemma_start_is_part(s: Seq<char>)
    ensures
        exists|a: Seq<char>| #[trigger] (a + text::trimmed_start(s)) == s,
    decreases s.len(),
{
    if s.len() > 0 && text::is_white(s[0]) {
        let d = s.drop_first();
        lemma_start_is_part(d);
        let a = choose|a: Seq<char>| #[trigger] (a + text::trimmed_start(d)) == d;
        assert((seq![s[0]] + a) + text::trimmed_start(s) =~= seq![s[0]] + d);
        assert(seq![s[0]] + d =~= s);
    } else {
        assert(Seq::<char>::empty() + text::trimmed_start(s) =~= s);
    }
}

proof fn lemma_end_is_part(s: Seq<char>)
    ensures
        exists|b: Seq<char>| #[trigger] (text::trimmed_end(s) + b) == s,
    decreases s.len(),
{
    if s.len() > 0 && text::is_white(s.last()) {
        let d = s.drop_last();
        lemma_end_is_part(d);
        let b = choose|b: Seq<char>| #[trigger] (text::trimmed_end(d) + b) == d;
        assert(text::trimmed_end(s) + b.push(s.last()) =~= d.push(s.last()));
        assert(d.push(s.last()) =~= s);
    } else {
        assert(text::trimmed_end(s) + Seq::<char>::empty() =~= s);
    }
}

proof fn lemma_within_trimmed(p: Seq<char>, s: Seq<char>)
    requires
        text::occurs(p, text::trimmed(s)),
    ensures
        text::occurs(p, s),
{
    lemma_trimmed_is_part(s);
    let (a, b) = choose|a: Seq<char>, b: Seq<char>| #[trigger] (a + text::trimmed(s) + b) == s;
    lemma_within_part(p, a, text::trimmed(s), b);
}

proof fn lemma_within_part(p: Seq<char>, a: Seq<char>, s: Seq<char>, b: Seq<char>)
    requires
        text::occurs(p, s),
    ensures
        text::occurs(p, a + s + b),
{
    let i = choose|i: int| #[trigger] text::stands_at(s, p, i);
    let x = s.take(i);
    let y = s.skip(i + p.len());
    assert(s =~= x + p + y);
    assert(a + s + b =~= (a + x) + p + (y + b));
    text::lemma_stands_between(a + x, p, y + b);
}

/// A Go module is named by the last part of its path.
pub proof fn modules_go_by_their_last_part(
    indent: Seq<char>,
    dir: Seq<char>,
    name: Seq<char>,
    end: Seq<char>,
)
    requires
        is_space(indent),
        is_space(end),
        lacks(name, '/'),
        is_trim(name),
        is_trim(dir),
    ensures
        module_on(indent + "module "@ + dir + "/"@ + name + end) == Some(name),
        module_on(indent + "module "@ + name + end) == Some(name),
{
    reveal_strlit("module ");
    reveal_strlit("/");
    let path = dir + "/"@ + name;
    lemma_module(indent, path, end);
    lemma_module(indent, name, end);
    assert(indent + "module "@ + dir + "/"@ + name + end =~= indent + "module "@ + path + end);
    assert("/"@ =~= seq!['/']);
    lemma_last_piece(dir, '/', name);
    lemma_one_piece(name, '/');
    assert(text::pieces(dir, '/').push(name).last() == name);
    assert(seq![name].last() == name);
}

proof fn lemma_module(indent: Seq<char>, path: Seq<char>, end: Seq<char>)
    requires
        is_space(indent),
        is_space(end),
        is_trim(path),
    ensures
        module_on(indent + "module "@ + path + end) == Some(text::pieces(path, '/').last()),
{
    reveal_strlit("module ");
    let t = "module "@ + path;
    assert(is_trim(t));
    trimming_takes_the_ends_off(indent, t, end);
    assert(indent + "module "@ + path + end =~= indent + t + end);
    assert("module "@ =~= t.subrange(0, 7));
    assert(t.skip(7) =~= path);
    trimming_takes_the_ends_off(Seq::empty(), path, Seq::empty());
    assert(Seq::<char>::empty() + path + Seq::<char>::empty() =~= path);
}

/// A gem's name stands in quotes on its line, an application's behind a colon on its line,
/// and an artifact's in its element.
pub proof fn names_are_read_off(line: Seq<char>)
    ensures
        gem_on(line) matches Some(n) ==> text::occurs("\""@ + n + "\""@, line) || text::occurs(
            "'"@ + n + "'"@,
            line,
        ),
        gem_on(line) is Some ==> text::occurs(".name"@, line) && text::occurs("="@, line),
        app_on(line) matches Some(n) ==> n.len() > 0 && text::occurs(":"@ + n, line)
            && text::occurs("app:"@, line),
{
    let t = text::trimmed(line);
    match gem_on(line) {
        Some(n) => {
            let left = text::head_before(t, "="@)->0;
            let right = text::tail_after(t, "="@)->0;
            lemma_split(t, "="@);
            assert(t == left + "="@ + right);
            let r = text::trimmed(right);
            assert(quoted_text(r) == Some(n));
            lemma_quoted(r);
            let q = r.take(1);
            assert(text::occurs(q + n + q, r));
            reveal_strlit("\"");
            reveal_strlit("'");
            if r[0] == '"' {
                assert(q =~= "\""@);
            } else {
                assert(q =~= "'"@);
            }
            lemma_within_trimmed(q + n + q, right);
            assert(t =~= (left + "="@) + right + Seq::<char>::empty());
            lemma_within_part(q + n + q, left + "="@, right, Seq::empty());
            lemma_within_trimmed(q + n + q, line);
            text::lemma_stands_between(left, "="@, right);
            lemma_within_trimmed("="@, line);
            let l = text::trimmed(left);
            let head = l.take(l.len() - ".name"@.len());
            assert(l =~= head + ".name"@ + Seq::<char>::empty());
            text::lemma_stands_between(head, ".name"@, Seq::empty());
            lemma_within_trimmed(".name"@, left);
            assert(t =~= Seq::<char>::empty() + left + ("="@ + right));
            lemma_within_part(".name"@, Seq::empty(), left, "="@ + right);
            lemma_within_trimmed(".name"@, line);
        },
        None => {},
    }
    match app_on(line) {
        Some(n) => {
            let u = text::without_leading(t, '[');
            let w = text::trimmed(u);
            let v = text::trimmed(w.skip("app:"@.len() as int));
            let rest = v.skip(":"@.len() as int);
            lemma_word(rest);
            assert(v =~= ":"@ + rest);
            assert(v =~= Seq::<char>::empty() + (":"@ + n) + rest.skip(n.len() as int));
            text::lemma_stands_between(Seq::empty(), ":"@ + n, rest.skip(n.len() as int));
            lemma_within_trimmed(":"@ + n, w.skip("app:"@.len() as int));
            assert(w =~= "app:"@ + w.skip("app:"@.len() as int) + Seq::<char>::empty());
            lemma_within_part(
                ":"@ + n,
                "app:"@,
                w.skip("app:"@.len() as int),
                Seq::empty(),
            );
            lemma_within_trimmed(":"@ + n, u);
            assert(w =~= Seq::<char>::empty() + "app:"@ + w.skip("app:"@.len() as int));
            text::lemma_stands_between(Seq::empty(), "app:"@, w.skip("app:"@.len() as int));
            lemma_within_trimmed("app:"@, u);
            lemma_leading(t, '[');
            let a = choose|a: Seq<char>| #[trigger] (a + u) == t;
            assert(t =~= a + u + Seq::<char>::empty());
            lemma_within_part(":"@ + n, a, u, Seq::empty());
            lemma_within_part("app:"@, a, u, Seq::empty());
            lemma_within_trimmed(":"@ + n, line);
            lemma_within_trimmed("app:"@, line);
        },
        None => {},
    }
}

proof fn lemma_leading(s: Seq<char>, c: char)
    ensures
        exists|a: Seq<char>| #[trigger] (a + text::without_leading(s, c)) == s,
    decreases s.len(),
{
    if s.len() > 0 && s[0] == c {
        let d = s.drop_first();
        lemma_leading(d, c);
        let a = choose|a: Seq<char>| #[trigger] (a + text::without_leading(d, c)) == d;
        assert((seq![s[0]] + a) + text::without_leading(s, c) =~= seq![s[0]] + d);
        assert(seq![s[0]] + d =~= s);
    } else {
        assert(Seq::<char>::empty() + text::without_leading(s, c) =~= s);
    }
}

proof fn lemma_word(s: Seq<char>)
    ensures
        word_length(s) <= s.len(),
    decreases s.len(),
{
    if s.len() > 0 && crate::project::is_word(s[0]) {
        lemma_word(s.drop_first());
    }
}

proof fn lemma_first_there(s: Seq<char>, p: Seq<char>, i: int)
    requires
        text::stands_at(s, p, i),
    ensures
        exists|k: int| #[trigger] text::first_at(s, p, k),
    decreases i,
{
    if exists|j: int| 0 <= j < i && #[trigger] text::stands_at(s, p, j) {
        let j = choose|j: int| 0 <= j < i && #[trigger] text::stands_at(s, p, j);
        lemma_first_there(s, p, j);
    } else {
        assert(text::first_at(s, p, i));
    }
}

/// What stands ahead of a separator, the separator and what stands behind it make the
/// whole.
proof fn lemma_split(s: Seq<char>, p: Seq<char>)
    requires
        text::occurs(p, s),
    ensures
        s == text::head_before(s, p)->0 + p + text::tail_after(s, p)->0,
{
    let i = choose|i: int| #[trigger] text::stands_at(s, p, i);
    lemma_first_there(s, p, i);
    let k = choose|k: int| #[trigger] text::first_at(s, p, k);
    assert(s.take(k) + s.subrange(k, k + p.len()) + s.skip(k + p.len()) =~= s);
}

proof fn lemma_quoted(r: Seq<char>)
    requires
        quoted_text(r) is Some,
    ensures
        r.len() > 0,
        text::occurs(r.take(1) + quoted_text(r)->0 + r.take(1), r),
{
    let q = r.take(1);
    let n = quoted_text(r)->0;
    let d = r.skip(1);
    lemma_split(d, q);
    let tail = text::tail_after(d, q)->0;
    assert(r =~= q + d);
    assert(r =~= Seq::<char>::empty() + (q + n + q) + tail);
    text::lemma_stands_between(Seq::empty(), q + n + q, tail);
}

/// An artifact's name is what stands in the first element of that name outside the
/// parent's.
pub proof fn artifacts_are_read_off(head: Seq<char>, name: Seq<char>, tail: Seq<char>)
    requires
        is_trim(name),
        lacks(name, '<'),
        !text::occurs("<artifactId>"@, head),
        lacks(head, '<'),
        !text::occurs("<parent>"@, head + "<artifactId>"@ + name + "</artifactId>"@ + tail),
    ensures
        artifact_of(head + "<artifactId>"@ + name + "</artifactId>"@ + tail) == Some(name),
{
    reveal_strlit("<artifactId>");
    reveal_strlit("</artifactId>");
    let open = "<artifactId>"@;
    let close = "</artifactId>"@;
    let rest = name + close + tail;
    let pom = head + open + name + close + tail;
    assert(pom =~= head + open + rest);
    lemma_first_at(head, open, rest);
    lemma_first_at(name, close, tail);
    trimming_takes_the_ends_off(Seq::empty(), name, Seq::empty());
    assert(Seq::<char>::empty() + name + Seq::<char>::empty() =~= name);
}

proof fn lemma_first_at(head: Seq<char>, p: Seq<char>, rest: Seq<char>)
    requires
        p.len() > 0,
        lacks(head, p[0]),
    ensures
        text::head_before(head + p + rest, p) == Some(head),
        text::tail_after(head + p + rest, p) == Some(rest),
{
    let s = head + p + rest;
    let n = head.len() as int;
    text::lemma_stands_between(head, p, rest);
    assert(s.subrange(n, n + p.len()) =~= p);
    assert(text::stands_at(s, p, n));
    assert forall|j: int| 0 <= j < n implies !#[trigger] text::stands_at(s, p, j) by {
        if text::stands_at(s, p, j) {
            assert(s.subrange(j, j + p.len())[0] == s[j]);
            assert(s[j] == head[j]);
            assert(head[j] != p[0]);
        }
    }
    assert(text::first_at(s, p, n));
    let k = choose|k: int| #[trigger] text::first_at(s, p, k);
    assert(k == n) by {
        if k < n {
            assert(!text::stands_at(s, p, k));
        } else if n < k {
            assert(!text::stands_at(s, p, n));
        }
    }
    assert(s.take(n) =~= head);
    assert(s.skip(n + p.len()) =~= rest);
}

/// Of the files with an ending the first in order of the alphabet is taken, and its name
/// without the ending; a .NET project goes before a solution.
pub proof fn solutions_go_by_their_file(files: Seq<Seq<char>>)
    ensures
        solution_of(files) matches Some(n) ==> files.contains(n + ".csproj"@) || files.contains(
            n + ".sln"@,
        ),
        (exists|i: int| 0 <= i < files.len() && ".csproj"@.is_suffix_of(#[trigger] files[i])) ==> {
            &&& solution_of(files) is Some
            &&& files.contains(solution_of(files)->0 + ".csproj"@)
            &&& forall|i: int|
                0 <= i < files.len() && ".csproj"@.is_suffix_of(#[trigger] files[i])
                    ==> !text::precedes(files[i], solution_of(files)->0 + ".csproj"@)
        },
        solution_of(files) is None <==> forall|i: int|
            0 <= i < files.len() ==> !".csproj"@.is_suffix_of(#[trigger] files[i])
                && !".sln"@.is_suffix_of(files[i]),
{
    lemma_least(files, ".csproj"@);
    lemma_least(files, ".sln"@);
    match least_ending(files, ".csproj"@) {
        Some(n) => {
            assert(n.take(n.len() - ".csproj"@.len()) + ".csproj"@ =~= n);
        },
        None => {
            match least_ending(files, ".sln"@) {
                Some(n) => {
                    assert(n.take(n.len() - ".sln"@.len()) + ".sln"@ =~= n);
                },
                None => {},
            }
        },
    }
}

proof fn lemma_least(files: Seq<Seq<char>>, ending: Seq<char>)
    ensures
        least_ending(files, ending) is None <==> forall|i: int|
            0 <= i < files.len() ==> !ending.is_suffix_of(#[trigger] files[i]),
        least_ending(files, ending) matches Some(n) ==> {
            &&& files.contains(n)
            &&& ending.is_suffix_of(n)
            &&& forall|i: int|
                0 <= i < files.len() && ending.is_suffix_of(#[trigger] files[i])
                    ==> !text::precedes(files[i], n)
        },
    decreases files.len(),
{
    if files.len() > 0 {
        let d = files.drop_last();
        let x = files.last();
        let last = files.len() - 1;
        lemma_least(d, ending);
        assert(files[last] == x);
        assert(files.contains(x));
        let before = least_ending(d, ending);
        if before is Some {
            let n = before->0;
            let k = choose|k: int| 0 <= k < d.len() && d[k] == n;
            assert(files[k] == n);
            assert(files.contains(n));
            assert(ending.is_suffix_of(files[k]));
        } else {
            assert forall|i: int| 0 <= i < d.len() implies !ending.is_suffix_of(
                #[trigger] files[i],
            ) by {
                assert(d[i] == files[i]);
            }
        }
        match least_ending(files, ending) {
            Some(m) => {
                assert forall|i: int|
                    0 <= i < files.len() && ending.is_suffix_of(
                        #[trigger] files[i],
                    ) implies !text::precedes(files[i], m) by {
                    if i < last {
                        assert(d[i] == files[i]);
                        let n = before->0;
                        assert(!text::precedes(files[i], n));
                        if m != n {
                            if text::precedes(files[i], m) {
                                crate::laws::lemma_precedes_one_way(m, n);
                                if !text::precedes(n, m) {
                                    lemma_chain(files[i], m, n);
                                }
                            }
                        }
                    } else {
                        lemma_not_before_itself(x);
                    }
                }
            },
            None => {},
        }
    }
}

proof fn lemma_chain(a: Seq<char>, b: Seq<char>, c: Seq<char>)
    requires
        text::precedes(a, b),
        text::precedes(b, c),
    ensures
        text::precedes(a, c),
    decreases a.len(),
{
    if a.len() > 0 && b.len() > 0 && c.len() > 0 && a[0] == b[0] && b[0] == c[0] {
        lemma_chain(a.drop_first(), b.drop_first(), c.drop_first());
    }
}

proof fn lemma_not_before_itself(a: Seq<char>)
    ensures
        !text::precedes(a, a),
    decreases a.len(),
{
    if a.len() > 0 {
        lemma_not_before_itself(a.drop_first());
    }
}

// --------------------------------------------------------------------- branches

/// A checked-out branch goes by its name, slashes and all; a detached head goes by the
/// first seven characters of its hash.
pub proof fn branches_go_by_their_name(name: Seq<char>, end: Seq<char>)
    requires
        is_trim(name),
        is_space(end),
    ensures
        branch_of("ref: refs/heads/"@ + name + end) == Some(name),
        name.len() >= 7 && (forall|i: int| 0 <= i < name.len() ==> is_hex(#[trigger] name[i]))
            ==> branch_of(name + end) == Some(name.take(7)),
{
    reveal_strlit("ref: refs/heads/");
    let h = "ref: refs/heads/"@ + name;
    assert(is_trim(h));
    trimming_takes_the_ends_off(Seq::empty(), h, end);
    assert(Seq::<char>::empty() + h + end =~= "ref: refs/heads/"@ + name + end);
    assert("ref: refs/heads/"@ =~= h.subrange(0, 16));
    assert(h.skip(16) =~= name);
    trimming_takes_the_ends_off(Seq::empty(), name, end);
    assert(Seq::<char>::empty() + name + end =~= name + end);
    if name.len() >= 7 && (forall|i: int| 0 <= i < name.len() ==> is_hex(#[trigger] name[i])) {
        if "ref: refs/heads/"@.is_prefix_of(name) {
            assert(name.subrange(0, 16)[0] == 'r');
            assert(is_hex(name[0]));
        }
    }
}

/// A head that neither refers to a branch nor spells a commit names none.
pub proof fn other_heads_name_no_branch(head: Seq<char>, end: Seq<char>)
    requires
        is_trim(head),
        is_space(end),
        !"ref: refs/heads/"@.is_prefix_of(head),
        head.len() < 7 || exists|i: int| 0 <= i < head.len() && !is_hex(#[trigger] head[i]),
    ensures
        branch_of(head + end) is None,
{
    trimming_takes_the_ends_off(Seq::empty(), head, end);
    assert(Seq::<char>::empty() + head + end =~= head + end);
}

/// The head of a checkout lies in its git directory, and that of a worktree where its file
/// points to.
pub proof fn heads_are_found(root: Seq<char>, dir: Seq<char>, end: Seq<char>)
    requires
        is_trim(dir),
        is_space(end),
        root.len() > 0,
        root.last() != '/',
    ensures
        head_file(root, None) == Some(root + "/.git/HEAD"@),
        dir[0] == '/' && dir.last() != '/' ==> head_file(root, Some("gitdir: "@ + dir + end))
            == Some(dir + "/HEAD"@),
        dir[0] != '/' && dir.last() != '/' ==> head_file(root, Some("gitdir: "@ + dir + end))
            == Some(root + "/"@ + dir + "/HEAD"@),
{
    reveal_strlit(".git");
    reveal_strlit("HEAD");
    reveal_strlit("/.git/HEAD");
    reveal_strlit("/");
    reveal_strlit("/HEAD");
    reveal_strlit("gitdir:");
    reveal_strlit("gitdir: ");
    assert(root + "/"@ + ".git"@ + "/"@ + "HEAD"@ =~= root + "/.git/HEAD"@);
    let line = "gitdir: "@ + dir;
    assert(is_trim(line));
    trimming_takes_the_ends_off(Seq::empty(), line, end);
    assert(Seq::<char>::empty() + line + end =~= "gitdir: "@ + dir + end);
    assert("gitdir:"@ =~= line.subrange(0, 7));
    let rest = line.skip(7);
    let sp = seq![' '];
    assert(is_space(sp));
    assert(rest =~= sp + dir + Seq::<char>::empty());
    trimming_takes_the_ends_off(sp, dir, Seq::empty());
    assert(dir + "/"@ + "HEAD"@ =~= dir + "/HEAD"@);
    let b = root + "/"@ + dir;
    assert(b.last() == dir.last());
    assert(b + "/"@ + "HEAD"@ =~= root + "/"@ + dir + "/HEAD"@);
}

// ------------------------------------------------------------------- containers

proof fn lemma_pieces_joined(s: Seq<char>, c: char)
    ensures
        text::joined(text::pieces(s, c), seq![c]) == s,
    decreases s.len(),
{
    text::lemma_pieces_nonempty(s, c);
    if s.len() == 0 {
        assert(text::pieces(s, c) =~= seq![Seq::<char>::empty()]);
        assert(s =~= Seq::<char>::empty());
    } else {
        let d = s.drop_last();
        let p = text::pieces(d, c);
        text::lemma_pieces_nonempty(d, c);
        lemma_pieces_joined(d, c);
        let q = text::pieces(s, c);
        if s.last() == c {
            assert(q.drop_last() =~= p);
            assert(text::joined(q, seq![c]) =~= d + seq![c] + Seq::<char>::empty());
            assert(d + seq![c] + Seq::<char>::empty() =~= s);
        } else {
            assert(q.drop_last() =~= p.drop_last());
            assert(q.last() == p.last().push(s.last()));
            if p.len() == 1 {
                assert(q[0] =~= p[0].push(s.last()));
                assert(p[0] == d);
                assert(d.push(s.last()) =~= s);
            } else {
                let head = text::joined(p.drop_last(), seq![c]) + seq![c];
                assert(text::joined(p, seq![c]) == head + p.last());
                assert(text::joined(q, seq![c]) == head + q.last());
                assert(head + p.last().push(s.last()) =~= (head + p.last()).push(s.last()));
                assert(d.push(s.last()) =~= s);
            }
        }
    }
}

/// A published port is read as the port on this machine, with whether other machines can
/// reach it: it stands behind the last colon of what is ahead of the arrow, and the address
/// it is bound to ahead of that colon.
pub proof fn published_ports_are_read(addr: Seq<char>, p: u16, inner: Seq<char>)
    requires
        addr.len() > 0,
        lacks(addr, '>'),
        !text::is_white(addr[0]),
        is_trim(inner),
    ensures
        published(addr + ":"@ + text::decimal(p as nat) + "->"@ + inner) == Some(
            (p, !is_loopback(addr)),
        ),
{
    reveal_strlit(":");
    reveal_strlit("->");
    let d = text::decimal(p as nat);
    let host = addr + ":"@ + d;
    let entry = addr + ":"@ + d + "->"@ + inner;
    text::lemma_decimal(p as nat);
    crate::cli_laws::port_is_read_back(p);
    assert(entry[0] == addr[0]);
    assert(entry.last() == inner.last());
    trimming_takes_the_ends_off(Seq::empty(), entry, Seq::empty());
    assert(Seq::<char>::empty() + entry + Seq::<char>::empty() =~= entry);
    let n = host.len() as int;
    assert(entry.subrange(n, n + 2) =~= "->"@);
    assert(text::stands_at(entry, "->"@, n));
    assert forall|i: int| 0 <= i < n implies host[i] != '>' by {
        if i < addr.len() {
            assert(addr[i] != '>');
        } else if i > addr.len() {
            assert(text::is_digit(d[i - addr.len() - 1]));
        }
    }
    assert forall|j: int| 0 <= j < n implies !#[trigger] text::stands_at(entry, "->"@, j) by {
        if text::stands_at(entry, "->"@, j) {
            assert(entry.subrange(j, j + 2)[1] == entry[j + 1]);
            assert("->"@[1] == '>');
            if j + 1 < n {
                assert(host[j + 1] != '>');
            } else {
                assert(entry[j + 1] == "->"@[0]);
            }
        }
    }
    assert(text::first_at(entry, "->"@, n));
    let k = choose|k: int| #[trigger] text::first_at(entry, "->"@, k);
    assert(k == n) by {
        if k < n {
            assert(!text::stands_at(entry, "->"@, k));
        } else if n < k {
            assert(!text::stands_at(entry, "->"@, n));
        }
    }
    assert(text::occurs("->"@, entry));
    assert(entry.take(n) =~= host);
    assert(":"@ =~= seq![':']);
    assert(lacks(d, ':')) by {
        assert forall|i: int| 0 <= i < d.len() implies #[trigger] d[i] != ':' by {
            assert(text::is_digit(d[i]));
        }
    }
    lemma_last_piece(addr, ':', d);
    let pieces = text::pieces(host, ':');
    assert(pieces == text::pieces(addr, ':').push(d));
    text::lemma_pieces_nonempty(addr, ':');
    assert(pieces.last() == d);
    assert(pieces.drop_last() =~= text::pieces(addr, ':'));
    lemma_pieces_joined(addr, ':');
}

/// Only this machine reaches what is bound to a loopback address; what is bound to every
/// address is reached from outside.
pub proof fn loopback_is_not_exposed(rest: Seq<char>)
    ensures
        is_loopback("127."@ + rest),
        is_loopback("::1"@),
        is_loopback("[::1]"@),
        is_loopback("localhost"@),
        !is_loopback("0.0.0.0"@),
        !is_loopback("[::]"@),
        !is_loopback("192.168."@ + rest),
{
    reveal_strlit("127.");
    reveal_strlit("::1");
    reveal_strlit("[::1]");
    reveal_strlit("localhost");
    reveal_strlit("0.0.0.0");
    reveal_strlit("[::]");
    reveal_strlit("192.168.");
    let a = "127."@ + rest;
    assert("127."@ =~= a.subrange(0, 4));
    let z = "0.0.0.0"@;
    if "127."@.is_prefix_of(z) {
        assert(z.subrange(0, 4)[0] == '1');
    }
    let e = "[::]"@;
    if "127."@.is_prefix_of(e) {
        assert(e.subrange(0, 4)[0] == '1');
    }
    let l = "192.168."@ + rest;
    if "127."@.is_prefix_of(l) {
        assert(l.subrange(0, 4)[1] == '2');
        assert(l[1] == '9');
    }
    assert(l[0] == '1' && "::1"@[0] == ':' && "[::1]"@[0] == '[' && "localhost"@[0] == 'l');
    assert("[::]"@.len() == 4 && "0.0.0.0"@.len() == 7);
}

/// Every entry of a list of ports that publishes one is read, in order.
pub proof fn every_publishing_is_read(a: Seq<Seq<char>>, b: Seq<Seq<char>>, e: Seq<char>)
    ensures
        all_published(a + b) == all_published(a) + all_published(b),
        published(e) matches Some(p) ==> all_published(seq![e]) == seq![p],
        published(e) is None ==> all_published(seq![e]).len() == 0,
        host_ports(all_published(a)).len() == all_published(a).len(),
    decreases b.len(),
{
    assert(seq![e].drop_last() =~= Seq::<Seq<char>>::empty());
    reveal_with_fuel(all_published, 2);
    match published(e) {
        Some(p) => {
            assert(all_published(seq![e]) =~= seq![p]);
        },
        None => {},
    }
    if b.len() > 0 {
        every_publishing_is_read(a, b.drop_last(), e);
        assert((a + b).drop_last() =~= a + b.drop_last());
        assert((a + b).last() == b.last());
        assert(all_published(a + b) =~= all_published(a) + all_published(b));
    } else {
        assert(a + b =~= a);
        assert(all_published(a) + all_published(b) =~= all_published(a));
    }
}

proof fn lemma_first_piece(a: Seq<char>, c: char, b: Seq<char>)
    requires
        lacks(a, c),
    ensures
        text::pieces(a + seq![c] + b, c)[0] == a,
    decreases b.len(),
{
    let s = a + seq![c] + b;
    if b.len() == 0 {
        assert(s.drop_last() =~= a);
        lemma_one_piece(a, c);
        assert(text::pieces(s, c) == seq![a].push(Seq::<char>::empty()));
    } else {
        lemma_first_piece(a, c, b.drop_last());
        assert(s.drop_last() =~= a + seq![c] + b.drop_last());
        let p = text::pieces(s.drop_last(), c);
        text::lemma_pieces_nonempty(s.drop_last(), c);
        lemma_two_pieces(a, c, b.drop_last());
        assert(text::pieces(s, c)[0] == p[0]);
    }
}

proof fn lemma_two_pieces(a: Seq<char>, c: char, b: Seq<char>)
    ensures
        text::pieces(a + seq![c] + b, c).len() >= 2,
    decreases b.len(),
{
    let s = a + seq![c] + b;
    text::lemma_pieces_nonempty(a, c);
    if b.len() == 0 {
        assert(s.drop_last() =~= a);
    } else {
        lemma_two_pieces(a, c, b.drop_last());
        assert(s.drop_last() =~= a + seq![c] + b.drop_last());
    }
}

/// An image goes by its bare name: without the registry and the path ahead of it and the
/// tag behind it.
pub proof fn images_go_by_their_bare_name(dir: Seq<char>, name: Seq<char>, tag: Seq<char>)
    requires
        lacks(name, '/'),
        lacks(name, ':'),
        lacks(tag, '/'),
    ensures
        bare_image(name) == name,
        bare_image(name + ":"@ + tag) == name,
        bare_image(dir + "/"@ + name) == name,
        bare_image(dir + "/"@ + name + ":"@ + tag) == name,
{
    reveal_strlit("/");
    reveal_strlit(":");
    assert("/"@ =~= seq!['/']);
    assert(":"@ =~= seq![':']);
    let t = name + ":"@ + tag;
    assert(lacks(t, '/')) by {
        assert forall|i: int| 0 <= i < t.len() implies #[trigger] t[i] != '/' by {
            if i < name.len() {
                assert(name[i] != '/');
            } else if i > name.len() {
                assert(tag[i - name.len() - 1] != '/');
            }
        }
    }
    lemma_one_piece(name, '/');
    lemma_one_piece(t, '/');
    lemma_one_piece(name, ':');
    lemma_first_piece(name, ':', tag);
    lemma_last_piece(dir, '/', name);
    lemma_last_piece(dir, '/', t);
    assert(dir + "/"@ + name + ":"@ + tag =~= dir + "/"@ + t);
    assert(seq![name].last() == name && seq![t].last() == t);
    assert(text::pieces(dir, '/').push(name).last() == name);
    assert(text::pieces(dir, '/').push(t).last() == t);
}

/// A line of the listing is a name, its ports and its image, with tabs between them.
pub proof fn listing_lines_are_read(name: Seq<char>, ports: Seq<char>, image: Seq<char>)
    requires
        lacks(name, '\t'),
        lacks(ports, '\t'),
        lacks(image, '\t'),
    ensures
        container_line(name + seq!['\t'] + ports + seq!['\t'] + image) == Some(
            (name, ports, image),
        ),
{
    let c = '\t';
    let head = name + seq![c] + ports;
    lemma_one_piece(name, c);
    lemma_last_piece(name, c, ports);
    lemma_last_piece(head, c, image);
    let f = text::pieces(head + seq![c] + image, c);
    assert(f =~= seq![name, ports, image]);
    assert(f.skip(2) =~= seq![image]);
}

/// A container that comes first keeps a port; a later line gives it only where no earlier
/// one did, with the line's name, its image's bare name, and whether the port can be reached
/// from outside.
pub proof fn the_first_container_keeps_its_port(
    lines: Seq<Seq<char>>,
    name: Seq<char>,
    ports: Seq<char>,
    image: Seq<char>,
    p: u16,
)
    requires
        lacks(name, '\t'),
        lacks(ports, '\t'),
        lacks(image, '\t'),
    ensures
        ({
            let line = name + seq!['\t'] + ports + seq!['\t'] + image;
            let before = containers(lines);
            let after = containers(lines.push(line));
            let pubs = all_published(text::pieces(ports, ','));
            &&& before.contains_key(p) ==> after.contains_key(p) && after[p] == before[p]
            &&& !before.contains_key(p) ==> (after.contains_key(p) <==> exists|i: int|
                0 <= i < pubs.len() && (#[trigger] pubs[i]).0 == p)
            &&& !before.contains_key(p) && after.contains_key(p) ==> after[p].name == name
                && after[p].image == bare_image(image) && (after[p].exposed <==> pubs.contains(
                (p, true),
            ))
        }),
{
    let line = name + seq!['\t'] + ports + seq!['\t'] + image;
    listing_lines_are_read(name, ports, image);
    assert(lines.push(line).drop_last() =~= lines);
    let pubs = all_published(text::pieces(ports, ','));
    let h = host_ports(pubs);
    if h.contains(p) {
        let i = choose|i: int| 0 <= i < h.len() && h[i] == p;
        assert(pubs[i].0 == p);
    }
    if exists|i: int| 0 <= i < pubs.len() && (#[trigger] pubs[i]).0 == p {
        let i = choose|i: int| 0 <= i < pubs.len() && (#[trigger] pubs[i]).0 == p;
        assert(h[i] == p);
    }
}

/// Any process with the name of a port forwarder in its own holds ports for containers.
pub proof fn forwarders_hold_ports_for_containers(a: Seq<char>, b: Seq<char>)
    ensures
        names_binder(a + "docker-proxy"@ + b),
        names_binder(a + "com.docker."@ + b),
        names_binder(a + "vpnkit"@ + b),
        names_binder(a + "OrbStack"@ + b),
        forall|n: Seq<char>| #[trigger]
            names_binder(n) ==> text::occurs("docker-proxy"@, n) || text::occurs("com.docker."@, n)
                || text::occurs("vpnkit"@, n) || text::occurs("OrbStack"@, n),
{
    text::lemma_stands_between(a, "docker-proxy"@, b);
    text::lemma_stands_between(a, "com.docker."@, b);
    text::lemma_stands_between(a, "vpnkit"@, b);
    text::lemma_stands_between(a, "OrbStack"@, b);
}

// ---------------------------------------------------------- lines of manifests

proof fn lemma_gem_split(v: Seq<char>, rest: Seq<char>)
    requires
        lacks(v, '='),
    ensures
        text::head_before(v + ".name = "@ + rest, "="@) == Some(v + ".name "@),
        text::tail_after(v + ".name = "@ + rest, "="@) == Some(" "@ + rest),
{
    reveal_strlit(".name = ");
    reveal_strlit(".name ");
    reveal_strlit("=");
    reveal_strlit(" ");
    let left = v + ".name "@;
    assert(lacks(left, '=')) by {
        assert forall|i: int| 0 <= i < left.len() implies #[trigger] left[i] != '=' by {
            if i < v.len() {
                assert(v[i] != '=');
            }
        }
    }
    lemma_first_at(left, "="@, " "@ + rest);
    assert(left + "="@ + (" "@ + rest) =~= v + ".name = "@ + rest);
}

proof fn lemma_gem_left(v: Seq<char>)
    requires
        is_trim(v),
    ensures
        ".name"@.is_suffix_of(text::trimmed(v + ".name "@)),
{
    reveal_strlit(".name ");
    reveal_strlit(".name");
    let l = v + ".name"@;
    let sp = seq![' '];
    assert(is_trim(l));
    assert(is_space(sp));
    trimming_takes_the_ends_off(Seq::empty(), l, sp);
    assert(Seq::<char>::empty() + l + sp =~= v + ".name "@);
    assert(l.subrange(l.len() - 5, l.len() as int) =~= ".name"@);
}

proof fn lemma_gem_right(q: char, n: Seq<char>)
    requires
        q == '"' || q == '\'',
        lacks(n, q),
    ensures
        quoted_text(text::trimmed(" "@ + (seq![q] + n + seq![q]))) == Some(n),
{
    reveal_strlit(" ");
    let one = seq![q];
    let s = one + n + one;
    let sp = seq![' '];
    assert(is_trim(s));
    assert(is_space(sp));
    trimming_takes_the_ends_off(sp, s, Seq::empty());
    assert(sp + s + Seq::<char>::empty() =~= " "@ + s);
    assert(s.take(1) =~= one);
    assert(s.skip(1) =~= n + one + Seq::<char>::empty());
    lemma_first_at(n, one, Seq::empty());
}

/// A gem's name line gives the name between its quotes, of either kind; a comment gives
/// none.
pub proof fn gem_lines_give_their_name(
    indent: Seq<char>,
    v: Seq<char>,
    q: char,
    n: Seq<char>,
    end: Seq<char>,
)
    requires
        is_space(indent),
        is_space(end),
        is_trim(v),
        lacks(v, '='),
        q == '"' || q == '\'',
        lacks(n, q),
    ensures
        v[0] != '#' ==> gem_on(indent + (v + ".name = "@ + (seq![q] + n + seq![q])) + end) == Some(
            n,
        ),
        v[0] == '#' ==> gem_on(indent + (v + ".name = "@ + (seq![q] + n + seq![q])) + end) is None,
{
    let quoted = seq![q] + n + seq![q];
    let t = v + ".name = "@ + quoted;
    assert(t[0] == v[0] && t.last() == q && t.len() > 0);
    assert(is_trim(t));
    trimming_takes_the_ends_off(indent, t, end);
    lemma_gem_split(v, quoted);
    lemma_gem_left(v);
    lemma_gem_right(q, n);
    reveal_strlit("#");
    if v[0] == '#' {
        assert("#"@ =~= t.subrange(0, 1));
    } else if "#"@.is_prefix_of(t) {
        assert(t.subrange(0, 1)[0] == '#');
    }
}

proof fn lemma_word_run(n: Seq<char>, rest: Seq<char>)
    requires
        forall|i: int| 0 <= i < n.len() ==> crate::project::is_word(#[trigger] n[i]),
        rest.len() > 0 ==> !crate::project::is_word(rest[0]),
    ensures
        word_length(n + rest) == n.len(),
    decreases n.len(),
{
    let s = n + rest;
    if n.len() > 0 {
        let d = n.drop_first();
        assert forall|i: int| 0 <= i < d.len() implies crate::project::is_word(#[trigger] d[i]) by {
            assert(crate::project::is_word(n[i + 1]));
        }
        lemma_word_run(d, rest);
        assert(s.drop_first() =~= d + rest);
        assert(s[0] == n[0]);
        assert(crate::project::is_word(n[0]));
    } else {
        assert(s =~= rest);
    }
}

/// A Mix project's application line gives the atom behind it, also where the list opens on
/// that line.
pub proof fn app_lines_give_their_name(
    indent: Seq<char>,
    n: Seq<char>,
    rest: Seq<char>,
    end: Seq<char>,
)
    requires
        is_space(indent),
        is_space(end),
        n.len() > 0,
        forall|i: int| 0 <= i < n.len() ==> crate::project::is_word(#[trigger] n[i]),
        is_trim(rest),
        !crate::project::is_word(rest[0]),
    ensures
        app_on(indent + ("app: :"@ + n + rest) + end) == Some(n),
        app_on(indent + ("[app: :"@ + n + rest) + end) == Some(n),
{
    reveal_strlit("app: :");
    reveal_strlit("[app: :");
    reveal_strlit("app:");
    reveal_strlit(":");
    let w = "app: :"@ + n + rest;
    let b = "[app: :"@ + n + rest;
    assert(w.last() == rest.last() && b.last() == rest.last());
    assert(w[0] == 'a' && b[0] == '[');
    assert(is_trim(w) && is_trim(b));
    trimming_takes_the_ends_off(indent, w, end);
    trimming_takes_the_ends_off(indent, b, end);
    assert(b.drop_first() =~= w);
    assert(text::without_leading(w, '[') == w);
    assert(text::without_leading(b, '[') == w);
    trimming_takes_the_ends_off(Seq::empty(), w, Seq::empty());
    assert(Seq::<char>::empty() + w + Seq::<char>::empty() =~= w);
    assert("app:"@ =~= w.subrange(0, 4));
    let v = ":"@ + n + rest;
    assert(v[0] == ':' && v.last() == rest.last());
    assert(is_trim(v));
    assert(is_space(seq![' ']));
    assert(w.skip(4) =~= seq![' '] + v + Seq::<char>::empty());
    trimming_takes_the_ends_off(seq![' '], v, Seq::empty());
    assert(":"@ =~= v.subrange(0, 1));
    assert(v.skip(1) =~= n + rest);
    lemma_word_run(n, rest);
    assert((n + rest).take(n.len() as int) =~= n);
}

/// What stands in the element of the parent is passed over.
pub proof fn the_parent_is_passed_over(h: Seq<char>, x: Seq<char>, t: Seq<char>)
    requires
        text::first_at(h + "<parent>"@ + x + "</parent>"@ + t, "<parent>"@, h.len() as int),
        text::first_at(
            h + "<parent>"@ + x + "</parent>"@ + t,
            "</parent>"@,
            (h + "<parent>"@ + x).len() as int,
        ),
        !text::occurs("<parent>"@, h + t),
    ensures
        artifact_of(h + "<parent>"@ + x + "</parent>"@ + t) == artifact_of(h + t),
{
    let pom = h + "<parent>"@ + x + "</parent>"@ + t;
    lemma_split_at(pom, "<parent>"@, h.len() as int);
    lemma_split_at(pom, "</parent>"@, (h + "<parent>"@ + x).len() as int);
    assert(pom.take(h.len() as int) =~= h);
    assert(pom.skip(((h + "<parent>"@ + x).len() + "</parent>"@.len()) as int) =~= t);
}

proof fn lemma_split_at(s: Seq<char>, p: Seq<char>, k: int)
    requires
        text::first_at(s, p, k),
    ensures
        text::head_before(s, p) == Some(s.take(k)),
        text::tail_after(s, p) == Some(s.skip(k + p.len())),
{
    assert(text::occurs(p, s));
    let i = choose|i: int| #[trigger] text::first_at(s, p, i);
    assert(i == k) by {
        if i < k {
            assert(!text::stands_at(s, p, i));
        } else if k < i {
            assert(!text::stands_at(s, p, k));
        }
    }
}

/// A project root is sought from the place itself upwards: what is sought from a place is
/// that place and then what is sought from the directory above it.
pub proof fn roots_are_sought_upwards(dir: Seq<char>, name: Seq<char>, i: int)
    requires
        dir.len() > 0,
        is_file_name(name),
    ensures
        upward(dir + "/"@ + name).len() == upward(dir).len() + 1,
        upward(dir + "/"@ + name)[0] == spelled(components(dir).push(name)),
        0 <= i < upward(dir).len() ==> upward(dir + "/"@ + name)[i + 1] == upward(dir)[i],
{
    reveal_strlit("/");
    lemma_components(dir, name);
    let c = components(dir);
    let d = c.push(name);
    assert(name != "/"@) by {
        if name == "/"@ {
            assert(name[0] == '/');
        }
    }
    if c.len() > 0 {
        assert(d[0] == c[0]);
    } else {
        assert(d[0] == name);
    }
    assert(d.take(d.len() as int) =~= d);
    if 0 <= i < upward(dir).len() {
        assert(d.take(d.len() - (i + 1)) =~= c.take(c.len() - i));
    }
}

// ----------------------------------------------------------------------- lines

proof fn lemma_pieces_after(a: Seq<char>, c: char, b: Seq<char>)
    requires
        lacks(a, c),
    ensures
        text::pieces(a + seq![c] + b, c) == seq![a] + text::pieces(b, c),
    decreases b.len(),
{
    let s = a + seq![c] + b;
    if b.len() == 0 {
        lemma_one_piece(a, c);
        assert(s.drop_last() =~= a);
        assert(text::pieces(s, c) =~= seq![a] + text::pieces(b, c));
    } else {
        let d = b.drop_last();
        lemma_pieces_after(a, c, d);
        text::lemma_pieces_nonempty(d, c);
        assert(s.drop_last() =~= a + seq![c] + d);
        assert(s.last() == b.last());
        assert(text::pieces(s, c) =~= seq![a] + text::pieces(b, c));
    }
}

proof fn lemma_line_off(a: Seq<char>, b: Seq<char>)
    requires
        lacks(a, '\n'),
    ensures
        text::lines_of(a + seq!['\n'] + b) == seq![text::without_cr(a)] + text::lines_of(b),
{
    let s = a + seq!['\n'] + b;
    lemma_pieces_after(a, '\n', b);
    text::lemma_pieces_nonempty(b, '\n');
    assert(text::pieces(s, '\n').last() == text::pieces(b, '\n').last());
    assert(text::lines_of(s) =~= seq![text::without_cr(a)] + text::lines_of(b));
}

/// A text is read line by line: each line ends before its line feed, and before the
/// carriage return in front of it; what follows the last line feed is a line where there
/// is any of it.
pub proof fn texts_are_read_line_by_line(a: Seq<char>, b: Seq<char>)
    requires
        lacks(a, '\n'),
    ensures
        a.len() == 0 ==> text::lines_of(a).len() == 0,
        a.len() > 0 ==> text::lines_of(a) == seq![a],
        a.len() == 0 || a.last() != '\r' ==> text::lines_of(a + "\n"@ + b) == seq![a]
            + text::lines_of(b),
        text::lines_of(a + "\r\n"@ + b) == seq![a] + text::lines_of(b),
{
    reveal_strlit("\n");
    reveal_strlit("\r\n");
    lemma_one_piece(a, '\n');
    if a.len() > 0 {
        assert(text::lines_of(a) =~= seq![a]);
    }
    assert(a + "\n"@ + b =~= a + seq!['\n'] + b);
    lemma_line_off(a, b);
    let r = a.push('\r');
    assert(lacks(r, '\n')) by {
        assert forall|i: int| 0 <= i < r.len() implies #[trigger] r[i] != '\n' by {
            if i < a.len() {
                assert(a[i] != '\n');
            }
        }
    }
    assert(a + "\r\n"@ + b =~= r + seq!['\n'] + b);
    lemma_line_off(r, b);
    assert(r.drop_last() =~= a);
}

/// What trimming takes off is the blank, the tab, the breaks of a line or a page, and the
/// other spaces that Unicode knows.
pub proof fn blanks_are_trimmed(c: char)
    ensures
        text::trimmed(seq![c]).len() == 0 <==> {
            let n = c as u32;
            ||| 9 <= n <= 13
            ||| 0x2000 <= n <= 0x200a
            ||| seq![32u32, 0x85, 0xa0, 0x1680, 0x2028, 0x2029, 0x202f, 0x205f, 0x3000].contains(n)
        },
{
    let n = c as u32;
    let l = seq![32u32, 0x85, 0xa0, 0x1680, 0x2028, 0x2029, 0x202f, 0x205f, 0x3000];
    assert(l[0] == 32 && l[1] == 0x85 && l[2] == 0xa0 && l[3] == 0x1680 && l[4] == 0x2028);
    assert(l[5] == 0x2029 && l[6] == 0x202f && l[7] == 0x205f && l[8] == 0x3000);
    reveal_with_fuel(text::trimmed_start, 2);
    reveal_with_fuel(text::trimmed_end, 2);
}

} // verus!
