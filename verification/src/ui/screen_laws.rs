//! What holds of the screen: which figures and names it shows of each target, and how the
//! parts of the screen share its room.
use vstd::prelude::*;

use super::entries::{entry_views, one_selection, EntryView, SortMode};
use super::format::{cpu_text, half_even, is_centered, mem_text, shortened, uptime_text, Rect};
use super::input::header_mode;
use super::render::{
    all_rows, columns, detail_extras, detail_spans, empty_message, footer_span, group_row_view,
    headings, inspect_lines, last_with_key, log_title, log_window, measured_cpu, measured_mem,
    member_lines, panes_of, port_list, project_detail, project_totals, reconciled, row_views, shows,
    sort_cells, tag_of, target_cells, target_detail, target_panel, title_text, Screen, SpanView,
    Tint,
};
use super::state::{opt_entry, selection, selection_hits, App, LogView};
use crate::laws::keys_differ;
use crate::model::{opt_text, TargetView};
use crate::resolve::{first_hit, lemma_first_hit};
use crate::text;

verus! {

// --------------------------------------------------------------------- figures

/// Rounding is to the nearest: the result is off by half a unit at most, and from the
/// middle it goes to the even side.
pub proof fn rounding_is_to_the_nearest(n: nat, d: nat)
    requires
        d > 0,
    ensures
        2 * d * half_even(n, d) <= 2 * n + d,
        2 * n <= 2 * d * half_even(n, d) + d,
        2 * n == 2 * d * half_even(n, d) + d || 2 * d * half_even(n, d) == 2 * n + d ==> half_even(
            n,
            d,
        ) % 2 == 0,
{
    let q = n / d;
    let r = n % d;
    assert(n == d * q + r && 0 <= r < d) by (nonlinear_arith)
        requires
            q == n / d,
            r == n % d,
            d > 0,
    ;
    let h = half_even(n, d);
    assert(2 * d * h == 2 * (d * h)) by (nonlinear_arith);
    if h == q + 1 {
        assert(d * h == d * q + d) by (nonlinear_arith)
            requires
                h == q + 1,
        ;
    }
}

/// A CPU share is shown in percent with one decimal place, to the nearest.
pub proof fn cpu_is_shown_to_a_tenth(cpu: nat)
    ensures
        exists|tenths: nat|
            {
                &&& cpu_text(cpu) == #[trigger] text::decimal(tenths / 10) + "."@ + text::decimal(
                    tenths % 10,
                ) + "%"@
                &&& 2 * 100_000_000 * tenths <= 2 * cpu + 100_000_000
                &&& 2 * cpu <= 2 * 100_000_000 * tenths + 100_000_000
            },
{
    let t = half_even(cpu, 100_000_000);
    rounding_is_to_the_nearest(cpu, 100_000_000);
    assert(cpu_text(cpu) == text::decimal(t / 10) + "."@ + text::decimal(t % 10) + "%"@);
}

/// Memory below a gigabyte is shown in whole megabytes that it fills, otherwise in
/// gigabytes with one decimal place, to the nearest.
pub proof fn memory_is_shown_in_its_unit(bytes: nat)
    ensures
        bytes < 1024 * 1024 * 1024 ==> exists|n: nat|
            {
                &&& mem_text(bytes) == #[trigger] text::decimal(n) + "MB"@
                &&& n * 1024 * 1024 <= bytes < (n + 1) * 1024 * 1024
            },
        bytes >= 1024 * 1024 * 1024 ==> exists|tenths: nat|
            {
                &&& mem_text(bytes) == #[trigger] text::decimal(tenths / 10) + "."@ + text::decimal(
                    tenths % 10,
                ) + "GB"@
                &&& 2 * 1_073_741_824 * tenths <= 20 * bytes + 1_073_741_824
                &&& 20 * bytes <= 2 * 1_073_741_824 * tenths + 1_073_741_824
            },
{
    if bytes < 1024 * 1024 * 1024 {
        let n = bytes / 1_048_576;
        assert(mem_text(bytes) == text::decimal(n) + "MB"@);
    } else {
        let t = half_even(10 * bytes, 1_073_741_824);
        rounding_is_to_the_nearest(10 * bytes, 1_073_741_824);
        assert(mem_text(bytes) == text::decimal(t / 10) + "."@ + text::decimal(t % 10) + "GB"@);
    }
}

/// How long something has run is shown in the largest unit that it fills, as often as it
/// fills it; where the start is not known, by a dash.
pub proof fn uptime_is_shown_in_its_unit(start: u64, now: u64)
    ensures
        start == 0 ==> uptime_text(start, now) == "—"@,
        0 < start <= now ==> exists|n: nat|
            {
                let s = now - start;
                ||| uptime_text(start, now) == #[trigger] text::decimal(n) + "s"@ && s == n && s < 60
                ||| uptime_text(start, now) == text::decimal(n) + "m"@ && n * 60 <= s < (n + 1) * 60
                    && 60 <= s < 60 * 60
                ||| uptime_text(start, now) == text::decimal(n) + "h"@ && n * 3600 <= s < (n + 1)
                    * 3600 && 3600 <= s < 24 * 3600
                ||| uptime_text(start, now) == text::decimal(n) + "d"@ && n * 86_400 <= s < (n + 1)
                    * 86_400 && 24 * 3600 <= s
            },
        start > now ==> uptime_text(start, now) == "0s"@,
{
    if 0 < start <= now {
        let s: nat = (now - start) as nat;
        let n: nat = if s < 60 {
            s
        } else if s < 3600 {
            s / 60
        } else if s < 86_400 {
            s / 3600
        } else {
            s / 86_400
        };
        assert(text::decimal(n).len() >= 0);
    }
    if start > now {
        reveal_strlit("0s");
        reveal_strlit("s");
        assert(text::decimal(0) =~= seq!['0']);
        assert(uptime_text(start, now) =~= "0s"@);
    }
}

/// A path below the home directory is shown with a tilde in its place, and any other as it
/// is.
pub proof fn home_is_shown_as_a_tilde(home: Seq<char>, rest: Seq<char>, path: Seq<char>)
    requires
        home.len() > 0,
    ensures
        shortened(home + rest, Some(home)) == "~"@ + rest,
        path.len() < home.len() ==> shortened(path, Some(home)) == path,
        shortened(path, None) == path,
        shortened(path, Some(home)) == path || path.take(home.len() as int) == home,
{
    let p = home + rest;
    assert(home =~= p.subrange(0, home.len() as int));
    assert(p.skip(home.len() as int) =~= rest);
    if home.is_prefix_of(path) {
        assert(path.take(home.len() as int) =~= path.subrange(0, home.len() as int));
    }
}

/// What is centred lies inside and as far from one side as from the other, or half a cell
/// off.
pub proof fn centred_is_in_the_middle(r: Rect, w: u16, h: u16, area: Rect)
    requires
        is_centered(r, w, h, area),
        w <= area.width,
        h <= area.height,
    ensures
        r.width == w && r.height == h,
        area.x <= r.x && r.x + r.width <= area.x + area.width,
        area.y <= r.y && r.y + r.height <= area.y + area.height,
        0 <= (area.x + area.width - r.x - r.width) - (r.x - area.x) <= 1,
        0 <= (area.y + area.height - r.y - r.height) - (r.y - area.y) <= 1,
{
}

// ----------------------------------------------------------------------- table

/// The row of a target tells its project, command, lowest port, CPU share, memory, uptime
/// and branch, in this order; a member of a group leaves the project to the header.
pub proof fn rows_tell_the_target(t: TargetView, indent: bool, flashing: bool, unix: u64)
    ensures
        ({
            let c = target_cells(t, indent, flashing, unix);
            &&& c.len() == 7
            &&& forall|i: int| 0 <= i < 7 ==> (#[trigger] c[i]).len() > 0
            &&& !indent && t.kind is Listener ==> c[0][0].text == t.project
            &&& !indent && t.kind is Watched ==> c[0][0].text == t.project + " ·watch"@
            &&& flashing <==> c[0][0].bold
            &&& c[1][0].text == t.command_label
            &&& t.ports.len() == 0 && !t.exposed ==> c[2][0].text == "—"@
            &&& t.ports.len() > 0 && !t.exposed ==> c[2][0].text == ":"@ + text::decimal(
                t.ports[0] as nat,
            )
            &&& t.ports.len() > 0 && t.exposed ==> c[2][0].text == ":"@ + text::decimal(
                t.ports[0] as nat,
            ) + "!"@
            &&& t.exposed <==> c[2][0].tint == Tint::Red
            &&& t.pids.len() > 0 ==> c[3][0].text == cpu_text(t.cpu as nat) && c[4][0].text
                == mem_text(t.mem_bytes as nat)
            &&& t.pids.len() == 0 ==> c[3][0].text == "—"@ && c[4][0].text == "—"@
            &&& c[5][0].text == uptime_text(t.anchor.start_time, unix)
            &&& t.git_branch matches Some(b) ==> c[6][0].text == b
            &&& t.git_branch is None ==> c[6][0].text == "—"@
        }),
{
}

/// Databases and caches are tagged as such, other containers as containers, and nothing
/// else is.
pub proof fn tags_tell_the_kind(t: TargetView)
    ensures
        t.command_label == "postgres"@ || t.command_label == "mysql"@ || t.command_label
            == "mongodb"@ ==> tag_of(t) == Some("db"@),
        t.command_label == "redis"@ || t.command_label == "memcached"@ ==> tag_of(t) == Some(
            "cache"@,
        ),
        t.command_label != "postgres"@ && t.command_label != "mysql"@ && t.command_label
            != "mongodb"@ && t.command_label != "redis"@ && t.command_label != "memcached"@ ==> {
            &&& t.container is Some ==> tag_of(t) == Some("docker"@)
            &&& t.container is None ==> tag_of(t) is None
        },
{
    reveal_strlit("postgres");
    reveal_strlit("mysql");
    reveal_strlit("mongodb");
    reveal_strlit("redis");
    reveal_strlit("memcached");
    assert("mysql"@[0] == 'm' && "redis"@[0] == 'r');
    assert("postgres"@.len() == 8 && "mongodb"@.len() == 7 && "memcached"@.len() == 9
        && "redis"@.len() == 5 && "mysql"@.len() == 5);
}

/// How many of the targets are of the project.
pub open spec fn project_count(targets: Seq<TargetView>, project: Seq<char>) -> nat
    decreases targets.len(),
{
    if targets.len() == 0 {
        0
    } else {
        project_count(targets.drop_last(), project) + (if targets.last().project == project {
            1nat
        } else {
            0
        })
    }
}

/// The CPU of the targets of the project that have processes, together.
pub open spec fn measured_cpu_in(targets: Seq<TargetView>, project: Seq<char>) -> nat
    decreases targets.len(),
{
    if targets.len() == 0 {
        0
    } else {
        measured_cpu_in(targets.drop_last(), project) + (if targets.last().project == project
            && targets.last().pids.len() > 0 {
            targets.last().cpu as nat
        } else {
            0
        })
    }
}

/// The memory of the targets of the project that have processes, together.
pub open spec fn measured_memory_in(targets: Seq<TargetView>, project: Seq<char>) -> nat
    decreases targets.len(),
{
    if targets.len() == 0 {
        0
    } else {
        measured_memory_in(targets.drop_last(), project) + (if targets.last().project == project
            && targets.last().pids.len() > 0 {
            targets.last().mem_bytes as nat
        } else {
            0
        })
    }
}

proof fn lemma_project_sums(targets: Seq<TargetView>, project: Seq<char>)
    ensures
        ({
            let members = selection(targets, Some(EntryView::Group(project)));
            &&& members.len() == project_count(targets, project)
            &&& measured_cpu(members) == measured_cpu_in(targets, project)
            &&& measured_mem(members) == measured_memory_in(targets, project)
        }),
    decreases targets.len(),
{
    if targets.len() > 0 {
        let d = targets.drop_last();
        lemma_project_sums(d, project);
        let before = selection(d, Some(EntryView::Group(project)));
        assert(before.push(targets.last()).drop_last() =~= before);
    }
}

/// The header of a project tells its name, how many targets it has, and their CPU and
/// memory together, over all targets of the project that have processes.
pub proof fn headers_sum_their_project(a: App, project: Seq<char>)
    ensures
        ({
            let r = group_row_view(a, project);
            let cpu = measured_cpu_in(a.targets(), project);
            let mem = measured_memory_in(a.targets(), project);
            &&& r.heading && !r.dying && r.cells.len() == 7
            &&& text::occurs(
                " "@ + project + " ("@ + text::decimal(project_count(a.targets(), project)) + ")"@,
                r.cells[0][0].text,
            )
            &&& cpu <= u64::MAX ==> r.cells[3][0].text == cpu_text(cpu)
            &&& mem <= u64::MAX ==> r.cells[4][0].text == mem_text(mem)
        }),
{
    lemma_project_sums(a.targets(), project);
    let sum = project_totals(a.targets(), project);
    let mark = if text::texts(a.collapsed@).contains(project) { "▸"@ } else { "▾"@ };
    let mid = " "@ + project + " ("@ + text::decimal(sum.0) + ")"@;
    let whole = mark + " "@ + project + " ("@ + text::decimal(sum.0) + ")"@;
    assert(whole =~= mark + mid + Seq::<char>::empty());
    text::lemma_stands_between(mark, mid, Seq::empty());
}

proof fn lemma_with_key(targets: Seq<TargetView>, i: int)
    requires
        keys_differ(targets),
        0 <= i < targets.len(),
    ensures
        last_with_key(targets, targets[i].key) == Some(targets[i]),
    decreases targets.len(),
{
    let d = targets.drop_last();
    if i < targets.len() - 1 {
        assert(d[i] == targets[i]);
        assert(targets[i].key != targets[targets.len() - 1].key);
        assert(keys_differ(d)) by {
            assert forall|x: int, y: int| 0 <= x < y < d.len() implies (#[trigger] d[x]).key != (
            #[trigger] d[y]).key by {
                assert(targets[x].key != targets[y].key);
            }
        }
        lemma_with_key(d, i);
    }
}

/// The table has one row for each row of the view, in order: a header's is that of its
/// project, and any other that of the target with its key, indented inside a group, marked
/// while it dies and while it is new.
pub proof fn the_table_shows_the_view(a: App, now: u64, unix: u64, i: int, k: int)
    requires
        keys_differ(a.targets()),
        0 <= i < a.display@.len(),
    ensures
        all_rows(a, now, unix).len() == a.display@.len(),
        a.display@[i]@ matches EntryView::Group(p) ==> all_rows(a, now, unix)[i] == group_row_view(
            a,
            p,
        ),
        0 <= k < a.targets().len() && a.display@[i]@ == EntryView::Member(a.targets()[k].key) ==> {
            let r = all_rows(a, now, unix)[i];
            &&& r.cells == target_cells(
                a.targets()[k],
                true,
                a.flashes(a.targets()[k].key, now),
                unix,
            )
            &&& r.dying == a.dies(a.targets()[k].key)
            &&& !r.heading
        },
        0 <= k < a.targets().len() && a.display@[i]@ == EntryView::Target(a.targets()[k].key) ==> {
            let r = all_rows(a, now, unix)[i];
            &&& r.cells == target_cells(
                a.targets()[k],
                false,
                a.flashes(a.targets()[k].key, now),
                unix,
            )
            &&& r.dying == a.dies(a.targets()[k].key)
            &&& !r.heading
        },
{
    assert(entry_views(a.display@)[i] == a.display@[i]@);
    if 0 <= k < a.targets().len() {
        lemma_with_key(a.targets(), k);
    }
}

/// The heading of the column that sorts is marked, and no other; a narrow table leaves out
/// columns from the right.
pub proof fn the_sorted_column_is_marked(sort: SortMode, width: u16)
    ensures
        headings(sort).len() == 7,
        headings(sort)[0] == "PROJECT"@ && headings(sort)[1] == "COMMAND"@,
        headings(sort)[5] == "UP"@ && headings(sort)[6] == "BRANCH"@,
        headings(sort)[2] == (if sort == SortMode::Port { "PORT ▾"@ } else { "PORT"@ }),
        headings(sort)[3] == (if sort == SortMode::Cpu { "CPU ▾"@ } else { "CPU"@ }),
        headings(sort)[4] == (if sort == SortMode::Mem { "MEM ▾"@ } else { "MEM"@ }),
        5 <= columns(width) <= 7,
        columns(width) == 7 <==> width >= 92,
        columns(width) == 5 <==> width < 76,
{
    reveal_strlit("PORT");
    reveal_strlit("CPU");
    reveal_strlit("MEM");
    reveal_strlit(" ▾");
    reveal_strlit("");
    reveal_strlit("PORT ▾");
    reveal_strlit("CPU ▾");
    reveal_strlit("MEM ▾");
    assert("PORT"@ + " ▾"@ =~= "PORT ▾"@);
    assert("CPU"@ + " ▾"@ =~= "CPU ▾"@);
    assert("MEM"@ + " ▾"@ =~= "MEM ▾"@);
    assert("PORT"@ + ""@ =~= "PORT"@);
    assert("CPU"@ + ""@ =~= "CPU"@);
    assert("MEM"@ + ""@ =~= "MEM"@);
}

/// A click on the header of the port, CPU or memory column sorts by it, and on no other:
/// the columns start where the ones to their left end.
pub proof fn header_columns_sort(area: Rect, x: u16)
    requires
        area.x + 68 <= u16::MAX,
    ensures
        header_mode(sort_cells(area), x) == Some(SortMode::Port) <==> area.x + 43 <= x < area.x
            + 50,
        header_mode(sort_cells(area), x) == Some(SortMode::Cpu) <==> area.x + 51 <= x < area.x
            + 58,
        header_mode(sort_cells(area), x) == Some(SortMode::Mem) <==> area.x + 59 <= x < area.x
            + 68,
{
    let c = sort_cells(area);
    super::state_laws::header_cells_sort(c, x, 0);
    super::state_laws::header_cells_sort(c, x, 1);
    super::state_laws::header_cells_sort(c, x, 2);
    if x < area.x + 43 || area.x + 50 <= x < area.x + 51 || area.x + 58 <= x < area.x + 59 || area.x
        + 68 <= x {
        assert forall|j: int| 0 <= j < c.len() implies !((#[trigger] c[j]).0 <= x < c[j].1) by {}
    }
}

/// The title tells how many targets there are and how they are sorted.
pub proof fn the_title_counts(a: App)
    ensures
        text::occurs(text::decimal(a.targets().len()), title_text(a)),
        text::occurs(a.sort.text(), title_text(a)),
        a.sort == SortMode::Port ==> a.sort.text() == "port"@,
        a.sort == SortMode::Cpu ==> a.sort.text() == "cpu"@,
        a.sort == SortMode::Mem ==> a.sort.text() == "mem"@,
{
    let n = text::decimal(a.targets().len());
    let rest = " targets · sort:"@ + a.sort.text() + " "@;
    assert(title_text(a) =~= " marina · "@ + n + rest);
    text::lemma_stands_between(" marina · "@, n, rest);
    text::lemma_stands_between(" marina · "@ + n + " targets · sort:"@, a.sort.text(), " "@);
}

/// An empty table says whether nothing runs or nothing matches.
pub proof fn an_empty_table_says_why(a: App)
    ensures
        a.targets().len() == 0 ==> empty_message(a) == "No dev processes detected."@,
        a.targets().len() > 0 ==> empty_message(a) == "No targets match the filter."@,
{
}

// --------------------------------------------------------------------- details

/// Some part of a line holds the text.
pub open spec fn line_holds(line: Seq<SpanView>, s: Seq<char>) -> bool {
    exists|i: int| 0 <= i < line.len() && text::occurs(s, (#[trigger] line[i]).text)
}

/// The detail line tells of a target its project, command, URL, directory, branch and how
/// many processes it has; it warns of one that can be reached from outside, and names its
/// container.
pub proof fn details_tell_the_target(t: TargetView, home: Option<Seq<char>>)
    ensures
        ({
            let line = target_detail(t, home);
            &&& line.len() > 0
            &&& text::occurs(t.project, line[0].text)
            &&& text::occurs(t.command_label, line[0].text)
            &&& t.url matches Some(u) ==> text::occurs(u.value, line[0].text)
            &&& text::occurs(shortened(t.cwd, home), line[0].text)
            &&& t.git_branch matches Some(b) ==> text::occurs(b, line[0].text)
            &&& text::occurs("pids:"@ + text::decimal(t.pids.len()), line[0].text)
            &&& t.container matches Some(c) ==> line_holds(line, c)
            &&& t.exposed ==> line.last().tint == Tint::Red
            &&& !t.exposed ==> forall|i: int| 0 <= i < line.len() ==> (#[trigger] line[i]).tint
                != Tint::Red
            &&& t.ports.len() > 1 ==> line_holds(line, port_list(t.ports))
        }),
{
    let line = target_detail(t, home);
    let url = super::render::url_or_dash(t);
    let cwd = shortened(t.cwd, home);
    let branch = super::render::or_dash(t.git_branch);
    let n = text::decimal(t.pids.len());
    let s = line[0].text;
    let dot = " · "@;
    let head0 = "  "@;
    let head1 = head0 + t.project + dot;
    let head2 = head1 + t.command_label + dot;
    let head3 = head2 + url + dot;
    let head4 = head3 + cwd + dot;
    let head5 = head4 + branch;
    reveal_strlit(" · pids:");
    reveal_strlit("pids:");
    reveal_strlit(" · ");
    assert(" · pids:"@ =~= " · "@ + "pids:"@);
    assert(s == head5 + " · pids:"@ + n);
    assert(s.take((head0 + t.project).len() as int) =~= head0 + t.project);
    assert(s.take((head1 + t.command_label).len() as int) =~= head1 + t.command_label);
    assert(s.take((head2 + url).len() as int) =~= head2 + url);
    assert(s.take((head3 + cwd).len() as int) =~= head3 + cwd);
    assert(s.take((head4 + branch).len() as int) =~= head4 + branch);
    lemma_inside(s, head0, t.project);
    lemma_inside(s, head1, t.command_label);
    lemma_inside(s, head2, url);
    lemma_inside(s, head3, cwd);
    lemma_inside(s, head4, branch);
    assert(s =~= (head5 + dot) + ("pids:"@ + n) + Seq::<char>::empty());
    text::lemma_stands_between(head5 + dot, "pids:"@ + n, Seq::empty());
    let more = detail_extras(t);
    let p = if t.ports.len() > 1 { 1int } else { 0 };
    if t.ports.len() > 1 {
        text::lemma_stands_between(" · "@, port_list(t.ports), Seq::empty());
        assert(" · "@ + port_list(t.ports) + Seq::<char>::empty() =~= " · "@ + port_list(t.ports));
        assert(line[1].text == " · "@ + port_list(t.ports));
        assert(line_holds(line, port_list(t.ports)));
    }
    match t.container {
        Some(c) => {
            text::lemma_stands_between(" · container:"@, c, Seq::empty());
            assert(" · container:"@ + c + Seq::<char>::empty() =~= " · container:"@ + c);
            assert(line[1 + p].text == " · container:"@ + c);
            assert(line_holds(line, c));
        },
        None => {},
    }
}

proof fn lemma_inside(s: Seq<char>, head: Seq<char>, p: Seq<char>)
    requires
        (head + p).len() <= s.len(),
        s.take((head + p).len() as int) == head + p,
    ensures
        text::occurs(p, s),
{
    let n = (head + p).len() as int;
    let rest = s.skip(n);
    assert(s =~= s.take(n) + rest);
    assert(s =~= head + p + rest);
    text::lemma_stands_between(head, p, rest);
}

/// The inspector tells of a target its project, command, program, ports, URL, directory,
/// branch, processes or container, and uptime.
pub proof fn the_inspector_tells_the_target(t: TargetView, home: Option<Seq<char>>, unix: u64)
    ensures
        ({
            let l = target_panel(t, home, unix);
            &&& l.len() == 6
            &&& text::occurs(t.project, l[0][0].text)
            &&& text::occurs(t.command_label, l[0][1].text)
            &&& t.anchor_argv.len() > 0 ==> text::occurs(t.anchor_argv[0], l[1][1].text)
            &&& t.ports.len() > 0 ==> l[2][1].text == port_list(t.ports)
            &&& t.exposed <==> l[2].len() == 3
            &&& t.url matches Some(u) ==> l[3][1].text == u.value
            &&& text::occurs(shortened(t.cwd, home), l[4][1].text)
            &&& t.git_branch matches Some(b) ==> text::occurs(b, l[4][1].text)
            &&& t.container matches Some(c) ==> text::occurs(c, l[5][1].text)
            &&& t.container is None ==> text::occurs(
                uptime_text(t.anchor.start_time, unix),
                l[5][1].text,
            ) && text::occurs(text::decimal(t.anchor.pid as nat), l[5][1].text)
        }),
{
    let l = target_panel(t, home, unix);
    lemma_tail(" "@, t.project);
    lemma_tail(" · "@, t.command_label);
    lemma_head(shortened(t.cwd, home), " · "@ + super::render::or_dash(t.git_branch));
    assert(l[4][1].text =~= shortened(t.cwd, home) + (" · "@ + super::render::or_dash(
        t.git_branch,
    )));
    lemma_tail(shortened(t.cwd, home) + " · "@, super::render::or_dash(t.git_branch));
    if t.anchor_argv.len() == 1 {
        lemma_head(t.anchor_argv[0], Seq::empty());
        assert(t.anchor_argv[0] + Seq::<char>::empty() =~= t.anchor_argv[0]);
    } else if t.anchor_argv.len() > 1 {
        let rest = " (+"@ + text::decimal((t.anchor_argv.len() - 1) as nat) + " args)"@;
        assert(l[1][1].text =~= t.anchor_argv[0] + rest);
        lemma_head(t.anchor_argv[0], rest);
    }
    match t.container {
        Some(c) => {
            lemma_tail("container "@, c);
        },
        None => {
            let n = text::decimal(t.pids.len());
            let a = text::decimal(t.anchor.pid as nat);
            let u = uptime_text(t.anchor.start_time, unix);
            lemma_tail(n + " pids · anchor "@ + a + " · up "@, u);
            let rest = " · up "@ + u;
            assert(l[5][1].text =~= (n + " pids · anchor "@) + a + rest);
            text::lemma_stands_between(n + " pids · anchor "@, a, rest);
        },
    }
}

proof fn lemma_tail(head: Seq<char>, p: Seq<char>)
    ensures
        text::occurs(p, head + p),
{
    assert(head + p + Seq::<char>::empty() =~= head + p);
    text::lemma_stands_between(head, p, Seq::empty());
}

proof fn lemma_head(p: Seq<char>, rest: Seq<char>)
    ensures
        text::occurs(p, p + rest),
{
    assert(Seq::<char>::empty() + p + rest =~= p + rest);
    text::lemma_stands_between(Seq::empty(), p, rest);
}

/// The detail line and the inspector are about what the cursor is on: a header's project,
/// or the target under the cursor.
pub proof fn details_follow_the_cursor(a: App, home: Option<Seq<char>>, unix: u64)
    ensures
        super::state::under_cursor(a.targets(), opt_entry(a.selected)) matches Some(t) ==> {
            &&& detail_spans(a, home) == target_detail(t, home)
            &&& inspect_lines(a, home, unix) == target_panel(t, home, unix)
        },
        opt_entry(a.selected) matches Some(EntryView::Group(p)) ==> {
            let members = selection(a.targets(), Some(EntryView::Group(p)));
            &&& detail_spans(a, home).len() == 1
            &&& text::occurs(p, detail_spans(a, home)[0].text)
            &&& inspect_lines(a, home, unix).len() == 1 + (if members.len() <= 5 {
                members.len()
            } else {
                5
            })
            &&& text::occurs(p, inspect_lines(a, home, unix)[0][0].text)
            &&& forall|i: int|
                0 <= i < members.len() && i < 5 ==> (#[trigger] inspect_lines(
                    a,
                    home,
                    unix,
                )[i + 1])[1].text == members[i].command_label
        },
{
    match opt_entry(a.selected) {
        Some(EntryView::Group(p)) => {
            let s = detail_spans(a, home)[0].text;
            let head = "  "@;
            assert(s.take((head + p).len() as int) =~= head + p);
            lemma_inside(s, head, p);
            text::lemma_stands_between(" "@, p, " (group)"@);
        },
        _ => {},
    }
}

/// The footer tells what is being typed, else the last message, else what is wrong with the
/// data, else the filter that is on.
pub proof fn the_footer_tells_the_most_urgent(a: App)
    ensures
        a.filter_active ==> text::occurs(a.filter@, footer_span(a).text),
        !a.filter_active ==> (opt_text(a.status) matches Some(s) ==> text::occurs(
            s,
            footer_span(a).text,
        )),
        !a.filter_active && a.status is None ==> (opt_text(a.data_warning) matches Some(w)
            ==> text::occurs(w, footer_span(a).text) && footer_span(a).tint == Tint::Red),
        !a.filter_active && a.status is None && a.data_warning is None && a.filter@.len() > 0
            ==> text::occurs(a.filter@, footer_span(a).text),
{
    text::lemma_stands_between("  /"@, a.filter@, "▏  (Enter: apply · Esc: clear)"@);
    text::lemma_stands_between("  [filter: "@, a.filter@, "] · / edit · Esc clear · q quit"@);
    match opt_text(a.status) {
        Some(s) => {
            lemma_tail("  "@, s);
        },
        None => {},
    }
    match opt_text(a.data_warning) {
        Some(w) => {
            lemma_tail("  ⚠ "@, w);
        },
        None => {},
    }
}

// ------------------------------------------------------------------------- log

/// A log pane shows a run of lines of the log, no more than it has room for: the last ones
/// while it follows the end, and those from where it is pinned otherwise.
pub proof fn log_panes_show_a_run_of_lines(l: LogView, h: nat)
    ensures
        ({
            let all = text::texts(l.lines@);
            let n = all.len() as int;
            let shown = log_window(l, h);
            &&& shown.len() <= h
            &&& l.scroll is None && n <= h ==> shown == all
            &&& l.scroll is None && n > h ==> shown == all.subrange(n - h, n)
            &&& l.scroll matches Some(s) ==> (s < n ==> shown == all.subrange(
                s as int,
                if s + h <= n {
                    s + h
                } else {
                    n
                },
            ))
        }),
{
    let all = text::texts(l.lines@);
    let n = all.len() as int;
    let shown = log_window(l, h);
    assert(l.lines@.len() == n);
    if l.scroll is None {
        if n <= h {
            assert(shown =~= all);
        } else {
            assert(shown =~= all.subrange(n - h, n));
        }
    }
    match l.scroll {
        Some(s) => {
            if s < n {
                let end = if s + h <= n { s + h } else { n };
                assert(shown =~= all.subrange(s as int, end));
            }
        },
        None => {},
    }
}

/// The title of a log pane names the log and says whether it is pinned.
pub proof fn log_titles_name_the_log(l: LogView)
    ensures
        text::occurs(l.title@, log_title(l)),
        l.scroll is Some ==> text::occurs("scrolled"@, log_title(l)),
{
    let s = log_title(l);
    let head = " logs: "@;
    assert(s.take((head + l.title@).len() as int) =~= head + l.title@);
    lemma_inside(s, head, l.title@);
    if l.scroll is Some {
        reveal_strlit("scrolled");
        reveal_strlit("scrolled · ] follow · Esc close");
        let front = head + l.title@ + " — "@;
        assert(s.take((front + "scrolled"@).len() as int) =~= front + "scrolled"@);
        lemma_inside(s, front, "scrolled"@);
    }
}

// ----------------------------------------------------------------------- panes

/// The parts of the screen lie one below the other without a gap and fill it: the table,
/// the inspector and the log where they are open, one line of detail and one of keys.
pub proof fn panes_fill_the_screen(area: Rect, inspect: bool, log: Option<u16>)
    requires
        super::format::fits(area),
        super::render::below_table(inspect, log) <= area.height,
    ensures
        ({
            let p = panes_of(area, inspect, log);
            let below = p.table.y + p.table.height;
            let under_inspect = if inspect { below + 8 } else { below };
            let under_log = match log {
                Some(h) => under_inspect + h,
                None => under_inspect,
            };
            &&& p.table.y == area.y && p.table.x == area.x && p.table.width == area.width
            &&& p.inspect is Some <==> inspect
            &&& p.inspect matches Some(r) ==> r.y == below && r.height == 8 && r.x == area.x
                && r.width == area.width
            &&& p.log is Some <==> log is Some
            &&& p.log matches Some(r) ==> r.y == under_inspect && r.height == log->0 && r.x
                == area.x && r.width == area.width
            &&& p.detail.y == under_log && p.detail.height == 1
            &&& p.footer.y == under_log + 1 && p.footer.height == 1
            &&& p.footer.y + 1 == area.y + area.height
        }),
{
}

// ---------------------------------------------------------------------- cursor

/// After the rows are laid out the cursor is on one of them as long as there is one: on the
/// selected target wherever its row now stands, and the highlighted row is that row.
pub proof fn the_cursor_is_on_a_row(a: App, b: App, now: u64)
    requires
        reconciled(a, b, now),
    ensures
        entry_views(b.display@) == a.rows_at(now),
        b.selected is Some <==> a.rows_at(now).len() > 0,
        b.selected is Some ==> {
            let i = b.last_index as int;
            &&& b.table_selected == Some(b.last_index)
            &&& 0 <= i < b.display@.len()
            &&& b.selected == Some(b.display@[i])
            &&& a.selected is Some && (exists|j: int|
                0 <= j < a.rows_at(now).len() && one_selection(
                    #[trigger] a.rows_at(now)[j],
                    a.selected->0@,
                )) ==> one_selection(b.selected->0@, a.selected->0@)
        },
        b.filter == a.filter && b.sort == a.sort && b.snapshot == a.snapshot,
{
    let rows = a.rows_at(now);
    assert(entry_views(b.display@).len() == b.display@.len());
    match opt_entry(a.selected) {
        Some(s) => {
            let hits = selection_hits(rows, s);
            lemma_first_hit(hits);
            match first_hit(hits) {
                Some(i) => {
                    assert(hits[i]);
                    assert(entry_views(b.display@)[i] == b.display@[i]@);
                },
                None => {
                    if exists|j: int|
                        0 <= j < rows.len() && one_selection(#[trigger] rows[j], s) {
                        let j = choose|j: int|
                            0 <= j < rows.len() && one_selection(#[trigger] rows[j], s);
                        assert(!hits[j]);
                    }
                },
            }
        },
        None => {},
    }
    assert(b.display.len() == b.display@.len());
    assert(a.last_index >= 0);
}

// ---------------------------------------------------------------- whole screens

/// The screen shows the inspector, the log and the help exactly while they are open, one
/// heading for each column that has room, and one row for each row of the view or else a
/// message.
pub proof fn the_screen_shows_what_is_open(
    s: Screen,
    a: App,
    now: u64,
    unix: u64,
    home: Option<Seq<char>>,
    version: Seq<char>,
    config: Option<Seq<char>>,
)
    requires
        shows(s, a, now, unix, home, version, config),
    ensures
        s.inspect is Some <==> a.inspect,
        s.log is Some <==> a.log is Some,
        s.help is Some <==> a.show_help,
        s.rows@.len() == a.display@.len(),
        s.message is Some <==> a.display@.len() == 0,
        s.header@.len() == s.columns,
        text::occurs(text::decimal(a.targets().len()), s.title@),
        s.log matches Some(p) ==> text::occurs(a.log->0.title@, p.title@),
{
    the_title_counts(a);
    the_sorted_column_is_marked(a.sort, s.panes.table.width);
    assert(text::texts(s.header@).len() == s.header@.len());
    assert(row_views(s.rows@).len() == s.rows@.len());
    assert(entry_views(a.display@).len() == a.display@.len());
    match a.log {
        Some(l) => {
            log_titles_name_the_log(l);
        },
        None => {},
    }
}

/// The marks of a row: a member of a group is indented, what a target is stands behind its
/// command, and a header shows whether it is folded.
pub proof fn rows_are_marked(t: TargetView, flashing: bool, unix: u64, a: App, project: Seq<char>)
    ensures
        target_cells(t, true, flashing, unix)[0][0].text == "  ↳"@,
        tag_of(t) is None ==> target_cells(t, true, flashing, unix)[1].len() == 1,
        tag_of(t) matches Some(tag) ==> target_cells(t, true, flashing, unix)[1].len() == 2
            && target_cells(t, true, flashing, unix)[1][1].text == " ·"@ + tag,
        text::texts(a.collapsed@).contains(project) ==> group_row_view(
            a,
            project,
        ).cells[0][0].text[0] == '▸',
        !text::texts(a.collapsed@).contains(project) ==> group_row_view(
            a,
            project,
        ).cells[0][0].text[0] == '▾',
{
    reveal_strlit("▸");
    reveal_strlit("▾");
}

/// The detail line of a project counts its targets, and the inspector lists them with
/// their ports.
pub proof fn project_details_count(targets: Seq<TargetView>, project: Seq<char>, i: int)
    ensures
        text::occurs(
            text::decimal(project_count(targets, project)) + " services"@,
            project_detail(targets, project)[0].text,
        ),
        0 <= i < targets.len() && targets[i].ports.len() > 0 ==> text::occurs(
            text::decimal(targets[i].ports[0] as nat),
            member_lines(targets)[i][0].text,
        ),
{
    lemma_project_sums(targets, project);
    reveal_strlit(" services · ");
    reveal_strlit(" services");
    reveal_strlit(" · ");
    let n = text::decimal(project_count(targets, project));
    let s = project_detail(targets, project)[0].text;
    let head = "  "@ + project + " · "@;
    assert(" services · "@ =~= " services"@ + " · "@);
    assert(s.take((head + (n + " services"@)).len() as int) =~= head + (n + " services"@));
    lemma_inside(s, head, n + " services"@);
    if 0 <= i < targets.len() && targets[i].ports.len() > 0 {
        let t = targets[i];
        let p = text::decimal(t.ports[0] as nat);
        let l = member_lines(targets)[i][0].text;
        let front = " "@ + ":"@;
        assert(l.take((front + p).len() as int) =~= front + p);
        lemma_inside(l, front, p);
    }
}

} // verus!
