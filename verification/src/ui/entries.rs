//! The visible rows: targets that pass the filter, grouped by project, sorted, and
//! folded where a group is collapsed.
use vstd::prelude::*;

use super::ordering::{order_of, sort_indices, sorted_by, sorting_keeps_members, IndexOrder};
use crate::model::{target_views, KeyView, Target, TargetKey, TargetView};
use crate::proctree::unseen;
use crate::resolve::{first_hit, lemma_first_hit, lemma_is_first_hit};
use crate::sampler::comes_before;
use crate::text;
use crate::textmap::has_text;

verus! {

#[derive(Clone, Copy, Debug, PartialEq, Eq, Structural)]
pub enum SortMode {
    Port,
    Cpu,
    Mem,
}

impl SortMode {
    pub open spec fn text(self) -> Seq<char> {
        match self {
            SortMode::Port => "port"@,
            SortMode::Cpu => "cpu"@,
            SortMode::Mem => "mem"@,
        }
    }

    /// The name of the mode.
    pub fn label(self) -> (r: &'static str)
        ensures
            r@ == self.text(),
    {
        match self {
            SortMode::Port => "port",
            SortMode::Cpu => "cpu",
            SortMode::Mem => "mem",
        }
    }

    pub open spec fn following(self) -> SortMode {
        match self {
            SortMode::Port => SortMode::Cpu,
            SortMode::Cpu => SortMode::Mem,
            SortMode::Mem => SortMode::Port,
        }
    }

    /// The mode after this one.
    pub fn next(self) -> (r: SortMode)
        ensures
            r == self.following(),
    {
        match self {
            SortMode::Port => SortMode::Cpu,
            SortMode::Cpu => SortMode::Mem,
            SortMode::Mem => SortMode::Port,
        }
    }

    /// Whether the mode sorts by a figure that changes all the time.
    pub fn is_volatile(self) -> (r: bool)
        ensures
            r == (self != SortMode::Port),
    {
        match self {
            SortMode::Port => false,
            _ => true,
        }
    }
}

/// A visible row: the header of a project's group, a member of an unfolded group, or
/// the only target of its project.
#[derive(Debug, PartialEq, Eq)]
pub enum Entry {
    Group(String),
    Member(TargetKey),
    Target(TargetKey),
}

/// An `Entry` as plain values.
pub enum EntryView {
    Group(Seq<char>),
    Member(KeyView),
    Target(KeyView),
}

impl View for Entry {
    type V = EntryView;

    open spec fn view(&self) -> EntryView {
        match self {
            Entry::Group(p) => EntryView::Group(p@),
            Entry::Member(k) => EntryView::Member(k@),
            Entry::Target(k) => EntryView::Target(k@),
        }
    }
}

impl Clone for Entry {
    fn clone(&self) -> (r: Self)
        ensures
            r == *self,
    {
        match self {
            Entry::Group(p) => Entry::Group(p.clone()),
            Entry::Member(k) => Entry::Member(k.clone()),
            Entry::Target(k) => Entry::Target(k.clone()),
        }
    }
}

pub open spec fn entry_views(v: Seq<Entry>) -> Seq<EntryView> {
    v.map_values(|e: Entry| e@)
}

/// The target key behind a row.
pub open spec fn entry_key(e: EntryView) -> Option<KeyView> {
    match e {
        EntryView::Group(_) => None,
        EntryView::Member(k) => Some(k),
        EntryView::Target(k) => Some(k),
    }
}

/// Two rows are one selection: the same target, in a group or not, or the same group.
pub open spec fn one_selection(a: EntryView, b: EntryView) -> bool {
    match (entry_key(a), entry_key(b)) {
        (Some(x), Some(y)) => x == y,
        _ => a == b,
    }
}

/// The target key behind an entry; none for a group header.
pub fn key_of(e: &Entry) -> (r: Option<&TargetKey>)
    ensures
        match r {
            Some(k) => entry_key(e@) == Some(k@),
            None => entry_key(e@) is None,
        },
{
    match e {
        Entry::Group(_) => None,
        Entry::Member(k) => Some(k),
        Entry::Target(k) => Some(k),
    }
}

fn equal(a: &Entry, b: &Entry) -> (r: bool)
    ensures
        r == (a@ == b@),
{
    match (a, b) {
        (Entry::Group(p), Entry::Group(q)) => text::same(p.as_str(), q.as_str()),
        (Entry::Member(k), Entry::Member(l)) => k.same(l),
        (Entry::Target(k), Entry::Target(l)) => k.same(l),
        _ => false,
    }
}

/// Whether two entries are the same selection: the same target, in a group or not, or
/// the same group.
pub fn same_entry(a: &Entry, b: &Entry) -> (r: bool)
    ensures
        r == one_selection(a@, b@),
{
    match (key_of(a), key_of(b)) {
        (Some(x), Some(y)) => x.same(y),
        _ => equal(a, b),
    }
}

// --------------------------------------------------------------------- filter

/// The digits of some port hold the text.
pub open spec fn port_holds(ports: Seq<u16>, q: Seq<char>) -> bool {
    exists|i: int| 0 <= i < ports.len() && text::occurs(q, text::decimal(#[trigger] ports[i] as nat))
}

/// A target passes a filter: everything passes an empty one, otherwise some part of
/// its project, label, ports, directory or branch matches, in any case.
pub open spec fn passes(t: TargetView, filter: Seq<char>) -> bool {
    let q = text::lowercase(filter);
    ||| filter.len() == 0
    ||| text::occurs(q, text::lowercase(t.project))
    ||| text::occurs(q, text::lowercase(t.command_label))
    ||| port_holds(t.ports, q)
    ||| text::occurs(q, text::lowercase(t.cwd))
    ||| match t.git_branch {
        Some(b) => text::occurs(q, text::lowercase(b)),
        None => false,
    }
}

fn some_port_holds(ports: &[u16], q: &str) -> (r: bool)
    ensures
        r == port_holds(ports@, q@),
{
    let mut i: usize = 0;
    while i < ports.len()
        invariant
            i <= ports@.len(),
            forall|j: int|
                0 <= j < i ==> !text::occurs(q@, text::decimal(#[trigger] ports@[j] as nat)),
        decreases ports@.len() - i,
    {
        let d = text::to_decimal(ports[i] as u64);
        if text::contains(d.as_str(), q) {
            assert(text::occurs(q@, text::decimal(ports@[i as int] as nat)));
            return true;
        }
        i = i + 1;
    }
    false
}

/// Whether lowercased fields of a target, or its ports, hold a lowercased filter.
pub fn holds(q: &str, project: &str, label: &str, ports: &[u16], cwd: &str, branch: Option<&str>) -> (r:
    bool)
    ensures
        r == (text::occurs(q@, project@) || text::occurs(q@, label@) || port_holds(ports@, q@)
            || text::occurs(q@, cwd@) || match branch {
            Some(b) => text::occurs(q@, b@),
            None => false,
        }),
{
    text::contains(project, q) || text::contains(label, q) || some_port_holds(ports, q)
        || text::contains(cwd, q) || match branch {
        Some(b) => text::contains(b, q),
        None => false,
    }
}

/// Whether a target passes a filter.
pub fn matches(t: &Target, filter: &str) -> (r: bool)
    ensures
        r == passes(t@, filter@),
{
    if filter.unicode_len() == 0 {
        return true;
    }
    let q = text::to_lowercase(filter);
    let project = text::to_lowercase(t.project.as_str());
    let label = text::to_lowercase(t.command_label.as_str());
    let cwd = text::to_lowercase(t.cwd.as_str());
    match &t.git_branch {
        Some(b) => {
            let branch = text::to_lowercase(b.as_str());
            holds(
                q.as_str(),
                project.as_str(),
                label.as_str(),
                t.ports.as_slice(),
                cwd.as_str(),
                Some(branch.as_str()),
            )
        },
        None => holds(
            q.as_str(),
            project.as_str(),
            label.as_str(),
            t.ports.as_slice(),
            cwd.as_str(),
            None,
        ),
    }
}

// --------------------------------------------------------------------- groups

/// The targets of one project, by their places in the snapshot.
pub struct Group {
    pub project: String,
    pub members: Vec<usize>,
}

#[verifier::ext_equal]
pub struct GroupView {
    pub project: Seq<char>,
    pub members: Seq<usize>,
}

impl View for Group {
    type V = GroupView;

    open spec fn view(&self) -> GroupView {
        GroupView { project: self.project@, members: self.members@ }
    }
}

pub open spec fn group_views(v: Seq<Group>) -> Seq<GroupView> {
    v.map_values(|g: Group| g@)
}

pub open spec fn project_hits(groups: Seq<GroupView>, project: Seq<char>) -> Seq<bool> {
    Seq::new(groups.len(), |i: int| groups[i].project == project)
}

/// A target joins the group of its project.
pub open spec fn with_member(groups: Seq<GroupView>, project: Seq<char>, i: usize) -> Seq<GroupView> {
    match first_hit(project_hits(groups, project)) {
        Some(k) => groups.update(
            k,
            GroupView { project, members: groups[k].members.push(i) },
        ),
        None => groups.push(GroupView { project, members: seq![i] }),
    }
}

/// The first `n` targets that pass the filter, by project, in the order in which the
/// projects appear.
pub open spec fn grouped(targets: Seq<TargetView>, filter: Seq<char>, n: nat) -> Seq<GroupView>
    decreases n,
{
    if n == 0 {
        Seq::empty()
    } else {
        let before = grouped(targets, filter, (n - 1) as nat);
        let t = targets[n - 1];
        if passes(t, filter) {
            with_member(before, t.project, (n - 1) as usize)
        } else {
            before
        }
    }
}

fn add_member(groups: &mut Vec<Group>, project: &str, i: usize)
    ensures
        group_views(final(groups)@) == with_member(group_views(old(groups)@), project@, i),
{
    let ghost g0 = group_views(groups@);
    let ghost hits = project_hits(g0, project@);
    let mut k: usize = 0;
    while k < groups.len()
        invariant
            k <= groups@.len(),
            groups@ == old(groups)@,
            g0 == group_views(groups@),
            hits == project_hits(g0, project@),
            forall|j: int| 0 <= j < k ==> !#[trigger] hits[j],
        decreases groups@.len() - k,
    {
        let same = text::same(groups[k].project.as_str(), project);
        assert(hits[k as int] == same);
        if same {
            proof {
                lemma_is_first_hit(hits, k as int);
            }
            groups[k].members.push(i);
            proof {
                assert(group_views(groups@) =~= with_member(g0, project@, i));
            }
            return;
        }
        k = k + 1;
    }
    proof {
        lemma_first_hit(hits);
    }
    let mut members: Vec<usize> = Vec::new();
    members.push(i);
    groups.push(Group { project: project.to_owned(), members });
    proof {
        assert(members@ =~= seq![i]);
        assert(group_views(groups@) =~= with_member(g0, project@, i));
    }
}

/// Every member is the place of a target.
pub open spec fn members_known(groups: Seq<GroupView>, n: nat) -> bool {
    forall|k: int, j: int|
        0 <= k < groups.len() && 0 <= j < groups[k].members.len()
            ==> #[trigger] groups[k].members[j] < n
}

proof fn lemma_members_known(targets: Seq<TargetView>, filter: Seq<char>, n: nat)
    requires
        n <= targets.len(),
        n <= usize::MAX,
    ensures
        members_known(grouped(targets, filter, n), n),
    decreases n,
{
    if n > 0 {
        lemma_members_known(targets, filter, (n - 1) as nat);
        let before = grouped(targets, filter, (n - 1) as nat);
        let t = targets[n - 1];
        let hits = project_hits(before, t.project);
        lemma_first_hit(hits);
        let after = grouped(targets, filter, n);
        assert forall|k: int, j: int|
            0 <= k < after.len() && 0 <= j < after[k].members.len() implies #[trigger] after[k].members[j]
            < n by {
            if k < before.len() && j < before[k].members.len() {
                assert(before[k].members[j] < n - 1);
            }
        }
    }
}

/// Group the targets that pass a filter.
pub fn group_targets(targets: &[Target], filter: &str) -> (r: Vec<Group>)
    ensures
        group_views(r@) == grouped(target_views(targets@), filter@, targets@.len()),
        members_known(group_views(r@), targets@.len()),
{
    let ghost all = target_views(targets@);
    let mut groups: Vec<Group> = Vec::new();
    let mut i: usize = 0;
    proof {
        assert(group_views(groups@) =~= grouped(all, filter@, 0));
    }
    while i < targets.len()
        invariant
            i <= targets@.len(),
            all == target_views(targets@),
            group_views(groups@) == grouped(all, filter@, i as nat),
        decreases targets@.len() - i,
    {
        proof {
            assert(all[i as int] == targets@[i as int]@);
        }
        if matches(&targets[i], filter) {
            add_member(&mut groups, targets[i].project.as_str(), i);
        }
        i = i + 1;
    }
    proof {
        lemma_members_known(all, filter@, targets@.len());
    }
    groups
}

// ---------------------------------------------------------------------- orders

/// The order of targets in a mode: canonical, or the larger figure first.
pub open spec fn target_before(a: TargetView, b: TargetView, mode: SortMode) -> bool {
    match mode {
        SortMode::Port => comes_before(a, b),
        SortMode::Cpu => a.cpu > b.cpu,
        SortMode::Mem => a.mem_bytes > b.mem_bytes,
    }
}

/// The order of the places of targets in a mode.
pub open spec fn member_order(targets: Seq<TargetView>, mode: SortMode) -> spec_fn(usize, usize) -> bool {
    |a: usize, b: usize| target_before(targets[a as int], targets[b as int], mode)
}

struct MemberOrder<'a> {
    targets: &'a [Target],
    mode: SortMode,
}

impl<'a> IndexOrder for MemberOrder<'a> {
    closed spec fn knows(&self, a: usize) -> bool {
        a < self.targets@.len()
    }

    closed spec fn before(&self, a: usize, b: usize) -> bool {
        target_before(
            target_views(self.targets@)[a as int],
            target_views(self.targets@)[b as int],
            self.mode,
        )
    }

    fn is_before(&self, a: usize, b: usize) -> (r: bool) {
        let x = &self.targets[a];
        let y = &self.targets[b];
        match self.mode {
            SortMode::Port => crate::sampler::before(x, y),
            SortMode::Cpu => x.cpu > y.cpu,
            SortMode::Mem => x.mem_bytes > y.mem_bytes,
        }
    }
}

/// The smaller of two ports, where there are any.
pub open spec fn lesser(a: Option<u16>, b: Option<u16>) -> Option<u16> {
    match (a, b) {
        (Some(x), Some(y)) => if y < x {
            b
        } else {
            a
        },
        (Some(_), None) => a,
        (None, _) => b,
    }
}

/// The lowest of some ports.
pub open spec fn lowest(ports: Seq<u16>) -> Option<u16>
    decreases ports.len(),
{
    if ports.len() == 0 {
        None
    } else {
        lesser(lowest(ports.drop_last()), Some(ports.last()))
    }
}

/// The lowest port of some targets.
pub open spec fn lowest_of(targets: Seq<TargetView>, members: Seq<usize>) -> Option<u16>
    decreases members.len(),
{
    if members.len() == 0 {
        None
    } else {
        lesser(
            lowest_of(targets, members.drop_last()),
            lowest(targets[members.last() as int].ports),
        )
    }
}

/// The CPU shares of some targets together.
pub open spec fn cpu_of(targets: Seq<TargetView>, members: Seq<usize>) -> nat
    decreases members.len(),
{
    if members.len() == 0 {
        0
    } else {
        cpu_of(targets, members.drop_last()) + targets[members.last() as int].cpu as nat
    }
}

/// The memory of some targets together.
pub open spec fn mem_of(targets: Seq<TargetView>, members: Seq<usize>) -> nat
    decreases members.len(),
{
    if members.len() == 0 {
        0
    } else {
        mem_of(targets, members.drop_last()) + targets[members.last() as int].mem_bytes as nat
    }
}

/// The order of groups in a mode: by lowest port, groups without ports behind and by
/// name; or the larger sum first.
pub open spec fn group_before(
    targets: Seq<TargetView>,
    a: GroupView,
    b: GroupView,
    mode: SortMode,
) -> bool {
    match mode {
        SortMode::Port => match (lowest_of(targets, a.members), lowest_of(targets, b.members)) {
            (Some(x), Some(y)) => x < y,
            (Some(_), None) => true,
            (None, Some(_)) => false,
            (None, None) => text::precedes(a.project, b.project),
        },
        SortMode::Cpu => cpu_of(targets, a.members) > cpu_of(targets, b.members),
        SortMode::Mem => mem_of(targets, a.members) > mem_of(targets, b.members),
    }
}

/// The order of the places of groups in a mode.
pub open spec fn group_order(
    targets: Seq<TargetView>,
    groups: Seq<GroupView>,
    mode: SortMode,
) -> spec_fn(usize, usize) -> bool {
    |a: usize, b: usize| group_before(targets, groups[a as int], groups[b as int], mode)
}

fn lowest_port(ports: &[u16]) -> (r: Option<u16>)
    ensures
        r == lowest(ports@),
{
    let mut low: Option<u16> = None;
    let mut i: usize = 0;
    while i < ports.len()
        invariant
            i <= ports@.len(),
            low == lowest(ports@.take(i as int)),
        decreases ports@.len() - i,
    {
        proof {
            assert(ports@.take(i + 1).drop_last() =~= ports@.take(i as int));
            assert(ports@.take(i + 1).last() == ports@[i as int]);
        }
        low = lesser_of(low, Some(ports[i]));
        i = i + 1;
    }
    proof {
        assert(ports@.take(i as int) =~= ports@);
    }
    low
}

fn lesser_of(a: Option<u16>, b: Option<u16>) -> (r: Option<u16>)
    ensures
        r == lesser(a, b),
{
    match (a, b) {
        (Some(x), Some(y)) => if y < x {
            b
        } else {
            a
        },
        (Some(_), None) => a,
        (None, _) => b,
    }
}

/// What a group is ordered by.
struct Rank {
    low: Option<u16>,
    cpu: u128,
    mem: u128,
}

fn rank_of(targets: &[Target], members: &[usize]) -> (r: Rank)
    requires
        forall|j: int| 0 <= j < members@.len() ==> #[trigger] members@[j] < targets@.len(),
    ensures
        r.low == lowest_of(target_views(targets@), members@),
        r.cpu == cpu_of(target_views(targets@), members@),
        r.mem == mem_of(target_views(targets@), members@),
{
    let ghost all = target_views(targets@);
    let mut low: Option<u16> = None;
    let mut cpu: u128 = 0;
    let mut mem: u128 = 0;
    let mut i: usize = 0;
    while i < members.len()
        invariant
            i <= members@.len(),
            all == target_views(targets@),
            forall|j: int| 0 <= j < members@.len() ==> #[trigger] members@[j] < targets@.len(),
            low == lowest_of(all, members@.take(i as int)),
            cpu == cpu_of(all, members@.take(i as int)),
            mem == mem_of(all, members@.take(i as int)),
            cpu <= i * u64::MAX,
            mem <= i * u64::MAX,
        decreases members@.len() - i,
    {
        let m = members[i];
        let t = &targets[m];
        proof {
            assert(members@.take(i + 1).drop_last() =~= members@.take(i as int));
            assert(members@.take(i + 1).last() == m);
            assert(all[m as int] == t@);
            assert(i * u64::MAX + u64::MAX == (i + 1) * u64::MAX) by (nonlinear_arith);
            assert((i + 1) * u64::MAX <= 0x1_0000_0000_0000_0000 * 0x1_0000_0000_0000_0000)
                by (nonlinear_arith)
                requires
                    i + 1 <= 0x1_0000_0000_0000_0000,
            ;
        }
        let p = lowest_port(t.ports.as_slice());
        low = lesser_of(low, p);
        cpu = cpu + t.cpu as u128;
        mem = mem + t.mem_bytes as u128;
        i = i + 1;
    }
    proof {
        assert(members@.take(i as int) =~= members@);
    }
    Rank { low, cpu, mem }
}

struct GroupOrder<'a> {
    targets: &'a [Target],
    groups: &'a [Group],
    mode: SortMode,
}

impl<'a> IndexOrder for GroupOrder<'a> {
    closed spec fn knows(&self, a: usize) -> bool {
        &&& a < self.groups@.len()
        &&& forall|j: int|
            0 <= j < self.groups@[a as int].members@.len()
                ==> #[trigger] self.groups@[a as int].members@[j] < self.targets@.len()
    }

    closed spec fn before(&self, a: usize, b: usize) -> bool {
        group_before(
            target_views(self.targets@),
            group_views(self.groups@)[a as int],
            group_views(self.groups@)[b as int],
            self.mode,
        )
    }

    fn is_before(&self, a: usize, b: usize) -> (r: bool) {
        let g = &self.groups[a];
        let h = &self.groups[b];
        let x = rank_of(self.targets, g.members.as_slice());
        let y = rank_of(self.targets, h.members.as_slice());
        match self.mode {
            SortMode::Port => match (x.low, y.low) {
                (Some(p), Some(q)) => p < q,
                (Some(_), None) => true,
                (None, Some(_)) => false,
                (None, None) => text::less(g.project.as_str(), h.project.as_str()),
            },
            SortMode::Cpu => x.cpu > y.cpu,
            SortMode::Mem => x.mem > y.mem,
        }
    }
}

/// The members of each group in order.
pub open spec fn members_sorted(
    targets: Seq<TargetView>,
    groups: Seq<GroupView>,
    mode: SortMode,
) -> Seq<GroupView> {
    groups.map_values(
        |g: GroupView|
            GroupView {
                project: g.project,
                members: sorted_by(g.members, member_order(targets, mode)),
            },
    )
}

/// The numbers from zero up to `n`.
pub open spec fn places(n: nat) -> Seq<usize> {
    Seq::new(n, |i: int| i as usize)
}

/// The order of the groups, by their places.
pub open spec fn groups_sorted(
    targets: Seq<TargetView>,
    groups: Seq<GroupView>,
    mode: SortMode,
) -> Seq<usize> {
    sorted_by(places(groups.len()), group_order(targets, groups, mode))
}

fn sort_members(targets: &[Target], groups: Vec<Group>, mode: SortMode) -> (r: Vec<Group>)
    requires
        members_known(group_views(groups@), targets@.len()),
    ensures
        group_views(r@) == members_sorted(target_views(targets@), group_views(groups@), mode),
        members_known(group_views(r@), targets@.len()),
{
    let ghost ts = target_views(targets@);
    let ghost all = group_views(groups@);
    let ghost goal = members_sorted(ts, all, mode);
    let order = MemberOrder { targets, mode };
    let mut out: Vec<Group> = Vec::new();
    proof {
        assert(order_of(order) =~= member_order(ts, mode));
    }
    for g in it: groups
        invariant
            group_views(it.seq()) == all,
            ts == target_views(targets@),
            goal == members_sorted(ts, all, mode),
            members_known(all, targets@.len()),
            order.targets@ == targets@,
            order_of(order) == member_order(ts, mode),
            group_views(out@) == goal.take(it.index() as int),
            members_known(group_views(out@), targets@.len()),
    {
        let ghost k = it.index() as int;
        let ghost before = out@;
        proof {
            assert(all[k] == g@);
            assert forall|j: int| 0 <= j < g.members@.len() implies order.knows(
                #[trigger] g.members@[j],
            ) by {
                assert(all[k].members[j] < targets@.len());
            }
        }
        let members = sort_indices(&order, g.members.as_slice());
        let next = Group { project: g.project, members };
        out.push(next);
        proof {
            assert(goal[k] =~= next@);
            assert(group_views(out@) =~= group_views(before).push(next@));
            assert(group_views(out@) =~= goal.take(k + 1));
            sorting_keeps_members(g.members@, member_order(ts, mode));
            assert forall|a: int, j: int|
                0 <= a < group_views(out@).len() && 0 <= j < group_views(out@)[a].members.len() implies #[trigger] group_views(
            out@)[a].members[j] < targets@.len() by {
                if a < k {
                    assert(group_views(before)[a].members[j] < targets@.len());
                } else {
                    assert(members@.contains(members@[j]));
                    assert(g.members@.contains(members@[j]));
                    let b = choose|b: int| 0 <= b < g.members@.len() && g.members@[b] == members@[j];
                    assert(all[k].members[b] < targets@.len());
                }
            }
        }
    }
    proof {
        assert(goal.take(goal.len() as int) =~= goal);
    }
    out
}

fn sort_groups(targets: &[Target], groups: &[Group], mode: SortMode) -> (r: Vec<usize>)
    requires
        members_known(group_views(groups@), targets@.len()),
    ensures
        r@ == groups_sorted(target_views(targets@), group_views(groups@), mode),
        forall|i: int| 0 <= i < r@.len() ==> #[trigger] r@[i] < groups@.len(),
{
    let ghost ts = target_views(targets@);
    let ghost all = group_views(groups@);
    let order = GroupOrder { targets, groups, mode };
    let mut list: Vec<usize> = Vec::new();
    let mut i: usize = 0;
    while i < groups.len()
        invariant
            i <= groups@.len(),
            list@ == places(i as nat),
        decreases groups@.len() - i,
    {
        list.push(i);
        proof {
            assert(list@ =~= places((i + 1) as nat));
        }
        i = i + 1;
    }
    proof {
        assert(order_of(order) =~= group_order(ts, all, mode));
        assert forall|k: int| 0 <= k < list@.len() implies order.knows(#[trigger] list@[k]) by {
            assert forall|j: int| 0 <= j < groups@[k].members@.len() implies #[trigger] groups@[k].members@[j]
                < targets@.len() by {
                assert(all[k].members[j] < targets@.len());
            }
        }
        sorting_keeps_members(list@, group_order(ts, all, mode));
        let s = sorted_by(list@, group_order(ts, all, mode));
        assert forall|k: int| 0 <= k < s.len() implies #[trigger] s[k] < groups@.len() by {
            assert(s.contains(s[k]));
            assert(list@.contains(s[k]));
        }
    }
    sort_indices(&order, list.as_slice())
}

// --------------------------------------------------------------------- entries

/// The rows of a group: one row for a lone target, otherwise a header, and the members
/// where the group is not folded.
pub open spec fn group_entries(
    targets: Seq<TargetView>,
    collapsed: Seq<Seq<char>>,
    g: GroupView,
) -> Seq<EntryView> {
    if g.members.len() == 1 {
        seq![EntryView::Target(targets[g.members[0] as int].key)]
    } else {
        seq![EntryView::Group(g.project)] + if collapsed.contains(g.project) {
            Seq::empty()
        } else {
            g.members.map_values(|i: usize| EntryView::Member(targets[i as int].key))
        }
    }
}

/// The rows of some groups in an order.
pub open spec fn flattened(
    targets: Seq<TargetView>,
    collapsed: Seq<Seq<char>>,
    groups: Seq<GroupView>,
    order: Seq<usize>,
) -> Seq<EntryView>
    decreases order.len(),
{
    if order.len() == 0 {
        Seq::empty()
    } else {
        flattened(targets, collapsed, groups, order.drop_last()) + group_entries(
            targets,
            collapsed,
            groups[order.last() as int],
        )
    }
}

/// The rows that a snapshot shows.
pub open spec fn fresh_entries(
    targets: Seq<TargetView>,
    filter: Seq<char>,
    mode: SortMode,
    collapsed: Seq<Seq<char>>,
) -> Seq<EntryView> {
    let groups = members_sorted(targets, grouped(targets, filter, targets.len()), mode);
    flattened(targets, collapsed, groups, groups_sorted(targets, groups, mode))
}

/// Those of the shown rows that are still there.
pub open spec fn still_there(shown: Seq<EntryView>, fresh: Seq<EntryView>) -> Seq<EntryView>
    decreases shown.len(),
{
    if shown.len() == 0 {
        shown
    } else {
        let before = still_there(shown.drop_last(), fresh);
        if fresh.contains(shown.last()) {
            before.push(shown.last())
        } else {
            before
        }
    }
}

/// The rows with their order held: what was shown stays in place, what is new comes
/// behind.
pub open spec fn held(shown: Seq<EntryView>, fresh: Seq<EntryView>) -> Seq<EntryView> {
    let kept = still_there(shown, fresh);
    kept + unseen(fresh, kept)
}

fn push_group(out: &mut Vec<Entry>, targets: &[Target], collapsed: &[String], g: &Group)
    requires
        forall|j: int| 0 <= j < g.members@.len() ==> #[trigger] g.members@[j] < targets@.len(),
    ensures
        entry_views(final(out)@) == entry_views(old(out)@) + group_entries(
            target_views(targets@),
            text::texts(collapsed@),
            g@,
        ),
{
    let ghost ts = target_views(targets@);
    let ghost o0 = entry_views(out@);
    if g.members.len() == 1 {
        let t = &targets[g.members[0]];
        out.push(Entry::Target(t.key.clone()));
        proof {
            assert(ts[g.members@[0] as int].key == t.key@);
            assert(entry_views(out@) =~= o0 + group_entries(ts, text::texts(collapsed@), g@));
        }
        return;
    }
    out.push(Entry::Group(g.project.clone()));
    let ghost o1 = o0.push(EntryView::Group(g.project@));
    proof {
        assert(entry_views(out@) =~= o1);
    }
    if has_text(collapsed, g.project.as_str()) {
        proof {
            assert(o1 =~= o0 + group_entries(ts, text::texts(collapsed@), g@));
        }
        return;
    }
    let ghost rows = g.members@.map_values(|i: usize| EntryView::Member(ts[i as int].key));
    let mut j: usize = 0;
    while j < g.members.len()
        invariant
            j <= g.members@.len(),
            ts == target_views(targets@),
            forall|k: int| 0 <= k < g.members@.len() ==> #[trigger] g.members@[k] < targets@.len(),
            rows == g.members@.map_values(|i: usize| EntryView::Member(ts[i as int].key)),
            entry_views(out@) == o1 + rows.take(j as int),
        decreases g.members@.len() - j,
    {
        let ghost before = entry_views(out@);
        let t = &targets[g.members[j]];
        out.push(Entry::Member(t.key.clone()));
        proof {
            assert(ts[g.members@[j as int] as int].key == t.key@);
            assert(entry_views(out@) =~= before.push(rows[j as int]));
            assert(entry_views(out@) =~= o1 + rows.take(j + 1));
        }
        j = j + 1;
    }
    proof {
        assert(rows.take(j as int) =~= rows);
        assert(o1 + rows =~= o0 + group_entries(ts, text::texts(collapsed@), g@));
    }
}

fn contains_entry(list: &[Entry], e: &Entry) -> (r: bool)
    ensures
        r == entry_views(list@).contains(e@),
{
    let ghost all = entry_views(list@);
    let mut i: usize = 0;
    while i < list.len()
        invariant
            i <= list@.len(),
            all == entry_views(list@),
            forall|j: int| 0 <= j < i ==> all[j] != e@,
        decreases list@.len() - i,
    {
        assert(all[i as int] == list@[i as int]@);
        if equal(&list[i], e) {
            return true;
        }
        i = i + 1;
    }
    false
}

/// The rows that a snapshot shows.
pub fn fresh(targets: &[Target], filter: &str, mode: SortMode, collapsed: &[String]) -> (r: Vec<Entry>)
    ensures
        entry_views(r@) == fresh_entries(
            target_views(targets@),
            filter@,
            mode,
            text::texts(collapsed@),
        ),
{
    let ghost ts = target_views(targets@);
    let found = group_targets(targets, filter);
    let groups = sort_members(targets, found, mode);
    let order = sort_groups(targets, groups.as_slice(), mode);
    let ghost gs = group_views(groups@);
    let mut out: Vec<Entry> = Vec::new();
    let mut i: usize = 0;
    proof {
        assert(entry_views(out@) =~= flattened(ts, text::texts(collapsed@), gs, order@.take(0)));
    }
    while i < order.len()
        invariant
            i <= order@.len(),
            ts == target_views(targets@),
            gs == group_views(groups@),
            members_known(gs, targets@.len()),
            forall|k: int| 0 <= k < order@.len() ==> #[trigger] order@[k] < groups@.len(),
            entry_views(out@) == flattened(
                ts,
                text::texts(collapsed@),
                gs,
                order@.take(i as int),
            ),
        decreases order@.len() - i,
    {
        let k = order[i];
        proof {
            assert(order@.take(i + 1).drop_last() =~= order@.take(i as int));
            assert(order@.take(i + 1).last() == k);
            assert(gs[k as int] == groups@[k as int]@);
            assert forall|j: int| 0 <= j < groups@[k as int].members@.len() implies #[trigger] groups@[k as int].members@[j]
                < targets@.len() by {
                assert(gs[k as int].members[j] < targets@.len());
            }
        }
        push_group(&mut out, targets, collapsed, &groups[k]);
        i = i + 1;
    }
    proof {
        assert(order@.take(i as int) =~= order@);
    }
    out
}

/// Keep the rows in the order in which they are shown.
pub fn hold(shown: &[Entry], fresh: Vec<Entry>) -> (r: Vec<Entry>)
    ensures
        entry_views(r@) == held(entry_views(shown@), entry_views(fresh@)),
{
    let ghost sv = entry_views(shown@);
    let ghost fv = entry_views(fresh@);
    let mut out: Vec<Entry> = Vec::new();
    let mut i: usize = 0;
    proof {
        assert(entry_views(out@) =~= still_there(sv.take(0), fv));
    }
    while i < shown.len()
        invariant
            i <= shown@.len(),
            sv == entry_views(shown@),
            fv == entry_views(fresh@),
            entry_views(out@) == still_there(sv.take(i as int), fv),
        decreases shown@.len() - i,
    {
        let ghost before = entry_views(out@);
        proof {
            assert(sv.take(i + 1).drop_last() =~= sv.take(i as int));
            assert(sv.take(i + 1).last() == shown@[i as int]@);
        }
        if contains_entry(fresh.as_slice(), &shown[i]) {
            out.push(shown[i].clone());
            proof {
                assert(entry_views(out@) =~= before.push(shown@[i as int]@));
            }
        }
        i = i + 1;
    }
    let ghost kept = still_there(sv, fv);
    let ghost all = fresh@;
    proof {
        assert(sv.take(i as int) =~= sv);
        assert(kept + unseen(fv.take(0), kept) =~= kept);
    }
    for e in it: fresh
        invariant
            it.seq() == all,
            fv == entry_views(all),
            entry_views(out@) == kept + unseen(fv.take(it.index() as int), kept),
    {
        let ghost k = it.index() as int;
        let ghost before = entry_views(out@);
        let ghost f = unseen(fv.take(k), kept);
        proof {
            assert(fv[k] == e@);
            assert(fv.take(k + 1).drop_last() =~= fv.take(k));
            assert(fv.take(k + 1).last() == e@);
            assert(before.contains(e@) <==> kept.contains(e@) || f.contains(e@)) by {
                if before.contains(e@) {
                    let a = choose|a: int| 0 <= a < before.len() && before[a] == e@;
                    if a < kept.len() {
                        assert(kept[a] == e@);
                    } else {
                        assert(f[a - kept.len()] == e@);
                    }
                }
                if kept.contains(e@) {
                    let a = choose|a: int| 0 <= a < kept.len() && kept[a] == e@;
                    assert(before[a] == e@);
                }
                if f.contains(e@) {
                    let a = choose|a: int| 0 <= a < f.len() && f[a] == e@;
                    assert(before[kept.len() + a] == e@);
                }
            }
        }
        if !contains_entry(out.as_slice(), &e) {
            let ghost ev = e@;
            out.push(e);
            proof {
                assert(entry_views(out@) =~= before.push(ev));
                assert(before.push(ev) =~= kept + f.push(ev));
            }
        }
    }
    proof {
        assert(fv.take(fv.len() as int) =~= fv);
    }
    out
}

} // verus!
