//! Containers behind published ports. A host-side proxy binds such a port, so the
//! process that holds the socket says nothing; a listing of the running containers
//! maps the port to a name and an image instead.
use std::collections::HashMap;
use vstd::prelude::*;

use crate::text;

verus! {

/// A process name that holds published container ports on the host: the proxies of
/// Docker, and OrbStack.
pub open spec fn names_binder(name: Seq<char>) -> bool {
    ||| text::occurs("docker-proxy"@, name)
    ||| text::occurs("com.docker."@, name)
    ||| text::occurs("vpnkit"@, name)
    ||| text::occurs("OrbStack"@, name)
}

/// Whether a process is a host-side container proxy.
pub fn is_binder(proc_name: &str) -> (r: bool)
    ensures
        r == names_binder(proc_name@),
{
    text::contains(proc_name, "docker-proxy") || text::contains(proc_name, "com.docker.")
        || text::contains(proc_name, "vpnkit") || text::contains(proc_name, "OrbStack")
}

/// The container behind a published port.
#[derive(Debug)]
pub struct ContainerPort {
    pub name: String,
    pub image: String,
    /// Published on a non-loopback address.
    pub exposed: bool,
}

#[verifier::ext_equal]
pub struct ContainerView {
    pub name: Seq<char>,
    pub image: Seq<char>,
    pub exposed: bool,
}

impl View for ContainerPort {
    type V = ContainerView;

    open spec fn view(&self) -> ContainerView {
        ContainerView { name: self.name@, image: self.image@, exposed: self.exposed }
    }
}

pub open spec fn container_views(m: Map<u16, ContainerPort>) -> Map<u16, ContainerView> {
    m.map_values(|c: ContainerPort| c@)
}

/// An address that only this machine reaches.
pub open spec fn is_loopback(addr: Seq<char>) -> bool {
    ||| "127."@.is_prefix_of(addr)
    ||| addr == "::1"@
    ||| addr == "[::1]"@
    ||| addr == "localhost"@
}

fn loopback(addr: &str) -> (r: bool)
    ensures
        r == is_loopback(addr@),
{
    text::starts_with(addr, "127.") || text::same(addr, "::1") || text::same(addr, "[::1]")
        || text::same(addr, "localhost")
}

/// The host port of one entry such as `0.0.0.0:5432->5432/tcp`, and whether it is
/// published beyond this machine. An entry without a host side has none.
pub open spec fn published(entry: Seq<char>) -> Option<(u16, bool)> {
    match text::head_before(text::trimmed(entry), "->"@) {
        Some(host) => {
            let p = text::pieces(host, ':');
            if p.len() < 2 {
                None
            } else {
                match text::port_number(p.last()) {
                    Some(n) => Some((n, !is_loopback(text::joined(p.drop_last(), ":"@)))),
                    None => None,
                }
            }
        },
        None => None,
    }
}

fn published_port(entry: &str) -> (r: Option<(u16, bool)>)
    ensures
        r == published(entry@),
{
    let host = match text::before(text::trim(entry), "->") {
        Some(h) => h,
        None => return None,
    };
    let mut parts = text::split(host.as_str(), ':');
    let ghost all = text::pieces(host@, ':');
    if parts.len() < 2 {
        return None;
    }
    let ghost parts0 = parts@;
    let last = parts.pop().unwrap();
    proof {
        assert(last@ == all.last());
        assert(text::texts(parts@) =~= all.drop_last());
    }
    match text::parse_u16(last.as_str()) {
        Some(n) => {
            let addr = text::join(&parts, ":");
            Some((n, !loopback(addr.as_str())))
        },
        None => None,
    }
}

/// What a list of entries publishes, in order.
pub open spec fn all_published(entries: Seq<Seq<char>>) -> Seq<(u16, bool)>
    decreases entries.len(),
{
    if entries.len() == 0 {
        Seq::empty()
    } else {
        let before = all_published(entries.drop_last());
        match published(entries.last()) {
            Some(p) => before.push(p),
            None => before,
        }
    }
}

/// The host ports of some published ports.
pub open spec fn host_ports(pubs: Seq<(u16, bool)>) -> Seq<u16> {
    pubs.map_values(|p: (u16, bool)| p.0)
}

/// What a `Ports` field publishes.
pub fn publishings(ports: &str) -> (r: Vec<(u16, bool)>)
    ensures
        r@ == all_published(text::pieces(ports@, ',')),
{
    let entries = text::split(ports, ',');
    let ghost all = text::pieces(ports@, ',');
    let mut out: Vec<(u16, bool)> = Vec::new();
    let mut i: usize = 0;
    while i < entries.len()
        invariant
            i <= entries@.len(),
            text::texts(entries@) == all,
            out@ == all_published(all.take(i as int)),
        decreases entries@.len() - i,
    {
        proof {
            assert(all.take(i + 1).drop_last() =~= all.take(i as int));
            assert(all.take(i + 1).last() == entries@[i as int]@);
        }
        match published_port(entries[i].as_str()) {
            Some(p) => {
                out.push(p);
            },
            None => {},
        }
        i = i + 1;
    }
    proof {
        assert(all.take(i as int) =~= all);
    }
    out
}

/// Host ports from a `Ports` field: `0.0.0.0:5432->5432/tcp, :::5432->5432/tcp`
/// gives `[5432, 5432]`.
pub fn parse_published_ports(ports: &str) -> (r: Vec<u16>)
    ensures
        r@ == host_ports(all_published(text::pieces(ports@, ','))),
{
    let pubs = publishings(ports);
    let mut out: Vec<u16> = Vec::new();
    let mut i: usize = 0;
    while i < pubs.len()
        invariant
            i <= pubs@.len(),
            out@ == host_ports(pubs@.take(i as int)),
        decreases pubs@.len() - i,
    {
        out.push(pubs[i].0);
        proof {
            assert(out@ =~= host_ports(pubs@.take(i + 1)));
        }
        i = i + 1;
    }
    proof {
        assert(pubs@.take(i as int) =~= pubs@);
    }
    out
}

/// The bare name of an image: no registry or path before it, no tag behind it.
pub open spec fn bare_image(img: Seq<char>) -> Seq<char> {
    text::pieces(text::pieces(img, '/').last(), ':')[0]
}

/// `postgres:16` gives `postgres`; `reg.io:5000/team/app:1.2` gives `app`.
pub fn image_name(img: &str) -> (r: String)
    ensures
        r@ == bare_image(img@),
{
    let mut parts = text::split(img, '/');
    let ghost all = text::pieces(img@, '/');
    let ghost parts0 = parts@;
    let last = parts.pop().unwrap();
    proof {
        assert(text::texts(parts0)[parts0.len() - 1] == all.last());
    }
    let mut named = text::split(last.as_str(), ':');
    let ghost named0 = named@;
    let r = named.swap_remove(0);
    proof {
        assert(text::texts(named0)[0] == r@);
    }
    r
}

/// One container line: name, ports and image, separated by tabs.
pub open spec fn container_line(line: Seq<char>) -> Option<(Seq<char>, Seq<char>, Seq<char>)> {
    let f = text::pieces(line, '\t');
    if f.len() >= 3 {
        Some((f[0], f[1], text::joined(f.skip(2), "\t"@)))
    } else {
        None
    }
}

/// The ports known so far, and those that a line adds: a port stays with the
/// container that was listed first.
pub open spec fn with_line(m: Map<u16, ContainerView>, line: Seq<char>) -> Map<
    u16,
    ContainerView,
> {
    match container_line(line) {
        Some((name, ports, image)) => {
            let pubs = all_published(text::pieces(ports, ','));
            Map::new(
                |p: u16| m.contains_key(p) || host_ports(pubs).contains(p),
                |p: u16|
                    if m.contains_key(p) {
                        m[p]
                    } else {
                        ContainerView {
                            name,
                            image: bare_image(image),
                            exposed: pubs.contains((p, true)),
                        }
                    },
            )
        },
        None => m,
    }
}

/// The containers by host port that a listing shows.
pub open spec fn containers(lines: Seq<Seq<char>>) -> Map<u16, ContainerView>
    decreases lines.len(),
{
    if lines.len() == 0 {
        Map::empty()
    } else {
        with_line(containers(lines.drop_last()), lines.last())
    }
}

fn published_wide(pubs: &Vec<(u16, bool)>, port: u16) -> (r: bool)
    ensures
        r == pubs@.contains((port, true)),
{
    let mut i: usize = 0;
    while i < pubs.len()
        invariant
            i <= pubs@.len(),
            forall|j: int| 0 <= j < i ==> pubs@[j] != (port, true),
        decreases pubs@.len() - i,
    {
        if pubs[i].0 == port && pubs[i].1 {
            assert(pubs@[i as int] == (port, true));
            return true;
        }
        i = i + 1;
    }
    false
}

fn add_line(map: &mut HashMap<u16, ContainerPort>, line: &str)
    ensures
        container_views(final(map)@) == with_line(container_views(old(map)@), line@),
{
    let mut fields = text::split(line, '\t');
    let ghost f = text::pieces(line@, '\t');
    if fields.len() < 3 {
        return;
    }
    let ghost fields0 = fields@;
    let tail = fields.split_off(2);
    let image = text::join(&tail, "\t");
    proof {
        assert(text::texts(tail@) =~= f.skip(2));
        assert(text::texts(fields0)[0] == f[0]);
        assert(text::texts(fields0)[1] == f[1]);
    }
    let pubs = publishings(fields[1].as_str());
    let ghost m0 = container_views(map@);
    let ghost goal = with_line(m0, line@);
    let mut i: usize = 0;
    proof {
        assert(container_line(line@) == Some((f[0], f[1], image@)));
    }
    while i < pubs.len()
        invariant
            i <= pubs@.len(),
            fields@.len() == 2,
            fields@[0]@ == f[0],
            container_line(line@) == Some((f[0], f[1], image@)),
            pubs@ == all_published(text::pieces(f[1], ',')),
            m0 == container_views(old(map)@),
            goal == with_line(m0, line@),
            forall|p: u16| #[trigger]
                map@.contains_key(p) <==> m0.contains_key(p) || host_ports(
                    pubs@.take(i as int),
                ).contains(p),
            forall|p: u16| #[trigger] map@.contains_key(p) ==> goal.contains_key(p) && map@[p]@ == goal[p],
        decreases pubs@.len() - i,
    {
        let port = pubs[i].0;
        let ghost before = map@;
        let ghost hp0 = host_ports(pubs@.take(i as int));
        let ghost hp = host_ports(pubs@.take(i + 1));
        let ghost all = host_ports(pubs@);
        proof {
            assert(hp =~= hp0.push(port));
            assert(all[i as int] == port);
            assert(hp0.push(port)[i as int] == port);
            assert forall|p: u16| hp.contains(p) <==> hp0.contains(p) || p == port by {
                if hp0.contains(p) {
                    let j = choose|j: int| 0 <= j < hp0.len() && hp0[j] == p;
                    assert(hp[j] == p);
                }
            }
        }
        if !map.contains_key(&port) {
            let exposed = published_wide(&pubs, port);
            let c = ContainerPort {
                name: fields[0].clone(),
                image: image_name(image.as_str()),
                exposed,
            };
            proof {
                assert(!m0.contains_key(port));
                assert(goal.contains_key(port));
                assert(c@ == goal[port]);
            }
            map.insert(port, c);
        }
        i = i + 1;
    }
    proof {
        assert(pubs@.take(i as int) =~= pubs@);
        assert(container_views(map@).dom() =~= goal.dom());
        assert(container_views(map@) =~= goal);
    }
}

/// Host port to container, from the listing that `docker ps` prints with
/// `{{.Names}}\t{{.Ports}}\t{{.Image}}` for its format.
pub fn port_map(listing: &str) -> (r: HashMap<u16, ContainerPort>)
    ensures
        container_views(r@) == containers(text::lines_of(listing@)),
{
    let lines = text::lines(listing);
    let ghost all = text::lines_of(listing@);
    let mut map: HashMap<u16, ContainerPort> = HashMap::new();
    let mut i: usize = 0;
    proof {
        assert(container_views(map@) =~= containers(all.take(0)));
    }
    while i < lines.len()
        invariant
            i <= lines@.len(),
            text::texts(lines@) == all,
            container_views(map@) == containers(all.take(i as int)),
        decreases lines@.len() - i,
    {
        proof {
            assert(all.take(i + 1).drop_last() =~= all.take(i as int));
            assert(all.take(i + 1).last() == lines@[i as int]@);
        }
        add_line(&mut map, lines[i].as_str());
        i = i + 1;
    }
    proof {
        assert(all.take(i as int) =~= all);
    }
    map
}

} // verus!
