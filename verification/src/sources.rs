//! What the sampler reads: listening sockets and process facts. The traits are
//! the boundary behind which an operating system supplies them.
use std::collections::HashMap;
use vstd::prelude::*;

verus! {

/// A listening TCP socket and the pid that holds it.
#[derive(Clone, Copy, Debug)]
pub struct Listener {
    pub port: u16,
    pub pid: u32,
    /// Bound to a non-loopback address.
    pub exposed: bool,
}

/// Per-process facts needed for rollup and resolution.
#[derive(Debug)]
pub struct ProcInfo {
    pub pid: u32,
    pub ppid: Option<u32>,
    pub name: String,
    pub argv: Vec<String>,
    pub cwd: Option<String>,
    /// CPU share, in billionths of a percent.
    pub cpu: u64,
    pub mem_bytes: u64,
    /// The `phys_footprint` figure, where the system has one.
    pub footprint: Option<u64>,
    pub start_time: u64,
}

/// Listening socket to pid.
pub trait PortSource {
    fn listeners(&mut self) -> Result<Vec<Listener>, String>;
}

/// Process facts: cpu, memory, cwd, argv, parent.
pub trait ProcSource {
    fn refresh(&mut self);

    fn procs(&self) -> &ProcTable;
}

/// The running processes by pid, in a fixed order.
pub struct ProcTable {
    procs: Vec<ProcInfo>,
    index: HashMap<u32, usize>,
}

/// What a list of processes holds under each pid: the last entry wins.
pub open spec fn by_pid(list: Seq<ProcInfo>) -> Map<u32, ProcInfo>
    decreases list.len(),
{
    if list.len() == 0 {
        Map::empty()
    } else {
        by_pid(list.drop_last()).insert(list.last().pid, list.last())
    }
}

/// The pids of a list of processes, each where it first occurs.
pub open spec fn pid_order(list: Seq<ProcInfo>) -> Seq<u32>
    decreases list.len(),
{
    if list.len() == 0 {
        Seq::empty()
    } else {
        let before = pid_order(list.drop_last());
        if before.contains(list.last().pid) {
            before
        } else {
            before.push(list.last().pid)
        }
    }
}

/// A table's order lists exactly the pids of its map, once each, and every entry
/// stands under its own pid.
pub open spec fn is_table(m: Map<u32, ProcInfo>, order: Seq<u32>) -> bool {
    &&& order.no_duplicates()
    &&& m.dom() == order.to_set()
    &&& forall|p: u32| #[trigger] m.contains_key(p) ==> m[p].pid == p
}

spec fn positions_fit(procs: Seq<ProcInfo>, index: Map<u32, usize>) -> bool {
    &&& forall|i: int|
        0 <= i < procs.len() ==> index.contains_key((#[trigger] procs[i]).pid)
            && index[procs[i].pid] == i
    &&& forall|p: u32| #[trigger]
        index.contains_key(p) ==> index[p] < procs.len() && procs[index[p] as int].pid == p
}

impl ProcTable {
    #[verifier::type_invariant]
    spec fn inv(self) -> bool {
        positions_fit(self.procs@, self.index@)
    }

    /// The pids in table order.
    pub closed spec fn order(&self) -> Seq<u32> {
        Seq::new(self.procs@.len(), |i: int| self.procs@[i].pid)
    }

    /// The processes of a list.
    pub fn new(list: Vec<ProcInfo>) -> (r: ProcTable)
        ensures
            r@ == by_pid(list@),
            r.order() == pid_order(list@),
    {
        let ghost all = list@;
        let mut procs: Vec<ProcInfo> = Vec::new();
        let mut index: HashMap<u32, usize> = HashMap::new();
        proof {
            assert(Map::new(|p: u32| index@.contains_key(p), |p: u32| procs@[index@[p] as int])
                =~= by_pid(all.take(0)));
            assert(Seq::new(procs@.len(), |i: int| procs@[i].pid) =~= pid_order(all.take(0)));
        }
        for p in it: list
            invariant
                it.seq() == all,
                positions_fit(procs@, index@),
                Map::new(|p: u32| index@.contains_key(p), |p: u32| procs@[index@[p] as int])
                    == by_pid(all.take(it.index() as int)),
                Seq::new(procs@.len(), |i: int| procs@[i].pid) == pid_order(
                    all.take(it.index() as int),
                ),
        {
            let ghost k = it.index() as int;
            let ghost m0 = by_pid(all.take(k));
            let ghost o0 = pid_order(all.take(k));
            let ghost procs0 = procs@;
            let ghost index0 = index@;
            proof {
                assert(p == all[k]);
                assert(all.take(k + 1).drop_last() =~= all.take(k));
                assert(all.take(k + 1).last() == all[k]);
            }
            let pid = p.pid;
            match index.get(&pid) {
                Some(i) => {
                    let i = *i;
                    proof {
                        assert(o0[i as int] == pid);
                        assert(o0.contains(pid));
                    }
                    procs.set(i, p);
                },
                None => {
                    proof {
                        if o0.contains(pid) {
                            let j = choose|j: int| 0 <= j < o0.len() && o0[j] == pid;
                            assert(procs0[j].pid == pid);
                        }
                    }
                    let i = procs.len();
                    procs.push(p);
                    index.insert(pid, i);
                },
            }
            proof {
                let m1 = Map::new(
                    |q: u32| index@.contains_key(q),
                    |q: u32| procs@[index@[q] as int],
                );
                assert(m1.dom() =~= m0.insert(pid, p).dom());
                assert forall|q: u32| #[trigger] m1.contains_key(q) implies m1[q] == m0.insert(
                    pid,
                    p,
                )[q] by {
                    if q != pid {
                        assert(index0.contains_key(q));
                        assert(m0.contains_key(q));
                    }
                }
                assert(m1 =~= m0.insert(pid, p));
                let o1 = Seq::new(procs@.len(), |i: int| procs@[i].pid);
                assert(o1 =~= pid_order(all.take(k + 1)));
            }
        }
        proof {
            assert(all.take(all.len() as int) =~= all);
        }
        ProcTable { procs, index }
    }

    /// How many processes there are.
    pub fn len(&self) -> (n: usize)
        ensures
            n == self.order().len(),
            is_table(self@, self.order()),
    {
        proof {
            use_type_invariant(self);
            let o = self.order();
            assert forall|i: int, j: int| 0 <= i < o.len() && 0 <= j < o.len() && i != j implies o[i]
                != o[j] by {
                assert(self.index@[self.procs@[i].pid] == i);
                assert(self.index@[self.procs@[j].pid] == j);
            }
            assert forall|p: u32| self@.dom().contains(p) == o.to_set().contains(p) by {
                if self.index@.contains_key(p) {
                    assert(o[self.index@[p] as int] == p);
                }
                if o.contains(p) {
                    let j = choose|j: int| 0 <= j < o.len() && o[j] == p;
                    assert(self.procs@[j].pid == p);
                }
            }
            assert(self@.dom() =~= o.to_set());
        }
        self.procs.len()
    }

    /// The process at a position of the table order.
    pub fn at(&self, i: usize) -> (r: &ProcInfo)
        requires
            i < self.order().len(),
        ensures
            r.pid == self.order()[i as int],
            self@.contains_key(r.pid),
            *r == self@[r.pid],
    {
        proof {
            use_type_invariant(self);
        }
        &self.procs[i]
    }

    /// The process with this pid.
    pub fn get(&self, pid: u32) -> (r: Option<&ProcInfo>)
        ensures
            match r {
                Some(p) => self@.contains_key(pid) && *p == self@[pid] && p.pid == pid,
                None => !self@.contains_key(pid),
            },
    {
        proof {
            use_type_invariant(self);
        }
        match self.index.get(&pid) {
            Some(i) => Some(&self.procs[*i]),
            None => None,
        }
    }
}

impl View for ProcTable {
    type V = Map<u32, ProcInfo>;

    closed spec fn view(&self) -> Map<u32, ProcInfo> {
        Map::new(
            |p: u32| self.index@.contains_key(p),
            |p: u32| self.procs@[self.index@[p] as int],
        )
    }
}

} // verus!
