//! The verbs: what to signal, when to escalate, and what to say about it.
use std::collections::HashMap;
use vstd::prelude::*;

use crate::text;

verus! {

/// `(pid, start_time)`: the fingerprint of a process.
pub type PidStart = (u32, u64);

/// How long a process gets to end before it is killed, in milliseconds.
pub const GRACE: u64 = 4000;

// ----------------------------------------------------------------- signalling

/// What came of signalling some processes. One that had already ended counts nowhere.
#[derive(Debug)]
pub struct SignalOutcome {
    pub sent: usize,
    /// Those that may not be signalled.
    pub denied: Vec<u32>,
}

/// How many signals were delivered.
pub open spec fn delivered(results: Seq<Result<(), i32>>) -> nat
    decreases results.len(),
{
    if results.len() == 0 {
        0
    } else {
        delivered(results.drop_last()) + if results.last() is Ok {
            1nat
        } else {
            0nat
        }
    }
}

/// The processes whose signal was refused with `eperm`.
pub open spec fn refused(pids: Seq<u32>, results: Seq<Result<(), i32>>, eperm: i32) -> Seq<u32>
    decreases pids.len(),
{
    if pids.len() == 0 {
        Seq::empty()
    } else {
        let before = refused(pids.drop_last(), results.drop_last(), eperm);
        if results.last() == Err::<(), i32>(eperm) {
            before.push(pids.last())
        } else {
            before
        }
    }
}

/// Tally what came of signalling every process of a target: the error number of each
/// signal that failed, of which `eperm` means that it is not permitted.
pub fn signal_tree(pids: &[u32], results: &[Result<(), i32>], eperm: i32) -> (r: SignalOutcome)
    requires
        pids@.len() == results@.len(),
    ensures
        r.sent == delivered(results@),
        r.denied@ == refused(pids@, results@, eperm),
{
    let mut sent: usize = 0;
    let mut denied: Vec<u32> = Vec::new();
    let mut i: usize = 0;
    while i < pids.len()
        invariant
            i <= pids@.len(),
            pids@.len() == results@.len(),
            sent == delivered(results@.take(i as int)),
            sent <= i,
            denied@ == refused(pids@.take(i as int), results@.take(i as int), eperm),
        decreases pids@.len() - i,
    {
        proof {
            assert(pids@.take(i + 1).drop_last() =~= pids@.take(i as int));
            assert(results@.take(i + 1).drop_last() =~= results@.take(i as int));
            assert(pids@.take(i + 1).last() == pids@[i as int]);
            assert(results@.take(i + 1).last() == results@[i as int]);
        }
        match results[i] {
            Ok(()) => {
                sent = sent + 1;
            },
            Err(e) => {
                if e == eperm {
                    denied.push(pids[i]);
                }
            },
        }
        i = i + 1;
    }
    proof {
        assert(pids@.take(i as int) =~= pids@);
        assert(results@.take(i as int) =~= results@);
    }
    SignalOutcome { sent, denied }
}

/// The decimal forms of some numbers.
pub open spec fn decimals(v: Seq<u32>) -> Seq<Seq<char>> {
    v.map_values(|n: u32| text::decimal(n as nat))
}

/// A list of numbers in brackets.
pub open spec fn listed(v: Seq<u32>) -> Seq<char> {
    "["@ + text::joined(decimals(v), ", "@) + "]"@
}

fn list_text(v: &[u32]) -> (r: String)
    ensures
        r@ == listed(v@),
{
    let mut parts: Vec<String> = Vec::new();
    let mut i: usize = 0;
    while i < v.len()
        invariant
            i <= v@.len(),
            text::texts(parts@) == decimals(v@).take(i as int),
        decreases v@.len() - i,
    {
        let ghost before = parts@;
        let d = text::to_decimal(v[i] as u64);
        parts.push(d);
        proof {
            assert(text::texts(parts@) =~= text::texts(before).push(d@));
            assert(text::texts(parts@) =~= decimals(v@).take(i + 1));
        }
        i = i + 1;
    }
    proof {
        assert(decimals(v@).take(i as int) =~= decimals(v@));
    }
    let body = text::join(parts.as_slice(), ", ");
    let mut out = "[".to_owned();
    out.append(body.as_str());
    out.append("]");
    out
}

/// What to say about processes that may not be signalled; nothing where there are
/// none.
pub fn report_denied(out: &SignalOutcome) -> (r: Option<String>)
    ensures
        match r {
            Some(s) => out.denied@.len() > 0 && s@ == "permission denied signalling pid "@ + listed(
                out.denied@,
            ) + " — not your process?"@,
            None => out.denied@.len() == 0,
        },
{
    if out.denied.len() == 0 {
        return None;
    }
    let list = list_text(out.denied.as_slice());
    let mut s = "permission denied signalling pid ".to_owned();
    s.append(list.as_str());
    s.append(" — not your process?");
    Some(s)
}

// --------------------------------------------------- fingerprint verification

/// A captured process still runs and is still the same one.
pub open spec fn is_same(ps: PidStart, now: Map<u32, u64>) -> bool {
    now.contains_key(ps.0) && now[ps.0] == ps.1
}

/// The pids of the captured processes that are still the same.
pub open spec fn surviving(captured: Seq<PidStart>, now: Map<u32, u64>) -> Seq<u32>
    decreases captured.len(),
{
    if captured.len() == 0 {
        Seq::empty()
    } else {
        let before = surviving(captured.drop_last(), now);
        if is_same(captured.last(), now) {
            before.push(captured.last().0)
        } else {
            before
        }
    }
}

/// Pids that are still running and still the same process. Neither an ended process
/// nor a recycled pid number is among them: checked before every signal.
pub fn survivors(pid_starts: &[PidStart], now: &HashMap<u32, u64>) -> (r: Vec<u32>)
    ensures
        r@ == surviving(pid_starts@, now@),
{
    let mut out: Vec<u32> = Vec::new();
    let mut i: usize = 0;
    while i < pid_starts.len()
        invariant
            i <= pid_starts@.len(),
            out@ == surviving(pid_starts@.take(i as int), now@),
        decreases pid_starts@.len() - i,
    {
        let ps = pid_starts[i];
        proof {
            assert(pid_starts@.take(i + 1).drop_last() =~= pid_starts@.take(i as int));
            assert(pid_starts@.take(i + 1).last() == ps);
        }
        match now.get(&ps.0) {
            Some(s) => {
                if *s == ps.1 {
                    out.push(ps.0);
                }
            },
            None => {},
        }
        i = i + 1;
    }
    proof {
        assert(pid_starts@.take(i as int) =~= pid_starts@);
    }
    out
}

/// A pid is signalled only if some captured process has it and still runs under it.
pub proof fn only_the_same_process_survives(captured: Seq<PidStart>, now: Map<u32, u64>, p: u32)
    ensures
        surviving(captured, now).contains(p) <==> exists|i: int|
            0 <= i < captured.len() && (#[trigger] captured[i]).0 == p && is_same(captured[i], now),
    decreases captured.len(),
{
    if captured.len() > 0 {
        let d = captured.drop_last();
        let before = surviving(d, now);
        only_the_same_process_survives(d, now, p);
        let last = captured.last();
        if before.contains(p) {
            let i = choose|i: int|
                0 <= i < d.len() && (#[trigger] d[i]).0 == p && is_same(d[i], now);
            assert(captured[i] == d[i]);
            let k = choose|k: int| 0 <= k < before.len() && before[k] == p;
            assert(surviving(captured, now)[k] == p);
        }
        if is_same(last, now) {
            assert(surviving(captured, now)[before.len() as int] == last.0);
            assert(captured[captured.len() - 1] == last);
        }
        if exists|i: int|
            0 <= i < captured.len() && (#[trigger] captured[i]).0 == p && is_same(captured[i], now) {
            let i = choose|i: int|
                0 <= i < captured.len() && (#[trigger] captured[i]).0 == p && is_same(
                    captured[i],
                    now,
                );
            if i < d.len() {
                assert(d[i] == captured[i]);
            }
        }
    }
}

// ----------------------------------------------------------------------- kill

/// The pids that a kill signals, or that nothing is left of it.
pub open spec fn kill_goes(
    captured: Seq<PidStart>,
    now: Map<u32, u64>,
    r: Result<Vec<u32>, String>,
) -> bool {
    match r {
        Ok(fresh) => fresh@ == surviving(captured, now) && fresh@.len() > 0,
        Err(e) => surviving(captured, now).len() == 0 && e@ == "already exited"@,
    }
}

/// The first step of a kill: whom to ask to end. Refused where every process already
/// ended or was replaced.
pub fn kill(pid_starts: &[PidStart], now: &HashMap<u32, u64>) -> (r: Result<Vec<u32>, String>)
    ensures
        kill_goes(pid_starts@, now@, r),
{
    let fresh = survivors(pid_starts, now);
    if fresh.len() == 0 {
        Err("already exited".to_owned())
    } else {
        Ok(fresh)
    }
}

/// What to say of forcibly killed processes.
pub open spec fn force_killed(n: nat) -> Seq<char> {
    "force-killed "@ + text::decimal(n) + " straggler"@ + if n == 1 {
        ""@
    } else {
        "s"@
    }
}

/// The pids that are left to kill once the time to cancel is over, and what is said of them.
pub open spec fn escalated(
    cancelled: bool,
    captured: Seq<PidStart>,
    now: Map<u32, u64>,
    r: (Vec<u32>, Option<String>),
) -> bool {
    &&& r.0@ == (if cancelled {
        Seq::empty()
    } else {
        surviving(captured, now)
    })
    &&& match r.1 {
        Some(s) => r.0@.len() > 0 && s@ == force_killed(r.0@.len()),
        None => r.0@.len() == 0,
    }
}

/// The second step of a kill, after the grace period: whom to kill, and what to say.
/// Nobody where the kill was cancelled.
pub fn escalate(cancelled: bool, pid_starts: &[PidStart], now: &HashMap<u32, u64>) -> (r: (
    Vec<u32>,
    Option<String>,
))
    ensures
        escalated(cancelled, pid_starts@, now@, r),
{
    if cancelled {
        let none: Vec<u32> = Vec::new();
        assert(none@ =~= Seq::<u32>::empty());
        return (none, None);
    }
    let stragglers = survivors(pid_starts, now);
    let n = stragglers.len();
    if n == 0 {
        return (stragglers, None);
    }
    let digits = text::to_decimal(n as u64);
    let mut s = "force-killed ".to_owned();
    s.append(digits.as_str());
    s.append(" straggler");
    s.append(
        if n == 1 {
            ""
        } else {
            "s"
        },
    );
    (stragglers, Some(s))
}

// -------------------------------------------------------------------- restart

/// What is needed to start a target again.
#[derive(Debug)]
pub struct RestartPlan {
    pub project: String,
    pub argv: Vec<String>,
    pub cwd: String,
    pub ports: Vec<u16>,
    pub pid_starts: Vec<PidStart>,
}

/// How long the ports may stay busy after processes were asked to end.
pub const TERM_WAIT: u64 = 3000;

/// How long the ports may stay busy after processes were killed.
pub const KILL_WAIT: u64 = 2000;

/// A process that ends sooner than this after its start crashed.
pub const CRASH_WINDOW: u64 = 2000;

/// Where a restart stands.
#[derive(Clone, Copy, Debug, PartialEq, Eq, Structural)]
pub enum RestartPhase {
    /// The processes were asked to end.
    Terminating,
    /// They were killed.
    Killing,
    /// The command is to be started.
    Starting,
    /// It runs.
    Running,
    Finished,
}

/// What happened to a restart.
#[derive(Debug)]
pub enum RestartEvent {
    /// Whether the ports were released in time.
    PortsFree(bool),
    /// The command was started.
    Started,
    /// It could not be started, for this reason.
    Failed(String),
    /// It ended after so many milliseconds, with this status.
    Ended(u64, String),
}

/// What a restart does next.
#[derive(Clone, Copy, Debug, PartialEq, Eq, Structural)]
pub enum RestartAct {
    /// Ask the processes to end, and wait for the ports this long.
    Terminate(u64),
    /// Kill what is left, and wait for the ports this long.
    Kill(u64),
    /// Start the command.
    Start,
    /// Ask for a fresh snapshot, and wait for the command to end.
    Watch,
    /// Ask for a fresh snapshot, and stop.
    GiveUp,
    Stop,
}

/// The next phase, what to do, and what to say.
#[derive(Debug)]
pub struct RestartStep {
    pub phase: RestartPhase,
    pub act: RestartAct,
    pub status: Option<String>,
}

#[verifier::ext_equal]
pub struct RestartStepView {
    pub phase: RestartPhase,
    pub act: RestartAct,
    pub status: Option<Seq<char>>,
}

impl View for RestartStep {
    type V = RestartStepView;

    open spec fn view(&self) -> RestartStepView {
        RestartStepView {
            phase: self.phase,
            act: self.act,
            status: crate::model::opt_text(self.status),
        }
    }
}

/// The first step of a restart, where there is a command to start.
pub open spec fn restart_begins(plan: RestartPlan, r: Option<RestartStep>) -> bool {
    match r {
        Some(s) => plan.argv@.len() > 0 && s@ == (RestartStepView {
            phase: RestartPhase::Terminating,
            act: RestartAct::Terminate(TERM_WAIT),
            status: None,
        }),
        None => plan.argv@.len() == 0,
    }
}

/// How a restart begins: not at all without a command.
pub fn restart(plan: &RestartPlan) -> (r: Option<RestartStep>)
    ensures
        restart_begins(*plan, r),
{
    if plan.argv.len() == 0 {
        return None;
    }
    Some(
        RestartStep {
            phase: RestartPhase::Terminating,
            act: RestartAct::Terminate(TERM_WAIT),
            status: None,
        },
    )
}

/// How a restart goes on. Busy ports are escalated once and then put up with; a
/// command that ends at once is reported.
pub open spec fn restart_goes(project: Seq<char>, phase: RestartPhase, event: RestartEvent) -> RestartStepView {
    let start = RestartStepView {
        phase: RestartPhase::Starting,
        act: RestartAct::Start,
        status: None,
    };
    match (phase, event) {
        (RestartPhase::Terminating, RestartEvent::PortsFree(true)) => start,
        (RestartPhase::Terminating, RestartEvent::PortsFree(false)) => RestartStepView {
            phase: RestartPhase::Killing,
            act: RestartAct::Kill(KILL_WAIT),
            status: None,
        },
        (RestartPhase::Killing, RestartEvent::PortsFree(true)) => start,
        (RestartPhase::Killing, RestartEvent::PortsFree(false)) => RestartStepView {
            status: Some("restart "@ + project + ": port still busy — respawning anyway"@),
            ..start
        },
        (RestartPhase::Starting, RestartEvent::Started) => RestartStepView {
            phase: RestartPhase::Running,
            act: RestartAct::Watch,
            status: Some("restarted "@ + project + " — output captured (T to tail)"@),
        },
        (RestartPhase::Starting, RestartEvent::Failed(e)) => RestartStepView {
            phase: RestartPhase::Finished,
            act: RestartAct::GiveUp,
            status: Some("restart "@ + project + " failed: "@ + e@),
        },
        (RestartPhase::Running, RestartEvent::Ended(after, what)) => RestartStepView {
            phase: RestartPhase::Finished,
            act: RestartAct::Stop,
            status: if after < CRASH_WINDOW {
                Some(
                    "restart "@ + project + " crashed on startup ("@ + what@ + ") — T for its log"@,
                )
            } else {
                None
            },
        },
        _ => RestartStepView { phase, act: RestartAct::Stop, status: None },
    }
}

fn phrase(a: &str, project: &str, b: &str) -> (r: String)
    ensures
        r@ == a@ + project@ + b@,
{
    let mut s = a.to_owned();
    s.append(project);
    s.append(b);
    s
}

/// The next step of a restart.
pub fn restart_step(project: &str, phase: RestartPhase, event: &RestartEvent) -> (r: RestartStep)
    ensures
        r@ == restart_goes(project@, phase, *event),
{
    match (phase, event) {
        (RestartPhase::Terminating, RestartEvent::PortsFree(free)) => if *free {
            RestartStep { phase: RestartPhase::Starting, act: RestartAct::Start, status: None }
        } else {
            RestartStep {
                phase: RestartPhase::Killing,
                act: RestartAct::Kill(KILL_WAIT),
                status: None,
            }
        },
        (RestartPhase::Killing, RestartEvent::PortsFree(free)) => if *free {
            RestartStep { phase: RestartPhase::Starting, act: RestartAct::Start, status: None }
        } else {
            RestartStep {
                phase: RestartPhase::Starting,
                act: RestartAct::Start,
                status: Some(phrase("restart ", project, ": port still busy — respawning anyway")),
            }
        },
        (RestartPhase::Starting, RestartEvent::Started) => RestartStep {
            phase: RestartPhase::Running,
            act: RestartAct::Watch,
            status: Some(phrase("restarted ", project, " — output captured (T to tail)")),
        },
        (RestartPhase::Starting, RestartEvent::Failed(e)) => {
            let mut s = phrase("restart ", project, " failed: ");
            s.append(e.as_str());
            RestartStep {
                phase: RestartPhase::Finished,
                act: RestartAct::GiveUp,
                status: Some(s),
            }
        },
        (RestartPhase::Running, RestartEvent::Ended(after, what)) => {
            let status = if *after < CRASH_WINDOW {
                let mut s = phrase("restart ", project, " crashed on startup (");
                s.append(what.as_str());
                s.append(") — T for its log");
                Some(s)
            } else {
                None
            };
            RestartStep { phase: RestartPhase::Finished, act: RestartAct::Stop, status }
        },
        _ => RestartStep { phase, act: RestartAct::Stop, status: None },
    }
}

/// Whether or not the ports are released, a restart comes to the start of the command, and
/// kills at most once on the way.
pub proof fn restart_reaches_the_start(project: Seq<char>, first: bool, second: bool)
    ensures
        ({
            let one = restart_goes(
                project,
                RestartPhase::Terminating,
                RestartEvent::PortsFree(first),
            );
            let two = restart_goes(project, one.phase, RestartEvent::PortsFree(second));
            if first {
                one.act == RestartAct::Start
            } else {
                one.act == RestartAct::Kill(KILL_WAIT) && two.act == RestartAct::Start
            }
        }),
{
}

/// What to do while waiting for ports to be released.
#[derive(Clone, Copy, Debug, PartialEq, Eq, Structural)]
pub enum PortWait {
    Free,
    TimedOut,
    /// Look again after so many milliseconds.
    Again(u64),
}

/// Between two looks at the ports, in milliseconds.
pub const PORT_POLL: u64 = 150;

/// Whether any of some ports is busy.
pub open spec fn any_busy(busy: Seq<bool>) -> bool {
    exists|i: int| 0 <= i < busy.len() && #[trigger] busy[i]
}

/// Whether to go on, give up or ask again while ports are to be released.
pub open spec fn port_wait(busy: Seq<bool>, now: u64, deadline: u64, r: PortWait) -> bool {
    r == (if !any_busy(busy) {
        PortWait::Free
    } else if now >= deadline {
        PortWait::TimedOut
    } else {
        PortWait::Again(PORT_POLL)
    })
}

/// One look at the ports of a target: free once none is busy, given up at the
/// deadline, otherwise worth another look.
pub fn wait_ports_free(busy: &[bool], now: u64, deadline: u64) -> (r: PortWait)
    ensures
        port_wait(busy@, now, deadline, r),
{
    let mut i: usize = 0;
    while i < busy.len()
        invariant
            i <= busy@.len(),
            forall|j: int| 0 <= j < i ==> !#[trigger] busy@[j],
        decreases busy@.len() - i,
    {
        if busy[i] {
            assert(any_busy(busy@));
            return if now >= deadline {
                PortWait::TimedOut
            } else {
                PortWait::Again(PORT_POLL)
            };
        }
        i = i + 1;
    }
    PortWait::Free
}

/// The line that sets a restart off in a captured log.
pub fn log_header(unix: u64) -> (r: String)
    ensures
        r@ == "--- marina restart (unix "@ + text::decimal(unix as nat) + ") ---"@,
{
    let digits = text::to_decimal(unix);
    phrase("--- marina restart (unix ", digits.as_str(), ") ---")
}

// --------------------------------------------------------------------- docker

/// What to say of a container verb.
pub open spec fn docker_said(action: Seq<char>, name: Seq<char>, ok: bool) -> Seq<char> {
    "docker "@ + action + " "@ + name + if ok {
        ": done"@
    } else {
        " failed — daemon running?"@
    }
}

/// What to say after `docker <action> <name>`.
pub fn docker(action: &str, name: &str, ok: bool) -> (r: String)
    ensures
        r@ == docker_said(action@, name@, ok),
{
    let mut s = "docker ".to_owned();
    s.append(action);
    s.append(" ");
    s.append(name);
    s.append(
        if ok {
            ": done"
        } else {
            " failed — daemon running?"
        },
    );
    s
}

} // verus!
