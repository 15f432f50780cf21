//! The connection reconciler: an event-driven state machine that drives the
//! live transport wiring toward the desired graph. Each signal is reduced to
//! a list of actions — transport connect/disconnect requests, signals to
//! re-queue, and timed retries — which the surrounding client performs in
//! order. Transport results come back through `handle_connect_result`, which
//! decides whether a failed request is retried.

use vstd::prelude::*;

use crate::utils::ConnectionGraph;

verus! {

/// The fixed retry delay, in milliseconds.
pub const RETRY_DELAY_MS: u64 = 100;

/// Reconciler errors, mirroring what the surrounding client can run into.
#[derive(Debug)]
pub enum Error {
    RecvError,
    SendError,
    JackError(String),
    PoisonError,
    PortNotFound,
    JaconUninitialized,
}

/// The reconciler's input signals.
#[derive(Debug)]
pub enum Signals {
    /// The transport reported a pair as (dis)connected; compare with the
    /// desired graph.
    CheckConection(String, String, bool),
    /// Enable or disable drift detection.
    SetConnectionCheck(bool),
    /// Reach a clean state: unwire every live input port.
    DisconnectAll,
    /// Re-issue a connection request for every desired edge.
    ReconnectGood,
    /// Re-queue the wrapped signal after a delay.
    RetryIn(u64, Box<Signals>),
    /// Issue one transport (dis)connect, after checking both ports exist.
    TryConnection(bool, String, String),
    /// A port (re)appeared: unwire it, then re-issue its desired edges.
    ReconnectPort(String),
}

/// One live transport port, as observed when the signal is processed.
pub struct LivePort {
    pub name: String,
    pub is_input: bool,
}

/// The reconciler's own state: whether drift detection is suppressed.
pub struct ReconState {
    pub check_disabled: bool,
}

/// What the reconciler asks the surrounding client to do.
pub enum Action {
    /// Connect (`true`) or disconnect (`false`) the named output/input pair
    /// on the transport.
    Connect(bool, String, String),
    /// Disconnect the named port from everything.
    DisconnectPort(String),
    /// Put a signal back on the reconciler's queue.
    Emit(Signals),
    /// Re-queue the signal after the given delay in milliseconds.
    Schedule(u64, Box<Signals>),
}

/// How a failed transport request is classified.
#[derive(Clone, Copy, PartialEq, Eq, Structural, Debug)]
pub enum JackErrorKind {
    /// The connect request was rejected as already existing/conflicting.
    ConnectionConflict,
    /// The disconnect request named an edge that does not exist.
    DisconnectNonexistent,
    Other,
}

impl ReconState {
    pub fn new() -> (r: ReconState)
        ensures
            !r.check_disabled,
    {
        ReconState { check_disabled: false }
    }
}

/// How many live ports carry this name and direction.
pub open spec fn spec_count_live(live: Seq<LivePort>, name: Seq<char>, is_input: bool) -> int
    decreases live.len(),
{
    if live.len() == 0 {
        0int
    } else {
        (if live[0].name@ == name && live[0].is_input == is_input {
            1int
        } else {
            0int
        }) + spec_count_live(live.skip(1), name, is_input)
    }
}

/// The names of the live input ports, in observation order.
pub open spec fn spec_live_inputs(live: Seq<LivePort>) -> Seq<Seq<char>>
    decreases live.len(),
{
    if live.len() == 0 {
        Seq::empty()
    } else {
        let rest = spec_live_inputs(live.skip(1));
        if live[0].is_input {
            seq![live[0].name@] + rest
        } else {
            rest
        }
    }
}

/// `r` asks, in order: suppress drift detection, unwire every live input
/// port, re-enable drift detection. The suppression is active exactly during
/// the disconnect phase.
pub open spec fn spec_disconnect_all_plan(r: Seq<Action>, live: Seq<LivePort>) -> bool {
    let inputs = spec_live_inputs(live);
    &&& r.len() == inputs.len() + 2
    &&& r[0] is Emit && r[0]->Emit_0 is SetConnectionCheck && !r[0]->Emit_0->SetConnectionCheck_0
    &&& r[r.len() - 1] is Emit && r[r.len() - 1]->Emit_0 is SetConnectionCheck && r[r.len()
        - 1]->Emit_0->SetConnectionCheck_0
    &&& forall|k: int|
        0 <= k < inputs.len() ==> (#[trigger] r[k + 1]) is DisconnectPort && r[k
            + 1]->DisconnectPort_0@ == inputs[k]
}

/// `r` emits one `TryConnection(true, o, i)` for exactly the wired pairs of
/// `g`.
pub open spec fn spec_reconnect_plan(g: &ConnectionGraph, r: Seq<Action>) -> bool {
    &&& forall|k: int|
        0 <= k < r.len() ==> (#[trigger] r[k]) is Emit && r[k]->Emit_0 is TryConnection
            && r[k]->Emit_0->TryConnection_0 && g.spec_is_connected(
            r[k]->Emit_0->TryConnection_1@,
            r[k]->Emit_0->TryConnection_2@,
        )
    &&& forall|o: Seq<char>, i: Seq<char>| #[trigger] g.spec_is_connected(o, i) ==> exists|k: int|
        0 <= k < r.len() && (#[trigger] r[k]) is Emit && r[k]->Emit_0 is TryConnection
            && r[k]->Emit_0->TryConnection_0 && r[k]->Emit_0->TryConnection_1@ == o
            && r[k]->Emit_0->TryConnection_2@ == i
}

/// `r` unwires the named port, then emits `TryConnection(true, o, i)` for
/// exactly the desired edges touching it on its own side.
pub open spec fn spec_reconnect_port_plan(
    g: &ConnectionGraph,
    r: Seq<Action>,
    name: Seq<char>,
    is_input: bool,
) -> bool {
    &&& r.len() >= 1
    &&& r[0] is DisconnectPort && r[0]->DisconnectPort_0@ == name
    &&& forall|k: int|
        1 <= k < r.len() ==> (#[trigger] r[k]) is Emit && r[k]->Emit_0 is TryConnection
            && r[k]->Emit_0->TryConnection_0 && g.spec_is_connected(
            r[k]->Emit_0->TryConnection_1@,
            r[k]->Emit_0->TryConnection_2@,
        ) && (if is_input {
            r[k]->Emit_0->TryConnection_2@ == name
        } else {
            r[k]->Emit_0->TryConnection_1@ == name
        })
    &&& forall|o: Seq<char>, i: Seq<char>|
        #[trigger] g.spec_is_connected(o, i) && (if is_input {
            i == name
        } else {
            o == name
        }) ==> exists|k: int|
            1 <= k < r.len() && (#[trigger] r[k]) is Emit && r[k]->Emit_0 is TryConnection
                && r[k]->Emit_0->TryConnection_1@ == o && r[k]->Emit_0->TryConnection_2@ == i
}

/// What the transport client reports, reduced to plain values.
pub enum TransportEvent {
    /// Two ports were (dis)connected: output name, input name, wired.
    PortsConnected(String, String, bool),
    /// A port was registered (`true`) or unregistered (`false`).
    PortRegistration(String, bool),
    /// The client re-established its connection to a rebuilt server.
    ClientReconnection,
}

/// Which signals one transport event feeds into the reconciler's queue: a
/// wiring report is checked against the desired graph, a newly registered
/// port is re-evaluated, an unregistration is ignored, and a server
/// reconnection triggers the full clean-and-rewire pass.
pub fn signals_for_event(e: TransportEvent) -> (r: Vec<Signals>)
    ensures
        e is PortsConnected ==> r@.len() == 1 && r@[0] is CheckConection
            && r@[0]->CheckConection_0@ == e->PortsConnected_0@ && r@[0]->CheckConection_1@
            == e->PortsConnected_1@ && r@[0]->CheckConection_2 == e->PortsConnected_2,
        e is PortRegistration ==> {
            if e->PortRegistration_1 {
                r@.len() == 1 && r@[0] is ReconnectPort && r@[0]->ReconnectPort_0@
                    == e->PortRegistration_0@
            } else {
                r@.len() == 0
            }
        },
        e is ClientReconnection ==> r@.len() == 2 && r@[0] is DisconnectAll && r@[1]
            is ReconnectGood,
{
    let mut r: Vec<Signals> = Vec::new();
    match e {
        TransportEvent::PortsConnected(o, i, wired) => {
            r.push(Signals::CheckConection(o, i, wired));
        },
        TransportEvent::PortRegistration(name, registered) => {
            if registered {
                r.push(Signals::ReconnectPort(name));
            }
        },
        TransportEvent::ClientReconnection => {
            r.push(Signals::DisconnectAll);
            r.push(Signals::ReconnectGood);
        },
    }
    r
}

/// Index of the first live port with this name./// Index of the first live port with this name.
fn find_live(live: &Vec<LivePort>, name: &str) -> (r: Option<usize>)
    ensures
        match r {
            Some(j) => j < live@.len() && live@[j as int].name@ == name@,
            None => forall|k: int| 0 <= k < live@.len() ==> (#[trigger] live@[k].name@) != name@,
        },
{
    let n = live.len();
    for j in 0..n
        invariant
            n == live@.len(),
            forall|m: int| 0 <= m < j ==> (#[trigger] live@[m].name@) != name@,
    {
        if crate::utils::str_eq(live[j].name.as_str(), name) {
            return Some(j);
        }
    }
    None
}

/// How many live ports carry this name and direction.
fn count_live(live: &Vec<LivePort>, name: &str, is_input: bool) -> (r: usize)
    ensures
        r == spec_count_live(live@, name@, is_input),
{
    let mut r: usize = 0;
    let n = live.len();
    let ghost s = live@;
    proof {
        assert(s.skip(0) =~= s);
    }
    let mut j: usize = 0;
    while j < n
        invariant
            n == live@.len(),
            s == live@,
            j <= n,
            r <= j,
            r + spec_count_live(s.skip(j as int), name@, is_input) == spec_count_live(
                s,
                name@,
                is_input,
            ),
        decreases n - j,
    {
        proof {
            let tail = s.skip(j as int);
            assert(tail[0] == s[j as int]);
            assert(tail.skip(1) =~= s.skip(j as int + 1));
            lemma_count_live_bounds(s.skip(j as int + 1), name@, is_input);
        }
        if live[j].is_input == is_input && crate::utils::str_eq(live[j].name.as_str(), name) {
            r = r + 1;
        }
        j = j + 1;
    }
    proof {
        assert(s.skip(n as int) =~= Seq::<LivePort>::empty());
    }
    r
}

/// A live-port count is between zero and the number of ports.
proof fn lemma_count_live_bounds(live: Seq<LivePort>, name: Seq<char>, is_input: bool)
    ensures
        0 <= spec_count_live(live, name, is_input) <= live.len(),
    decreases live.len(),
{
    if live.len() > 0 {
        lemma_count_live_bounds(live.skip(1), name, is_input);
    }
}

/// Decide what a failed transport request leads to: a connect rejected as a
/// conflict is retried once more after the fixed delay; a disconnect of a
/// nonexistent edge, or any other failure, is dropped.
pub fn handle_connect_result(
    of: bool,
    oname: String,
    iname: String,
    err: Option<JackErrorKind>,
) -> (r: Option<Signals>)
    ensures
        match err {
            Some(JackErrorKind::ConnectionConflict) => {
                &&& r is Some
                &&& r->Some_0 is RetryIn
                &&& r->Some_0->RetryIn_0 == RETRY_DELAY_MS
                &&& (*r->Some_0->RetryIn_1) is TryConnection
                &&& (*r->Some_0->RetryIn_1)->TryConnection_0 == of
                &&& (*r->Some_0->RetryIn_1)->TryConnection_1@ == oname@
                &&& (*r->Some_0->RetryIn_1)->TryConnection_2@ == iname@
            },
            _ => r is None,
        },
{
    match err {
        Some(JackErrorKind::ConnectionConflict) => Some(
            Signals::RetryIn(RETRY_DELAY_MS, Box::new(Signals::TryConnection(of, oname, iname))),
        ),
        _ => None,
    }
}

/// Process one signal: update the suppression flag and reduce the signal to
/// the actions the client must perform, given the currently live ports and
/// the desired transport graph.
pub fn step(
    st: &mut ReconState,
    sig: Signals,
    live: &Vec<LivePort>,
    desired: &ConnectionGraph,
) -> (r: Vec<Action>)
    requires
        desired.wf(),
    ensures
        match sig {
            Signals::SetConnectionCheck(of) => final(st).check_disabled == !of && r@.len() == 0,
            _ => final(st).check_disabled == old(st).check_disabled,
        },
        sig is CheckConection ==> {
            let o = sig->CheckConection_0;
            let i = sig->CheckConection_1;
            let connected = sig->CheckConection_2;
            if old(st).check_disabled || desired.spec_is_connected(o@, i@) == connected {
                r@.len() == 0
            } else {
                r@.len() == 1 && r@[0] is Emit && r@[0]->Emit_0 is TryConnection
                    && r@[0]->Emit_0->TryConnection_0 == !connected
                    && r@[0]->Emit_0->TryConnection_1@ == o@ && r@[0]->Emit_0->TryConnection_2@
                    == i@
            }
        },
        sig is TryConnection ==> {
            let of = sig->TryConnection_0;
            let o = sig->TryConnection_1;
            let i = sig->TryConnection_2;
            if spec_count_live(live@, i@, true) == 1 && spec_count_live(live@, o@, false) == 1 {
                r@.len() == 1 && r@[0] is Connect && r@[0]->Connect_0 == of && r@[0]->Connect_1@
                    == o@ && r@[0]->Connect_2@ == i@
            } else {
                r@.len() == 0
            }
        },
        sig is RetryIn ==> r@.len() == 1 && r@[0] is Schedule && r@[0]->Schedule_0
            == sig->RetryIn_0 && r@[0]->Schedule_1 == sig->RetryIn_1,
        sig is DisconnectAll ==> spec_disconnect_all_plan(r@, live@),
        sig is ReconnectGood ==> spec_reconnect_plan(desired, r@),
        sig is ReconnectPort ==> {
            let name = sig->ReconnectPort_0;
            if exists|k: int| 0 <= k < live@.len() && (#[trigger] live@[k].name@) == name@ {
                exists|j: int|
                    0 <= j < live@.len() && (#[trigger] live@[j].name@) == name@
                        && spec_reconnect_port_plan(desired, r@, name@, live@[j].is_input)
            } else {
                r@.len() == 0
            }
        },
    {
    let mut r: Vec<Action> = Vec::new();
    match sig {
        Signals::SetConnectionCheck(of) => {
            st.check_disabled = !of;
            r
        },
        Signals::CheckConection(o, i, connected) => {
            if st.check_disabled {
                return r;
            }
            let desired_state = crate::utils::Connections::is_connected(
                desired,
                o.as_str(),
                i.as_str(),
            );
            if desired_state == connected {
                return r;
            }
            r.push(Action::Emit(Signals::TryConnection(!connected, o, i)));
            r
        },
        Signals::TryConnection(of, o, i) => {
            let ni = count_live(live, i.as_str(), true);
            let no = count_live(live, o.as_str(), false);
            if ni == 1 && no == 1 {
                r.push(Action::Connect(of, o, i));
            }
            r
        },
        Signals::RetryIn(delay, inner) => {
            r.push(Action::Schedule(delay, inner));
            r
        },
        Signals::DisconnectAll => {
            r.push(Action::Emit(Signals::SetConnectionCheck(false)));
            let n = live.len();
            let ghost s = live@;
            let mut j: usize = 0;
            while j < n
                invariant
                    n == live@.len(),
                    s == live@,
                    j <= n,
                    r@.len() >= 1,
                    r@[0] is Emit && r@[0]->Emit_0 is SetConnectionCheck
                        && !r@[0]->Emit_0->SetConnectionCheck_0,
                    r@.len() == 1 + spec_live_inputs(s.take(j as int)).len(),
                    forall|k: int|
                        0 <= k < spec_live_inputs(s.take(j as int)).len() ==> (#[trigger] r@[k
                            + 1]) is DisconnectPort && r@[k + 1]->DisconnectPort_0@
                            == spec_live_inputs(s.take(j as int))[k],
                decreases n - j,
            {
                let ghost pre = s.take(j as int);
                proof {
                    lemma_live_inputs_take_step(s, j as int);
                }
                if live[j].is_input {
                    r.push(Action::DisconnectPort(live[j].name.clone()));
                }
                j = j + 1;
            }
            proof {
                assert(s.take(n as int) =~= s);
            }
            r.push(Action::Emit(Signals::SetConnectionCheck(true)));
            r
        },
        Signals::ReconnectGood => {
            let edges = desired.edge_list();
            let n = edges.len();
            for k in 0..n
                invariant
                    n == edges@.len(),
                    desired.wf(),
                    desired.lists_edges(edges@),
                    r@.len() == k,
                    forall|m: int|
                        0 <= m < k ==> (#[trigger] r@[m]) is Emit && r@[m]->Emit_0
                            is TryConnection && r@[m]->Emit_0->TryConnection_0
                            && r@[m]->Emit_0->TryConnection_1@ == edges@[m].0@
                            && r@[m]->Emit_0->TryConnection_2@ == edges@[m].1@,
            {
                let o = edges[k].0.clone();
                let i = edges[k].1.clone();
                r.push(Action::Emit(Signals::TryConnection(true, o, i)));
            }
            proof {
                assert forall|k: int| 0 <= k < r@.len() implies (#[trigger] r@[k]) is Emit
                    && r@[k]->Emit_0 is TryConnection && r@[k]->Emit_0->TryConnection_0
                    && desired.spec_is_connected(
                    r@[k]->Emit_0->TryConnection_1@,
                    r@[k]->Emit_0->TryConnection_2@,
                ) by {
                    assert(desired.spec_is_connected(edges@[k].0@, edges@[k].1@));
                }
                assert forall|o: Seq<char>, i: Seq<char>| #[trigger] desired.spec_is_connected(
                    o,
                    i,
                ) implies exists|k: int|
                    0 <= k < r@.len() && (#[trigger] r@[k]) is Emit && r@[k]->Emit_0
                        is TryConnection && r@[k]->Emit_0->TryConnection_0
                        && r@[k]->Emit_0->TryConnection_1@ == o && r@[k]->Emit_0->TryConnection_2@
                        == i by {
                    let k = choose|k: int|
                        0 <= k < edges@.len() && (#[trigger] edges@[k]).0@ == o && edges@[k].1@
                            == i;
                    assert(r@[k] is Emit && r@[k]->Emit_0 is TryConnection
                        && r@[k]->Emit_0->TryConnection_0 && r@[k]->Emit_0->TryConnection_1@ == o
                        && r@[k]->Emit_0->TryConnection_2@ == i);
                }
            }
            r
        },
        Signals::ReconnectPort(name) => {
            let j = match find_live(live, name.as_str()) {
                Some(j) => j,
                None => {
                    return r;
                },
            };
            let is_input = live[j].is_input;
            r.push(Action::DisconnectPort(name.clone()));
            let edges = desired.edge_list();
            let n = edges.len();
            for k in 0..n
                invariant
                    n == edges@.len(),
                    desired.wf(),
                    desired.lists_edges(edges@),
                    r@.len() >= 1,
                    r@[0] is DisconnectPort && r@[0]->DisconnectPort_0@ == name@,
                    forall|m: int|
                        1 <= m < r@.len() ==> (#[trigger] r@[m]) is Emit && r@[m]->Emit_0
                            is TryConnection && r@[m]->Emit_0->TryConnection_0
                            && desired.spec_is_connected(
                            r@[m]->Emit_0->TryConnection_1@,
                            r@[m]->Emit_0->TryConnection_2@,
                        ) && (if is_input {
                            r@[m]->Emit_0->TryConnection_2@ == name@
                        } else {
                            r@[m]->Emit_0->TryConnection_1@ == name@
                        }),
                    forall|m: int|
                        0 <= m < k && (if is_input {
                            (#[trigger] edges@[m]).1@ == name@
                        } else {
                            (#[trigger] edges@[m]).0@ == name@
                        }) ==> exists|a: int|
                            1 <= a < r@.len() && (#[trigger] r@[a]) is Emit && r@[a]->Emit_0
                                is TryConnection && r@[a]->Emit_0->TryConnection_1@ == edges@[m].0@
                                && r@[a]->Emit_0->TryConnection_2@ == edges@[m].1@,
            {
                let ghost old_r = r@;
                let touches = if is_input {
                    crate::utils::str_eq(edges[k].1.as_str(), name.as_str())
                } else {
                    crate::utils::str_eq(edges[k].0.as_str(), name.as_str())
                };
                if touches {
                    let o = edges[k].0.clone();
                    let i = edges[k].1.clone();
                    proof {
                        assert(desired.spec_is_connected(edges@[k as int].0@, edges@[k as int].1@));
                    }
                    r.push(Action::Emit(Signals::TryConnection(true, o, i)));
                    proof {
                        assert forall|m: int|
                            0 <= m < k + 1 && (if is_input {
                                (#[trigger] edges@[m]).1@ == name@
                            } else {
                                (#[trigger] edges@[m]).0@ == name@
                            }) implies exists|a: int|
                            1 <= a < r@.len() && (#[trigger] r@[a]) is Emit && r@[a]->Emit_0
                                is TryConnection && r@[a]->Emit_0->TryConnection_1@ == edges@[m].0@
                                && r@[a]->Emit_0->TryConnection_2@ == edges@[m].1@ by {
                            if m < k {
                                let a = choose|a: int|
                                    1 <= a < old_r.len() && (#[trigger] old_r[a]) is Emit
                                        && old_r[a]->Emit_0 is TryConnection
                                        && old_r[a]->Emit_0->TryConnection_1@ == edges@[m].0@
                                        && old_r[a]->Emit_0->TryConnection_2@ == edges@[m].1@;
                                assert(r@[a] == old_r[a]);
                            } else {
                                let a = old_r.len() as int;
                                assert(r@[a] is Emit && r@[a]->Emit_0 is TryConnection
                                    && r@[a]->Emit_0->TryConnection_1@ == edges@[m].0@
                                    && r@[a]->Emit_0->TryConnection_2@ == edges@[m].1@);
                            }
                        }
                    }
                }
            }
            proof {
                assert forall|o: Seq<char>, i: Seq<char>|
                    #[trigger] desired.spec_is_connected(o, i) && (if is_input {
                        i == name@
                    } else {
                        o == name@
                    }) implies exists|a: int|
                    1 <= a < r@.len() && (#[trigger] r@[a]) is Emit && r@[a]->Emit_0
                        is TryConnection && r@[a]->Emit_0->TryConnection_1@ == o
                        && r@[a]->Emit_0->TryConnection_2@ == i by {
                    let m = choose|m: int|
                        0 <= m < edges@.len() && (#[trigger] edges@[m]).0@ == o && edges@[m].1@
                            == i;
                    let a = choose|a: int|
                        1 <= a < r@.len() && (#[trigger] r@[a]) is Emit && r@[a]->Emit_0
                            is TryConnection && r@[a]->Emit_0->TryConnection_1@ == edges@[m].0@
                            && r@[a]->Emit_0->TryConnection_2@ == edges@[m].1@;
                    assert(r@[a]->Emit_0->TryConnection_1@ == o && r@[a]->Emit_0->TryConnection_2@
                        == i);
                }
                assert(spec_reconnect_port_plan(desired, r@, name@, live@[j as int].is_input));
            }
            r
        },
    }
}

/// The edge set after performing, in order, every connect emitted by a plan
/// (each processed `TryConnection(true, o, i)` that the transport accepts
/// adds the edge (o, i)).
pub open spec fn spec_apply_plan(
    edges: Set<(Seq<char>, Seq<char>)>,
    r: Seq<Action>,
) -> Set<(Seq<char>, Seq<char>)>
    decreases r.len(),
{
    if r.len() == 0 {
        edges
    } else {
        let rest = spec_apply_plan(edges, r.drop_last());
        if r.last() is Emit && r.last()->Emit_0 is TryConnection
            && r.last()->Emit_0->TryConnection_0 {
            rest.insert(
                (r.last()->Emit_0->TryConnection_1@, r.last()->Emit_0->TryConnection_2@),
            )
        } else {
            rest
        }
    }
}

/// Every pair a sound plan inserts is a desired edge.
proof fn lemma_apply_plan_sound(
    g: &ConnectionGraph,
    edges: Set<(Seq<char>, Seq<char>)>,
    r: Seq<Action>,
    e: (Seq<char>, Seq<char>),
)
    requires
        forall|k: int|
            0 <= k < r.len() ==> (#[trigger] r[k]) is Emit && r[k]->Emit_0 is TryConnection
                && r[k]->Emit_0->TryConnection_0 && g.spec_is_connected(
                r[k]->Emit_0->TryConnection_1@,
                r[k]->Emit_0->TryConnection_2@,
            ),
        spec_apply_plan(edges, r).contains(e),
    ensures
        edges.contains(e) || g.spec_is_connected(e.0, e.1),
    decreases r.len(),
{
    if r.len() > 0 {
        let rest = spec_apply_plan(edges, r.drop_last());
        assert(forall|k: int| 0 <= k < r.len() - 1 ==> (#[trigger] r.drop_last()[k]) == r[k]);
        if r.last() is Emit && r.last()->Emit_0 is TryConnection
            && r.last()->Emit_0->TryConnection_0 {
            let le = (r.last()->Emit_0->TryConnection_1@, r.last()->Emit_0->TryConnection_2@);
            if e == le {
                assert(g.spec_is_connected(e.0, e.1));
            } else {
                lemma_apply_plan_sound(g, edges, r.drop_last(), e);
            }
        } else {
            lemma_apply_plan_sound(g, edges, r.drop_last(), e);
        }
    }
}

/// A pair some plan element connects is in the applied set.
proof fn lemma_apply_plan_contains(
    edges: Set<(Seq<char>, Seq<char>)>,
    r: Seq<Action>,
    k: int,
)
    requires
        0 <= k < r.len(),
        r[k] is Emit,
        r[k]->Emit_0 is TryConnection,
        r[k]->Emit_0->TryConnection_0,
    ensures
        spec_apply_plan(edges, r).contains(
            (r[k]->Emit_0->TryConnection_1@, r[k]->Emit_0->TryConnection_2@),
        ),
    decreases r.len(),
{
    if k == r.len() - 1 {
    } else {
        assert(r.drop_last()[k] == r[k]);
        lemma_apply_plan_contains(edges, r.drop_last(), k);
    }
}

/// Running the resynchronization pass over a clean slate converges to
/// exactly the desired graph's edge set: after `DisconnectAll` has emptied
/// the live wiring, performing every connect of `ReconnectGood`'s plan
/// (assuming every referenced port exists so each request is carried out)
/// yields precisely the desired edges.
pub proof fn lemma_resync_converges(g: &ConnectionGraph, r: Seq<Action>)
    requires
        g.wf(),
        spec_reconnect_plan(g, r),
    ensures
        spec_apply_plan(Set::empty(), r) =~= g.spec_edges(),
{
    assert forall|e: (Seq<char>, Seq<char>)| #[trigger] spec_apply_plan(
        Set::empty(),
        r,
    ).contains(e) implies g.spec_edges().contains(e) by {
        lemma_apply_plan_sound(g, Set::empty(), r, e);
    }
    assert forall|e: (Seq<char>, Seq<char>)| #[trigger] g.spec_edges().contains(e) implies
        spec_apply_plan(Set::empty(), r).contains(e) by {
        assert(g.spec_is_connected(e.0, e.1));
        let k = choose|k: int|
            0 <= k < r.len() && (#[trigger] r[k]) is Emit && r[k]->Emit_0 is TryConnection
                && r[k]->Emit_0->TryConnection_0 && r[k]->Emit_0->TryConnection_1@ == e.0
                && r[k]->Emit_0->TryConnection_2@ == e.1;
        lemma_apply_plan_contains(Set::empty(), r, k);
    }
}

/// One step of the live-input enumeration/// One step of the live-input enumeration: extending the observed prefix by
/// one port extends the input list exactly when that port is an input.
proof fn lemma_live_inputs_take_step(s: Seq<LivePort>, j: int)
    requires
        0 <= j < s.len(),
    ensures
        spec_live_inputs(s.take(j + 1)) == if s[j].is_input {
            spec_live_inputs(s.take(j)).push(s[j].name@)
        } else {
            spec_live_inputs(s.take(j))
        },
    decreases j,
{
    if j == 0 {
        assert(s.take(1)[0] == s[0]);
        assert(s.take(1).skip(1) =~= Seq::<LivePort>::empty());
        assert(s.take(0) =~= Seq::<LivePort>::empty());
        if s[0].is_input {
            assert(spec_live_inputs(s.take(1).skip(1)) =~= Seq::<Seq<char>>::empty());
            assert(spec_live_inputs(s.take(1)) =~= seq![s[0].name@] + Seq::<Seq<char>>::empty());
            assert(seq![s[0].name@] + Seq::<Seq<char>>::empty() =~= seq![s[0].name@]);
            assert(Seq::<Seq<char>>::empty().push(s[0].name@) =~= seq![s[0].name@]);
        }
    } else {
        lemma_live_inputs_take_step(s.skip(1), j - 1);
        assert(s.take(j + 1)[0] == s[0]);
        assert(s.take(j + 1).skip(1) =~= s.skip(1).take(j));
        assert(s.take(j)[0] == s[0]);
        assert(s.take(j).skip(1) =~= s.skip(1).take(j - 1));
        assert(s.skip(1)[j - 1] == s[j]);
        if s[0].is_input {
            if s[j].is_input {
                assert(seq![s[0].name@] + spec_live_inputs(s.skip(1).take(j - 1)).push(s[j].name@)
                    =~= (seq![s[0].name@] + spec_live_inputs(s.skip(1).take(j - 1))).push(
                    s[j].name@,
                ));
            }
        }
    }
}

} // verus!
