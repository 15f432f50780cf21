use jamyx::config::{HookKind, MixerConfig, MonitorConfig, NoticeBody, PortConfig, PortMap};
use jamyx::gain::{bal_pair, vol_gain, Gain};
use jamyx::jacon::{
    handle_connect_result, signals_for_event, step, Action, JackErrorKind, LivePort, ReconState,
    Signals, TransportEvent, RETRY_DELAY_MS,
};
use jamyx::jamyxer::{mix_monitor, mix_output_bus, registration_plan, MixChannel};
use jamyx::server::{
    dispatch_connection, dispatch_mixer, parse_fixed, CmdSender, Command, RespObj, Target,
};
use jamyx::utils::{ConnectionGraph, Connections};

fn cmd(target: &str, verb: &str, opts: &[&str]) -> Command {
    Command {
        target: target.to_string(),
        cmd: verb.to_string(),
        opts: opts.iter().map(|s| s.to_string()).collect(),
    }
}

fn mixer_ab_o() -> MixerConfig {
    let mut inputs = PortMap::new();
    inputs.insert("A", PortConfig::new(5_000, 0, true));
    inputs.insert("B", PortConfig::new(10_000, 0, true));
    let mut outputs = PortMap::new();
    outputs.insert("O", PortConfig::new(10_000, 0, true));
    let mut graph = ConnectionGraph::new();
    graph.connect(true, "O", "A");
    graph.connect(true, "O", "B");
    let monitor = MonitorConfig {
        channel: "O".to_string(),
        is_input: false,
    };
    MixerConfig::new(graph, outputs, inputs, monitor).expect("monitor channel exists")
}

#[test]
fn graph_connect_is_idempotent() {
    let mut g = ConnectionGraph::new();
    g.connect(true, "out", "in");
    assert!(g.is_connected("out", "in"));
    g.connect(true, "out", "in");
    assert!(g.is_connected("out", "in"));
    assert_eq!(g.inputs_of("out").len(), 1);
}

#[test]
fn graph_disconnect_is_idempotent() {
    let mut g = ConnectionGraph::new();
    g.connect(true, "out", "in");
    g.connect(false, "out", "in");
    assert!(!g.is_connected("out", "in"));
    g.connect(false, "out", "in");
    assert!(!g.is_connected("out", "in"));
}

#[test]
fn graph_net_effect_is_last_operation() {
    let mut g = ConnectionGraph::new();
    g.connect(true, "o", "i");
    g.connect(false, "o", "i");
    g.connect(true, "o", "i");
    assert!(g.is_connected("o", "i"));
    g.connect(true, "o", "i");
    g.connect(false, "o", "i");
    assert!(!g.is_connected("o", "i"));
}

#[test]
fn removing_last_input_removes_entry() {
    let mut g = ConnectionGraph::new();
    g.connect(true, "o", "i1");
    g.connect(true, "o", "i2");
    g.connect(false, "o", "i1");
    assert_eq!(g.inputs_of("o").len(), 1);
    g.connect(false, "o", "i2");
    assert_eq!(g.inputs_of("o").len(), 0);
    assert_eq!(g.edge_list().len(), 0);
    assert!(g.outputs_of("i2").is_empty());
}

#[test]
fn volume_round_trip_is_normalized() {
    let mut m = mixer_ab_o();
    let notices = m.set_vol(false, &"A".to_string(), 4_200).expect("A exists");
    assert!(notices.is_empty());
    let g = m.get_vol(false, &"A".to_string()).expect("A exists");
    // 42.00 percent reads back as the linear multiplier 4200 / 10000.
    assert_eq!(g, Gain { num: 4_200, den: 10_000 });
}

#[test]
fn balance_pair_values() {
    let (l, r) = bal_pair(0);
    assert_eq!(l, Gain { num: 100, den: 100 });
    assert_eq!(r, Gain { num: 100, den: 100 });
    let (l, r) = bal_pair(50);
    assert_eq!(l.num, 150);
    assert_eq!(r.num, 50);
    assert_eq!(l.num + r.num, 200);
    let (l, r) = bal_pair(-30);
    assert_eq!(l.num, 70);
    assert_eq!(r.num, 130);
    assert_eq!(l.num + r.num, 200);
}

#[test]
fn two_inputs_sum_on_one_bus() {
    // A at volume 50, B at volume 100, both mono, both wired to mono bus O.
    let m = mixer_ab_o();
    const ONE: i64 = 1_000_000; // the test's sample scale for 1.0
    let inputs = vec![
        (
            "A".to_string(),
            MixChannel::new_input(true, vec![ONE, ONE], vec![]),
        ),
        (
            "B".to_string(),
            MixChannel::new_input(true, vec![ONE, ONE], vec![]),
        ),
    ];
    let mut out = MixChannel::new_output(true, 2);
    let applied = mix_output_bus(&mut out, &"O".to_string(), &m, &inputs);
    assert_eq!(applied, 2);
    // 0.5 * 1.0 + 1.0 * 1.0 = 1.5 on every frame.
    assert_eq!(out.l, vec![1_500_000, 1_500_000]);
}

#[test]
fn stereo_source_sums_into_mono_bus() {
    let mut out = MixChannel::new_output(true, 2);
    let src = MixChannel::new_input(false, vec![100, 200], vec![300, 400]);
    out.copy_from(&src, vol_gain(10_000), bal_pair(0));
    assert_eq!(out.l, vec![400, 600]);
}

#[test]
fn mono_source_broadcasts_into_stereo_bus_with_balance() {
    let mut out = MixChannel::new_output(false, 2);
    let src = MixChannel::new_input(true, vec![100, 200], vec![]);
    out.copy_from(&src, vol_gain(10_000), bal_pair(50));
    // left gets 1.5x, right gets 0.5x
    assert_eq!(out.l, vec![150, 300]);
    assert_eq!(out.r, vec![50, 100]);
}

#[test]
fn monitor_subscription_fires_exactly_once() {
    let mut m = mixer_ab_o();
    let monitor = cmd("myx", "mon", &["volume", "in", "A"]);
    let d1 = dispatch_mixer(&mut m, &monitor, 7);
    assert!(d1.hooked);
    assert!(d1.reply.is_none());
    assert!(d1.notices.is_empty());

    let set = cmd("myx", "set", &["volume", "in", "A", "42"]);
    let d2 = dispatch_mixer(&mut m, &set, 8);
    assert!(!d2.hooked);
    let reply = d2.reply.expect("set replies");
    assert_eq!(reply.ret, 0);
    assert_eq!(d2.notices.len(), 1);
    assert_eq!(d2.notices[0].sub, 7);
    match &d2.notices[0].body {
        NoticeBody::Info(info) => {
            assert_eq!(info.port, "A");
            assert_eq!(info.vol, 4_200);
        }
        _ => panic!("volume push carries a descriptor"),
    }

    // The subscription list is drained: a second set pushes nothing.
    let set_again = cmd("myx", "set", &["volume", "in", "A", "43"]);
    let d3 = dispatch_mixer(&mut m, &set_again, 9);
    assert!(d3.notices.is_empty());
}

#[test]
fn conflict_failure_is_retried_once_after_fixed_delay() {
    let r = handle_connect_result(
        true,
        "o".to_string(),
        "i".to_string(),
        Some(JackErrorKind::ConnectionConflict),
    );
    match r {
        Some(Signals::RetryIn(delay, inner)) => {
            assert_eq!(delay, RETRY_DELAY_MS);
            match *inner {
                Signals::TryConnection(of, o, i) => {
                    assert!(of);
                    assert_eq!(o, "o");
                    assert_eq!(i, "i");
                }
                _ => panic!("retry wraps the same request"),
            }
        }
        _ => panic!("a conflict is rescheduled"),
    }
}

#[test]
fn disconnect_failure_is_not_retried() {
    let r = handle_connect_result(
        false,
        "o".to_string(),
        "i".to_string(),
        Some(JackErrorKind::DisconnectNonexistent),
    );
    assert!(r.is_none());
    let r = handle_connect_result(true, "o".to_string(), "i".to_string(), Some(JackErrorKind::Other));
    assert!(r.is_none());
    let r = handle_connect_result(true, "o".to_string(), "i".to_string(), None);
    assert!(r.is_none());
}

fn live_ab() -> Vec<LivePort> {
    vec![
        LivePort { name: "o1".to_string(), is_input: false },
        LivePort { name: "i1".to_string(), is_input: true },
        LivePort { name: "o2".to_string(), is_input: false },
        LivePort { name: "i2".to_string(), is_input: true },
    ]
}

#[test]
fn disconnect_all_suppresses_checks_around_the_sweep() {
    let mut st = ReconState::new();
    let desired = ConnectionGraph::new();
    let live = live_ab();
    let plan = step(&mut st, Signals::DisconnectAll, &live, &desired);
    assert_eq!(plan.len(), 4);
    match &plan[0] {
        Action::Emit(Signals::SetConnectionCheck(false)) => {}
        _ => panic!("checks are disabled first"),
    }
    match &plan[1] {
        Action::DisconnectPort(p) => assert_eq!(p, "i1"),
        _ => panic!("inputs are swept"),
    }
    match &plan[2] {
        Action::DisconnectPort(p) => assert_eq!(p, "i2"),
        _ => panic!("inputs are swept"),
    }
    match &plan[3] {
        Action::Emit(Signals::SetConnectionCheck(true)) => {}
        _ => panic!("checks come back on last"),
    }
}

#[test]
fn resync_converges_to_desired_edges() {
    let mut desired = ConnectionGraph::new();
    desired.connect(true, "o1", "i1");
    desired.connect(true, "o1", "i2");
    desired.connect(true, "o2", "i1");
    let mut st = ReconState::new();
    let live = live_ab();
    let plan = step(&mut st, Signals::ReconnectGood, &live, &desired);
    // Apply every emitted connect to an empty live graph.
    let mut live_edges: Vec<(String, String)> = Vec::new();
    for a in &plan {
        if let Action::Emit(Signals::TryConnection(true, o, i)) = a {
            if !live_edges.iter().any(|e| &e.0 == o && &e.1 == i) {
                live_edges.push((o.clone(), i.clone()));
            }
        }
    }
    let mut want = desired.edge_list();
    live_edges.sort();
    want.sort();
    assert_eq!(live_edges, want);
}

#[test]
fn check_connection_detects_drift_both_ways() {
    let mut desired = ConnectionGraph::new();
    desired.connect(true, "o", "i");
    let live = live_ab();
    let mut st = ReconState::new();
    // wired as desired: nothing to do
    let plan = step(
        &mut st,
        Signals::CheckConection("o".to_string(), "i".to_string(), true),
        &live,
        &desired,
    );
    assert!(plan.is_empty());
    // observed disconnected but desired: reconnect
    let plan = step(
        &mut st,
        Signals::CheckConection("o".to_string(), "i".to_string(), false),
        &live,
        &desired,
    );
    assert_eq!(plan.len(), 1);
    match &plan[0] {
        Action::Emit(Signals::TryConnection(true, o, i)) => {
            assert_eq!(o, "o");
            assert_eq!(i, "i");
        }
        _ => panic!("drift triggers a reconnect"),
    }
    // suppressed: ignored
    let plan = step(&mut st, Signals::SetConnectionCheck(false), &live, &desired);
    assert!(plan.is_empty());
    let plan = step(
        &mut st,
        Signals::CheckConection("o".to_string(), "i".to_string(), false),
        &live,
        &desired,
    );
    assert!(plan.is_empty());
}

#[test]
fn try_connection_requires_exactly_one_port_per_name() {
    let mut st = ReconState::new();
    let desired = ConnectionGraph::new();
    let live = live_ab();
    let plan = step(
        &mut st,
        Signals::TryConnection(true, "o1".to_string(), "i1".to_string()),
        &live,
        &desired,
    );
    assert_eq!(plan.len(), 1);
    match &plan[0] {
        Action::Connect(true, o, i) => {
            assert_eq!(o, "o1");
            assert_eq!(i, "i1");
        }
        _ => panic!("both ports exist once"),
    }
    // a missing port: nothing is attempted
    let plan = step(
        &mut st,
        Signals::TryConnection(true, "o1".to_string(), "ghost".to_string()),
        &live,
        &desired,
    );
    assert!(plan.is_empty());
}

#[test]
fn parse_fixed_accepts_plain_decimals() {
    assert_eq!(parse_fixed("42", 1_000_000), Some(4_200));
    assert_eq!(parse_fixed("42.5", 1_000_000), Some(4_250));
    assert_eq!(parse_fixed("-0.5", 10_000), Some(-50));
    assert_eq!(parse_fixed("1.234", 1_000_000), Some(123));
    assert_eq!(parse_fixed("0", 10_000), Some(0));
    assert_eq!(parse_fixed("10000.00", 1_000_000), Some(1_000_000));
}

#[test]
fn parse_fixed_rejects_malformed_or_oversized() {
    assert_eq!(parse_fixed("", 10_000), None);
    assert_eq!(parse_fixed("abc", 10_000), None);
    assert_eq!(parse_fixed("1.2.3", 10_000), None);
    assert_eq!(parse_fixed("-", 10_000), None);
    assert_eq!(parse_fixed(".", 10_000), None);
    assert_eq!(parse_fixed("12345678", 1_000_000), None);
    assert_eq!(parse_fixed("10000.01", 1_000_000), None);
}

#[test]
fn dispatcher_reports_bad_commands_and_missing_ports() {
    let mut m = mixer_ab_o();
    let d = dispatch_mixer(&mut m, &cmd("myx", "frobnicate", &[]), 0);
    assert_eq!(d.reply.unwrap().ret, 1);
    let d = dispatch_mixer(&mut m, &cmd("myx", "get", &["in", "nosuch"]), 0);
    assert_eq!(d.reply.unwrap().ret, 2);
    let d = dispatch_mixer(&mut m, &cmd("myx", "set", &["volume", "in", "nosuch", "10"]), 0);
    assert_eq!(d.reply.unwrap().ret, 2);
    let d = dispatch_mixer(&mut m, &cmd("myx", "set", &["volume", "in", "A", "zzz"]), 0);
    assert_eq!(d.reply.unwrap().ret, 1);
}

#[test]
fn mixer_toggle_flips_the_bus_wiring() {
    let mut m = mixer_ab_o();
    // A is wired to O; toggling unwires it. The verbs take input then output.
    let d = dispatch_mixer(&mut m, &cmd("myx", "tog", &["A", "O"]), 0);
    assert_eq!(d.reply.unwrap().ret, 0);
    assert!(!m.is_connected("O", "A"));
    let d = dispatch_mixer(&mut m, &cmd("myx", "tog", &["A", "O"]), 0);
    assert_eq!(d.reply.unwrap().ret, 0);
    assert!(m.is_connected("O", "A"));
}

#[test]
fn get_channels_lists_everything() {
    let mut m = mixer_ab_o();
    let d = dispatch_mixer(&mut m, &cmd("myx", "get", &["channels"]), 0);
    let reply = d.reply.unwrap();
    assert_eq!(reply.ret, 0);
    match reply.obj {
        RespObj::Channels { inputs, outputs } => {
            assert_eq!(inputs.len(), 2);
            assert_eq!(outputs.len(), 1);
            assert_eq!(outputs[0].port, "O");
            let cons = &outputs[0].cons;
            assert_eq!(cons.len(), 2);
            assert!(cons.contains(&"A".to_string()));
            assert!(cons.contains(&"B".to_string()));
        }
        _ => panic!("channel listing"),
    }
}

#[test]
fn set_monitor_validates_existence() {
    let mut m = mixer_ab_o();
    let d = dispatch_mixer(&mut m, &cmd("myx", "set", &["monitor", "in", "A"]), 0);
    assert_eq!(d.reply.unwrap().ret, 0);
    assert_eq!(m.monitor.channel, "A");
    assert!(m.monitor.is_input);
    let d = dispatch_mixer(&mut m, &cmd("myx", "set", &["monitor", "in", "nosuch"]), 0);
    assert_eq!(d.reply.unwrap().ret, 2);
    assert_eq!(m.monitor.channel, "A");
}

#[test]
fn connection_dispatch_updates_graph_and_signals() {
    let mut cfg = jamyx::config::Config {
        connections: ConnectionGraph::new(),
        mixer: mixer_ab_o(),
    };
    let d = dispatch_connection(&mut cfg, &cmd("con", "con", &["system:out", "card:in"]));
    assert_eq!(d.reply.unwrap().ret, 0);
    assert!(cfg.connections.is_connected("system:out", "card:in"));
    match d.signal {
        Some(Signals::TryConnection(true, a, b)) => {
            assert_eq!(a, "system:out");
            assert_eq!(b, "card:in");
        }
        _ => panic!("the reconciler is asked to wire the pair"),
    }
    let d = dispatch_connection(&mut cfg, &cmd("con", "tog", &["system:out", "card:in"]));
    assert_eq!(d.reply.unwrap().ret, 0);
    assert!(!cfg.connections.is_connected("system:out", "card:in"));
    let d = dispatch_connection(&mut cfg, &cmd("con", "nope", &[]));
    assert_eq!(d.reply.unwrap().ret, 1);
    assert!(d.signal.is_none());
}

#[test]
fn targets_route_to_subsystems() {
    assert_eq!(CmdSender::classify(&"myx".to_string()), Target::Myx);
    assert_eq!(CmdSender::classify(&"con".to_string()), Target::Con);
    assert_eq!(CmdSender::classify(&"all".to_string()), Target::All);
    assert_eq!(CmdSender::classify(&"other".to_string()), Target::Unknown);
}

#[test]
fn saturating_mix_clips_at_the_rails() {
    let mut out = MixChannel::new_output(true, 1);
    let src = MixChannel::new_input(true, vec![1_000_000_000_000], vec![]);
    // full volume times the largest balance-free gain repeatedly: the
    // accumulator saturates instead of wrapping.
    for _ in 0..100_000 {
        out.copy_from(&src, vol_gain(1_000_000), bal_pair(0));
    }
    assert_eq!(out.l[0], i64::MAX);
}

#[test]
fn transport_events_feed_the_queue() {
    let r = signals_for_event(TransportEvent::PortsConnected(
        "o".to_string(),
        "i".to_string(),
        true,
    ));
    assert_eq!(r.len(), 1);
    assert!(matches!(&r[0], Signals::CheckConection(o, i, true) if o == "o" && i == "i"));
    let r = signals_for_event(TransportEvent::PortRegistration("p".to_string(), true));
    assert!(matches!(&r[0], Signals::ReconnectPort(p) if p == "p"));
    let r = signals_for_event(TransportEvent::PortRegistration("p".to_string(), false));
    assert!(r.is_empty());
    let r = signals_for_event(TransportEvent::ClientReconnection);
    assert!(matches!(r[0], Signals::DisconnectAll));
    assert!(matches!(r[1], Signals::ReconnectGood));
}

#[test]
fn registration_plan_covers_every_channel() {
    let m = mixer_ab_o();
    let plan = registration_plan(&m);
    // two ports per input channel, one per output bus, one monitor bus
    assert_eq!(plan.len(), 2 * 2 + 1 + 1);
    assert!(!plan[0].is_output);
    assert!(plan[1].is_output);
    assert!(plan[1].name.ends_with(" Out"));
    let last = plan.last().unwrap();
    assert_eq!(last.name, "MONITOR");
    assert!(last.is_output && !last.mono);
}

#[test]
fn monitor_bus_follows_the_selection() {
    let mut m = mixer_ab_o();
    m.set_mon(false, &"A".to_string()).expect("A exists");
    // A has volume 50%: the monitor hears it at half level, broadcast to both
    // sides of the stereo monitor bus.
    let selected = MixChannel::new_input(true, vec![1_000, 2_000], vec![]);
    let mut mon = MixChannel::new_output(false, 2);
    let applied = mix_monitor(&mut mon, &selected, &m);
    assert!(applied);
    assert_eq!(mon.l, vec![500, 1_000]);
    assert_eq!(mon.r, vec![500, 1_000]);
}

#[test]
fn balance_snapshot_appears_in_descriptor() {
    let mut m = mixer_ab_o();
    let notices = m.set_bal(false, &"A".to_string(), -30).expect("A exists");
    assert!(notices.is_empty());
    assert_eq!(m.get_bal(false, &"A".to_string()), Ok(-30));
    let info = m.get_port_info(false, &"A".to_string()).expect("A exists");
    assert_eq!(info.bal, -30);
    assert_eq!(info.vol, 5_000);
    assert!(info.ismono);
    assert_eq!(info.cons, vec!["O".to_string()]);
}
