use llm_serving_sim::ports::make_port_name;
use llm_serving_sim::router::DragonflyRouter;
use llm_serving_sim::router::Peek;
use llm_serving_sim::router::RouterAction;
use llm_serving_sim::router::RouterFault;
use llm_serving_sim::router::SetupError;
use llm_serving_sim::routing::gateway;
use llm_serving_sim::routing::intra_hop;
use llm_serving_sim::topology::build_inter_links;
use llm_serving_sim::topology::connections_per_router;

fn dict(entries: &[(&str, usize, usize)]) -> Vec<(String, (usize, usize))> {
    entries.iter().map(|(n, s, l)| (n.to_string(), (*s, *l))).collect()
}

fn name(v: Vec<char>) -> String {
    v.into_iter().collect()
}

#[test]
fn shares_are_spread_evenly() {
    assert_eq!(connections_per_router(3, 8), vec![3, 2, 2]);
    assert_eq!(connections_per_router(4, 5), vec![1, 1, 1, 1]);
    assert_eq!(connections_per_router(2, 1), vec![0, 0]);
    let nc = connections_per_router(5, 23);
    assert_eq!(nc.iter().sum::<usize>(), 22);
    assert!(nc.iter().max().unwrap() - nc.iter().min().unwrap() <= 1);
}

#[test]
fn three_single_router_groups_form_a_full_mesh() {
    let t = build_inter_links(1, 3);
    assert_eq!(t[0][0], vec![(0, 1), (0, 2)]);
    assert_eq!(t[0][1], vec![(0, 0), (0, 2)]);
    assert_eq!(t[0][2], vec![(0, 0), (0, 1)]);
}

#[test]
fn two_by_three_links() {
    let t = build_inter_links(2, 3);
    assert_eq!(t[0][0], vec![(0, 1)]);
    assert_eq!(t[1][0], vec![(0, 2)]);
    assert_eq!(t[0][1], vec![(0, 0)]);
    assert_eq!(t[1][1], vec![(1, 2)]);
    assert_eq!(t[0][2], vec![(1, 0)]);
    assert_eq!(t[1][2], vec![(1, 1)]);
}

#[test]
fn links_are_symmetric_within_share_and_leave_their_group() {
    for (xd, yd) in [(1usize, 4usize), (2, 5), (3, 7), (4, 9), (3, 10), (5, 3)] {
        let t = build_inter_links(xd, yd);
        let nc = connections_per_router(xd, yd);
        for a in 0..xd {
            for b in 0..yd {
                assert!(t[a][b].len() <= nc[a]);
                for &(c, d) in &t[a][b] {
                    assert!(c < xd && d < yd && d != b);
                    let there = t[c][d].iter().filter(|e| **e == (a, b)).count();
                    let here = t[a][b].iter().filter(|e| **e == (c, d)).count();
                    assert_eq!(here, there);
                }
            }
        }
    }
}

#[test]
fn intra_hops() {
    assert_eq!(intra_hop(1, 0, 3), Some(1));
    assert_eq!(intra_hop(0, 2, 3), Some(1));
    assert_eq!(intra_hop(0, 1, 3), Some(0));
    assert_eq!(intra_hop(2, 1, 3), Some(1));
    assert_eq!(intra_hop(0, 5, 3), None);
    // A router outside its group's range still finds a port by wrapping around.
    assert_eq!(intra_hop(4, 1, 3), Some(2));
    assert_eq!(intra_hop(usize::MAX, 0, 3), None);
}

#[test]
fn gateways() {
    let t = build_inter_links(2, 3);
    assert_eq!(gateway(&t, 2, 3, 0, 1), Some((0, 0)));
    assert_eq!(gateway(&t, 2, 3, 0, 2), Some((1, 0)));
    assert_eq!(gateway(&t, 2, 3, 0, 0), None);
    assert_eq!(gateway(&t, 2, 3, 7, 1), None);
}

#[test]
fn port_names() {
    assert_eq!(name(make_port_name(0, 2, 4, false)), "intra_0_in");
    assert_eq!(name(make_port_name(1, 2, 4, true)), "intra_1_out");
    assert_eq!(name(make_port_name(3, 2, 4, false)), "inter_3_in");
    assert_eq!(name(make_port_name(12, 2, 11, true)), "inter_12_out");
    assert_eq!(name(make_port_name(6, 2, 4, false)), "L_in");
    assert_eq!(name(make_port_name(6, 2, 4, true)), "L_out");
}

/// Router (0, 0) of a network of three groups of two routers; ports: 0 intra, 1 and 2 inter, 3 local.
fn sample_router(out: &[(&str, usize, usize)]) -> DragonflyRouter {
    let ind = dict(&[("intra_0_in", 0, 10), ("L_in", 1, 10)]);
    let outd = dict(out);
    DragonflyRouter::setup(2, 3, 0, 0, 1, 1, &ind, 2, &outd, 3).expect("router sets up")
}

fn full_out() -> Vec<(&'static str, usize, usize)> {
    vec![("intra_0_out", 0, 10), ("inter_1_out", 1, 10), ("L_out", 2, 10)]
}

#[test]
fn routes_of_router_zero_zero() {
    let r = sample_router(&full_out());
    assert_eq!(r.route(0), Some(3));
    assert_eq!(r.route(3), Some(0));
    assert_eq!(r.route(1), Some(1));
    assert_eq!(r.route(2), Some(0));
    assert_eq!(r.route(9), None);
}

#[test]
fn setup_marks_unnamed_inputs_closed() {
    let r = sample_router(&full_out());
    assert_eq!(r.progress.in_closed, vec![false, true, true, false]);
    assert_eq!(r.in_targets[0], 10);
    assert!(r.out_ports[1].present);
    assert!(!r.out_ports[2].present);
    assert!(!r.finished());
}

#[test]
fn setup_errors() {
    let ind = dict(&[("L_in", 5, 1)]);
    let outd = dict(&[]);
    assert_eq!(DragonflyRouter::setup(0, 3, 0, 0, 1, 1, &ind, 6, &outd, 0).err(), Some(SetupError::ZeroDimension));
    assert_eq!(DragonflyRouter::setup(2, 3, 0, 0, 1, 1, &ind, 2, &outd, 0).err(), Some(SetupError::InputStreamMissing));
    let ind = dict(&[("L_in", 0, usize::MAX)]);
    assert_eq!(DragonflyRouter::setup(2, 3, 0, 0, 2, 1, &ind, 1, &outd, 0).err(), Some(SetupError::TargetOverflow));
    // Zero rounds still overflow when packets-per-input times inputs does not fit.
    assert_eq!(DragonflyRouter::setup(2, 3, 0, 0, 2, 0, &ind, 1, &outd, 0).err(), Some(SetupError::TargetOverflow));
    assert_eq!(DragonflyRouter::setup(2, usize::MAX, 0, 0, 1, 1, &ind, 1, &outd, 0).err(), Some(SetupError::TooLarge));
}

#[test]
fn a_round_serves_the_earliest_input() {
    let mut r = sample_router(&full_out());
    // Local input shows a packet for this router at time 2, intra input one for router (1, 0) at 5.
    let a = r.step(&vec![Peek::Something(5, 3), Peek::Closed, Peek::Closed, Peek::Something(2, 0)]);
    match a {
        RouterAction::Forward { in_port, in_stream, data, out_port, out_stream, delayed } => {
            assert_eq!((in_port, in_stream, data, out_port, out_stream, delayed), (3, 1, 0, 3, 2, false));
        },
        other => panic!("unexpected {:?}", other),
    }
    // Tie at time 5: the first port wins, and the packet must wait a cycle.
    let a = r.step(&vec![Peek::Something(5, 3), Peek::Closed, Peek::Closed, Peek::Nothing(4)]);
    match a {
        RouterAction::Forward { in_port, data, out_port, out_stream, delayed, .. } => {
            assert_eq!((in_port, data, out_port, out_stream, delayed), (0, 3, 0, 0, true));
        },
        other => panic!("unexpected {:?}", other),
    }
    assert_eq!(r.progress.in_received, vec![1, 0, 0, 1]);
    assert_eq!(r.progress.out_sent, vec![1, 0, 0, 1]);
}

#[test]
fn packets_from_the_local_port_go_out_at_once() {
    let mut r = sample_router(&full_out());
    let a = r.step(&vec![Peek::Nothing(9), Peek::Closed, Peek::Closed, Peek::Something(1, 3)]);
    match a {
        RouterAction::Forward { out_port, delayed, .. } => assert_eq!((out_port, delayed), (0, false)),
        other => panic!("unexpected {:?}", other),
    }
}

#[test]
fn advance_then_idle() {
    let mut r = sample_router(&full_out());
    let a = r.step(&vec![Peek::Nothing(7), Peek::Closed, Peek::Closed, Peek::Closed]);
    assert!(matches!(a, RouterAction::Advance(8)));
    assert_eq!(r.progress.in_closed, vec![false, true, true, true]);
    let a = r.step(&vec![Peek::Closed, Peek::Closed, Peek::Closed, Peek::Closed]);
    assert!(matches!(a, RouterAction::Idle));
    assert_eq!(r.progress.in_closed, vec![true, true, true, true]);
}

#[test]
fn faults_change_nothing() {
    let mut r = sample_router(&[("intra_0_out", 0, 10), ("L_out", 2, 10)]);
    let a = r.step(&vec![Peek::Closed, Peek::Closed, Peek::Closed, Peek::Something(3, 1)]);
    assert!(matches!(a, RouterAction::Reject { in_stream: 1, fault: RouterFault::OutputPortUnset }));
    assert_eq!(r.progress.in_closed, vec![false, true, true, false]);
    assert_eq!(r.progress.in_received, vec![0, 0, 0, 0]);
    let a = r.step(&vec![Peek::Closed, Peek::Closed, Peek::Closed, Peek::Something(3, 99)]);
    assert!(matches!(a, RouterAction::Reject { in_stream: 1, fault: RouterFault::NoRoute }));
    let a = r.step(&vec![Peek::Nothing(u64::MAX), Peek::Closed, Peek::Closed, Peek::Closed]);
    assert!(matches!(a, RouterAction::Fault(RouterFault::TimeOverflow)));
    let mut r = sample_router(&[("intra_0_out", 0, 10), ("L_out", 7, 10)]);
    let a = r.step(&vec![Peek::Closed, Peek::Closed, Peek::Closed, Peek::Something(3, 0)]);
    assert!(matches!(a, RouterAction::Reject { in_stream: 1, fault: RouterFault::OutputStreamMissing }));
}

#[test]
fn forwarding_conserves_packets() {
    let mut r = sample_router(&full_out());
    let peeks = [
        vec![Peek::Something(1, 3), Peek::Closed, Peek::Closed, Peek::Something(1, 1)],
        vec![Peek::Something(1, 3), Peek::Closed, Peek::Closed, Peek::Something(2, 2)],
        vec![Peek::Nothing(3), Peek::Closed, Peek::Closed, Peek::Something(2, 2)],
        vec![Peek::Nothing(3), Peek::Closed, Peek::Closed, Peek::Nothing(6)],
    ];
    for p in peeks.iter() {
        r.step(p);
        let rx: usize = r.progress.in_received.iter().sum();
        let tx: usize = r.progress.out_sent.iter().sum();
        assert_eq!(rx, tx);
    }
    assert_eq!(r.progress.in_received.iter().sum::<usize>(), 3);
}

#[test]
fn router_finishes_when_counts_reach_targets() {
    let ind = dict(&[("L_in", 0, 1)]);
    let outd = dict(&[("L_out", 0, 1)]);
    let mut r = DragonflyRouter::setup(2, 3, 1, 2, 1, 1, &ind, 1, &outd, 1).unwrap();
    assert!(!r.finished());
    // Packet for router (1, 2) itself: 1 * 3 + 2 = 5.
    let a = r.step(&vec![Peek::Closed, Peek::Closed, Peek::Closed, Peek::Something(0, 5)]);
    assert!(matches!(a, RouterAction::Forward { out_port: 3, delayed: false, .. }));
    assert!(r.finished());
    let empty = dict(&[]);
    let r = DragonflyRouter::setup(1, 1, 0, 0, 3, 3, &empty, 0, &empty, 0).unwrap();
    assert!(r.finished());
}
