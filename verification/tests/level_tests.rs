use llm_serving_sim::adapter::adapter_rounds;
use llm_serving_sim::adapter::fan_in;
use llm_serving_sim::adapter::fan_out;
use llm_serving_sim::adapter::gather;
use llm_serving_sim::adapter::scatter;
use llm_serving_sim::adapter::AdapterCursor;
use llm_serving_sim::adapter::AdapterOp;
use llm_serving_sim::adapter::Payload;
use llm_serving_sim::adapter::RoundOp;
use llm_serving_sim::compute::compute_cycles;
use llm_serving_sim::inventory::Inventory;
use llm_serving_sim::level::MiddleIntake;
use llm_serving_sim::level::OuterLevel;
use llm_serving_sim::level::Source;
use llm_serving_sim::transfer::expand_transfers;
use llm_serving_sim::transfer::send_plan;
use llm_serving_sim::transfer::DualSender;

fn tensors(v: &[(&str, usize)]) -> Vec<(String, usize)> {
    v.iter().map(|(n, s)| (n.to_string(), *s)).collect()
}

fn entries(inv: &Inventory) -> Vec<(&str, usize)> {
    inv.entries.iter().map(|(n, c)| (n.as_str(), *c)).collect()
}

#[test]
fn inventory_starts_from_the_initial_list() {
    let inv = Inventory::from_list(&tensors(&[("a", 1), ("b", 2), ("a", 5)]));
    assert_eq!(entries(&inv), vec![("a", 5), ("b", 2)]);
    assert_eq!(inv.count(&"b".to_string()), Some(2));
    assert_eq!(inv.count(&"c".to_string()), None);
}

#[test]
fn receiving_counts_elements() {
    let mut inv = Inventory::from_list(&tensors(&[("a", 1)]));
    for n in ["a", "c", "a", "c", "c"] {
        inv.receive(&n.to_string());
    }
    assert_eq!(entries(&inv), vec![("a", 3), ("c", 3)]);
}

#[test]
fn inventory_set_replaces_in_place() {
    let mut inv = Inventory::from_list(&tensors(&[("a", 1), ("b", 1)]));
    inv.set("a".to_string(), 9);
    inv.set("z".to_string(), 4);
    assert_eq!(entries(&inv), vec![("a", 9), ("b", 1), ("z", 4)]);
}

#[test]
fn outer_level_ticks_every_bw_elements() {
    let plan = send_plan(&tensors(&[("a", 5), ("b", 2)]), 2);
    assert_eq!(plan, vec![(0, true), (0, false), (0, true), (0, false), (0, true), (1, true), (1, false)]);
    let ticks = plan.iter().filter(|(_, t)| *t).count();
    // ceil(5 / 2) + ceil(2 / 2)
    assert_eq!(ticks, 4);
}

#[test]
fn outer_level_with_zero_bandwidth_sends_empty_tensors() {
    assert!(send_plan(&tensors(&[("a", 0)]), 0).is_empty());
}

#[test]
fn middle_level_lists_elements() {
    assert_eq!(expand_transfers(&tensors(&[("a", 2), ("b", 0), ("c", 1)])), vec![0, 0, 2]);
}

#[test]
fn middle_level_interleaves_streams() {
    let mut s = DualSender::new(5, 2, 1, 3);
    let r = s.round();
    assert_eq!((r.l1_from, r.l1_to, r.l3_from, r.l3_to, r.finished), (0, 2, 0, 1, false));
    let r = s.round();
    assert_eq!((r.l1_from, r.l1_to, r.l3_from, r.l3_to, r.finished), (2, 4, 1, 1, false));
    let r = s.round();
    assert_eq!((r.l1_from, r.l1_to, r.l3_from, r.l3_to, r.finished), (4, 5, 1, 1, true));
}

#[test]
fn middle_level_finishes_after_floor_len_over_bw_plus_one_rounds() {
    for (len1, bw1, len2, bw2) in [(4usize, 2usize, 0usize, 1usize), (10, 3, 7, 7), (0, 1, 0, 1), (9, 4, 1, 1)] {
        let mut s = DualSender::new(len1, bw1, len2, bw2);
        let mut rounds = 0;
        loop {
            rounds += 1;
            if s.round().finished {
                break;
            }
        }
        assert_eq!(rounds, std::cmp::max(len1 / bw1, len2 / bw2) + 1);
    }
}

#[test]
fn zero_bandwidth_stream_never_finishes() {
    let mut s = DualSender::new(3, 0, 0, 1);
    for _ in 0..10 {
        assert!(!s.round().finished);
    }
}

#[test]
fn compute_cycles_round_up() {
    assert_eq!(compute_cycles(&vec![10, 3], 4), Some(4));
    assert_eq!(compute_cycles(&vec![10, 3], 1), Some(13));
    assert_eq!(compute_cycles(&vec![0, 0], 0), Some(0));
    assert_eq!(compute_cycles(&vec![], 7), Some(0));
    assert_eq!(compute_cycles(&vec![8], 8), Some(1));
    assert_eq!(compute_cycles(&vec![9], 8), Some(2));
}

#[test]
fn compute_cycles_overflow() {
    if usize::BITS == 64 {
        assert_eq!(compute_cycles(&vec![usize::MAX, usize::MAX], 1), None);
    }
}

#[test]
fn round_patterns() {
    assert_eq!(gather(2, 1), vec![RoundOp::Take(0), RoundOp::Take(1), RoundOp::Put(0, Payload::Zero)]);
    assert_eq!(scatter(1, 2), vec![RoundOp::Take(0), RoundOp::Put(0, Payload::Destination), RoundOp::Put(1, Payload::Destination)]);
    assert_eq!(fan_in(2), vec![RoundOp::Take(0), RoundOp::Put(0, Payload::Forward), RoundOp::Take(1), RoundOp::Put(0, Payload::Forward)]);
    assert_eq!(fan_out(2), vec![RoundOp::Take(0), RoundOp::Put(0, Payload::Forward), RoundOp::Take(0), RoundOp::Put(1, Payload::Forward)]);
}

#[test]
fn adapter_repeats_its_round_then_ticks() {
    let mut c = AdapterCursor::new(gather(1, 2), 2);
    let mut ops = vec![];
    loop {
        let op = c.next();
        if op == AdapterOp::Done {
            break;
        }
        ops.push(op);
    }
    assert_eq!(ops, vec![
        AdapterOp::Take(0), AdapterOp::Put(0, Payload::Zero), AdapterOp::Put(1, Payload::Zero),
        AdapterOp::Take(0), AdapterOp::Put(0, Payload::Zero), AdapterOp::Put(1, Payload::Zero),
        AdapterOp::Tick,
    ]);
    assert_eq!(c.next(), AdapterOp::Done);
}

#[test]
fn adapter_with_no_rounds_only_ticks() {
    let mut c = AdapterCursor::new(fan_out(3), 0);
    assert_eq!(c.next(), AdapterOp::Tick);
    assert_eq!(c.next(), AdapterOp::Done);
    let mut c = AdapterCursor::new(vec![], 5);
    assert_eq!(c.next(), AdapterOp::Tick);
    assert_eq!(c.next(), AdapterOp::Done);
}

#[test]
fn adapter_rounds_overflow() {
    assert_eq!(adapter_rounds(3, 4), Some(12));
    assert_eq!(adapter_rounds(usize::MAX, 2), None);
    assert_eq!(adapter_rounds(usize::MAX, 0), Some(0));
}

/// Plays an adapter's schedule against input lanes, returning what lands on each output lane.
fn play_adapter(mut c: AdapterCursor, inputs: &[Vec<usize>], n_out: usize) -> Vec<Vec<usize>> {
    let mut taken = vec![0usize; inputs.len()];
    let mut last = 0usize;
    let mut out = vec![vec![]; n_out];
    loop {
        match c.next() {
            AdapterOp::Take(l) => {
                last = inputs[l][taken[l]];
                taken[l] += 1;
            },
            AdapterOp::Put(l, Payload::Forward) => out[l].push(last),
            AdapterOp::Put(l, _) => out[l].push(0),
            AdapterOp::Tick => {},
            AdapterOp::Done => break,
        }
    }
    out
}

#[test]
fn fan_out_undoes_fan_in() {
    let lanes = vec![vec![10, 11, 12], vec![20, 21, 22], vec![30, 31, 32]];
    let rounds = adapter_rounds(1, 3).unwrap();
    let mid = play_adapter(AdapterCursor::new(fan_in(3), rounds), &lanes, 1);
    assert_eq!(mid, vec![vec![10, 20, 30, 11, 21, 31, 12, 22, 32]]);
    let back = play_adapter(AdapterCursor::new(fan_out(3), rounds), &mid, 3);
    assert_eq!(back, lanes);
}

#[test]
fn fan_out_undoes_fan_in_on_the_rounds_played() {
    let lanes = vec![vec![1, 2, 3, 4], vec![5, 6, 7, 8]];
    let mid = play_adapter(AdapterCursor::new(fan_in(2), 2), &lanes, 1);
    let back = play_adapter(AdapterCursor::new(fan_out(2), 2), &mid, 2);
    assert_eq!(back, vec![vec![1, 2], vec![5, 6]]);
}

#[test]
fn outer_level_runs_to_completion() {
    let mut l = OuterLevel::start(&tensors(&[("w", 2), ("k", 1)]), &tensors(&[("q", 3)]), 2, 3);
    assert_eq!(l.plan, vec![(0, true), (0, false), (0, true)]);
    assert!(!l.done());
    for n in ["k", "x", "k"] {
        l.receive(&n.to_string());
    }
    assert!(l.done());
    assert_eq!(entries(&l.tensors), vec![("w", 2), ("k", 3), ("x", 1)]);
}

#[test]
fn first_and_last_levels_alike() {
    let run = |init: &[(&str, usize)], names: &[&str]| {
        let mut l = OuterLevel::start(&tensors(init), &tensors(&[("a", 4), ("b", 1)]), 3, names.len());
        for n in names {
            l.receive(&n.to_string());
        }
        let done = l.done();
        (l.plan, l.tensors.entries, done)
    };
    let first = run(&[("a", 4)], &["a", "c"]);
    let last = run(&[("a", 4)], &["a", "c"]);
    assert_eq!(first, last);
    assert_eq!(first.0, vec![(0, true), (0, false), (0, false), (0, true), (1, true)]);
    assert_eq!(first.1, vec![("a".to_string(), 5), ("c".to_string(), 1)]);
    assert!(first.2);
}

#[test]
fn outer_level_expecting_nothing_is_done_at_once() {
    let l = OuterLevel::start(&vec![], &vec![], 0, 0);
    assert!(l.done());
    assert!(l.plan.is_empty());
}

#[test]
fn middle_level_takes_from_first_then_last() {
    let mut m = MiddleIntake::new(Inventory::from_list(&tensors(&[("a", 1)])), 2, 1);
    let mut sources = vec![];
    for n in ["a", "b", "a"] {
        sources.push(m.next_source().unwrap());
        m.receive(&n.to_string());
    }
    assert_eq!(sources, vec![Source::First, Source::First, Source::Last]);
    assert_eq!(m.next_source(), None);
    assert_eq!((m.received_first, m.received_last), (2, 1));
    assert_eq!(entries(&m.tensors), vec![("a", 3), ("b", 1)]);
}

#[test]
fn middle_level_expecting_nothing_from_first_goes_to_last() {
    let m = MiddleIntake::new(Inventory::from_list(&vec![]), 0, 2);
    assert_eq!(m.next_source(), Some(Source::Last));
    let m = MiddleIntake::new(Inventory::from_list(&vec![]), 0, 0);
    assert_eq!(m.next_source(), None);
}
