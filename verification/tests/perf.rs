use furnace::perf::{enable, report, reset, time, Op, Timings, OPS};

#[test]
fn timers_add_up_when_enabled() {
    let mut t = Timings::new();
    assert_eq!(t.counters.len(), OPS);
    // not in use: nothing is counted
    time(&t, Op::Matmul, 100).finish(&mut t, 200);
    assert_eq!((t.counters[0].nanos, t.counters[0].calls), (0, 0));
    enable(&mut t);
    time(&t, Op::Matmul, 100).finish(&mut t, 250);
    time(&t, Op::Matmul, 300).finish(&mut t, 310);
    time(&t, Op::Sample, 0).finish(&mut t, 5);
    assert_eq!((t.counters[0].nanos, t.counters[0].calls), (160, 2));
    assert_eq!((t.counters[8].nanos, t.counters[8].calls), (5, 1));
    assert_eq!((t.counters[1].nanos, t.counters[1].calls), (0, 0));
    // a clock that goes back counts as no time
    time(&t, Op::Rope, 50).finish(&mut t, 40);
    assert_eq!((t.counters[3].nanos, t.counters[3].calls), (0, 1));
    reset(&mut t);
    assert!(t.enabled);
    assert!(t.counters.iter().all(|c| c.nanos == 0 && c.calls == 0));
}

#[test]
fn kinds_have_names_and_places() {
    let t = Timings::new();
    let names: Vec<&str> = t.counters.iter().map(|c| c.op.name()).collect();
    assert_eq!(
        names,
        vec!["matmul", "rmsnorm", "softmax", "rope", "attn scores", "attn apply", "add/swiglu", "embed", "sample"]
    );
    for (i, c) in t.counters.iter().enumerate() {
        assert_eq!(c.op.index(), i);
    }
}

#[test]
fn report_shows_what_was_called() {
    let mut t = Timings::new();
    assert!(report(&t).is_none());
    enable(&mut t);
    assert!(report(&t).unwrap().is_empty());
    time(&t, Op::Sample, 0).finish(&mut t, 5);
    time(&t, Op::Rope, 0).finish(&mut t, 7);
    let list = report(&t).unwrap();
    let shown: Vec<(Op, u64, u64)> = list.iter().map(|c| (c.op, c.nanos, c.calls)).collect();
    assert_eq!(shown, vec![(Op::Rope, 7, 1), (Op::Sample, 5, 1)]);
}
