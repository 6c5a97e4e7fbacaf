use backtrace_runwind::{
    symbol_from_record, DebugContext, FirstRecord, Frame, ModuleEntry, ModuleRegistry, Trace,
    UnwindStep,
};

fn entry(base: usize, start: usize, end: usize, tag: u32) -> ModuleEntry<u32> {
    ModuleEntry { base_address: base, text_start: start, text_end: end, context: tag }
}

fn steps_engine(steps: Vec<UnwindStep>) -> impl FnMut() -> UnwindStep {
    let mut i = 0;
    move || {
        let s = if i < steps.len() { steps[i] } else { UnwindStep::End };
        i += 1;
        s
    }
}

#[test]
fn lookup_inside_module_gives_module_relative_address() {
    let reg = ModuleRegistry::from_entries(vec![entry(0x1000, 0x0, 0x500, 7)]);
    assert_eq!(reg.lookup(0x1400), Some((0, 0x400)));
    let sym = symbol_from_record(0x1400, FirstRecord::NoRecord);
    assert_eq!(sym.name(), Some(b"<unknown>".to_vec()));
    assert_eq!(sym.addr(), Some(0x1400));
}

#[test]
fn empty_registry_resolves_to_unknown() {
    let reg: ModuleRegistry<DebugContext> = ModuleRegistry::new();
    let frame = Frame::new(0x50);
    let mut calls = 0;
    let mut seen = None;
    frame.resolve_symbol(&reg, |s| {
        calls += 1;
        seen = Some((s.name(), s.addr()));
    });
    assert_eq!(calls, 1);
    assert_eq!(seen, Some((Some(b"<unknown>".to_vec()), Some(0x50))));
}

#[test]
fn named_record_gives_its_name() {
    let sym = symbol_from_record(0x2345, FirstRecord::Named("compute_sum".to_string()));
    assert_eq!(sym.name(), Some(b"compute_sum".to_vec()));
    assert_eq!(sym.addr(), Some(0x2345));
    assert_eq!(sym.lineno(), None);
    assert_eq!(sym.filename(), None);
}

#[test]
fn failed_or_unnamed_records_give_unknown() {
    for rec in [FirstRecord::QueryFailed, FirstRecord::Unnamed, FirstRecord::NoRecord] {
        let sym = symbol_from_record(0x10, rec);
        assert_eq!(sym.name(), Some(b"<unknown>".to_vec()));
        assert_eq!(sym.addr(), Some(0x10));
    }
}

#[test]
fn addresses_outside_every_module_are_not_owned() {
    let reg = ModuleRegistry::from_entries(vec![
        entry(0x1000, 0x0, 0x500, 1),
        entry(0x4000, 0x100, 0x200, 2),
    ]);
    assert_eq!(reg.lookup(0x0), None);
    assert_eq!(reg.lookup(0xfff), None);
    assert_eq!(reg.lookup(0x1500), None);
    assert_eq!(reg.lookup(0x3fff), None);
    assert_eq!(reg.lookup(0x4000), None);
    assert_eq!(reg.lookup(0x40ff), None);
    assert_eq!(reg.lookup(0x4200), None);
    assert_eq!(reg.lookup(usize::MAX), None);
    assert_eq!(reg.lookup(0x4100), Some((1, 0x100)));
    assert_eq!(reg.lookup(0x41ff), Some((1, 0x1ff)));
}

#[test]
fn address_at_base_is_owned() {
    let reg = ModuleRegistry::from_entries(vec![
        entry(0x1000, 0x0, 0x500, 1),
        entry(0x2000, 0x0, 0x10, 2),
    ]);
    assert_eq!(reg.lookup(0x1000), Some((0, 0)));
    assert_eq!(reg.lookup(0x2000), Some((1, 0)));
}

#[test]
fn address_at_base_with_empty_range_is_not_owned() {
    let reg = ModuleRegistry::from_entries(vec![entry(0x1000, 0x0, 0x0, 1)]);
    assert_eq!(reg.lookup(0x1000), None);
}

#[test]
fn registry_is_sorted_and_keeps_first_of_each_base() {
    let reg = ModuleRegistry::from_entries(vec![
        entry(0x3000, 0, 0x10, 1),
        entry(0x1000, 0, 0x10, 2),
        entry(0x2000, 0, 0x10, 3),
        entry(0x1000, 0, 0x20, 4),
    ]);
    assert_eq!(reg.len(), 3);
    let bases: Vec<usize> = (0..reg.len()).map(|i| reg.entry(i).base_address).collect();
    assert_eq!(bases, vec![0x1000, 0x2000, 0x3000]);
    let tags: Vec<u32> = (0..reg.len()).map(|i| reg.entry(i).context).collect();
    assert_eq!(tags, vec![2, 3, 1]);
}

#[test]
fn insert_rejects_repeated_base() {
    let mut reg = ModuleRegistry::new();
    assert!(reg.insert(entry(0x2000, 0, 0x10, 1)));
    assert!(reg.insert(entry(0x1000, 0, 0x10, 2)));
    assert!(!reg.insert(entry(0x2000, 0, 0x10, 3)));
    assert_eq!(reg.len(), 2);
    assert_eq!(reg.entry(0).base_address, 0x1000);
    assert_eq!(reg.entry(1).context, 1);
}

#[test]
fn trace_stops_when_callback_refuses() {
    let mut trace = Trace::default();
    let mut asked = 0;
    let mut engine = steps_engine(vec![
        UnwindStep::Frame(0x10),
        UnwindStep::Frame(0x20),
        UnwindStep::Frame(0x30),
        UnwindStep::Frame(0x40),
    ]);
    let mut seen = Vec::new();
    trace.trace(
        || {
            asked += 1;
            engine()
        },
        |f: &Frame| {
            seen.push(f.ip());
            f.ip() != 0x20
        },
    );
    assert_eq!(seen, vec![0x10, 0x20]);
    assert_eq!(asked, 2);
}

#[test]
fn trace_ends_at_engine_failure() {
    let mut trace = Trace::new();
    let mut seen = Vec::new();
    trace.trace(
        steps_engine(vec![
            UnwindStep::Frame(0x10),
            UnwindStep::Frame(0x20),
            UnwindStep::Failed,
            UnwindStep::Frame(0x30),
        ]),
        |f: &Frame| {
            seen.push(f.symbol_address());
            true
        },
    );
    assert_eq!(seen, vec![0x10, 0x20]);
}

#[test]
fn trace_with_invalid_chain_emits_nothing() {
    let mut trace = Trace::new();
    let mut seen = Vec::new();
    trace.trace(steps_engine(vec![UnwindStep::Failed]), |f: &Frame| {
        seen.push(f.ip());
        true
    });
    assert!(seen.is_empty());
}

#[test]
fn trace_hands_out_every_frame_until_end() {
    let mut trace = Trace::new();
    let mut seen = Vec::new();
    trace.trace(
        steps_engine(vec![UnwindStep::Frame(1), UnwindStep::Frame(2), UnwindStep::End]),
        |f: &Frame| {
            seen.push(f.ip());
            true
        },
    );
    assert_eq!(seen, vec![1, 2]);
}

#[test]
fn trace_walks_only_once() {
    let mut trace = Trace::new();
    trace.trace(steps_engine(vec![UnwindStep::Frame(1)]), |_f: &Frame| true);
    let mut seen = Vec::new();
    trace.trace(steps_engine(vec![UnwindStep::Frame(2)]), |f: &Frame| {
        seen.push(f.ip());
        true
    });
    assert!(seen.is_empty());
}

#[test]
fn enumeration_order_does_not_change_table() {
    let a = ModuleRegistry::from_entries(vec![
        entry(0x3000, 0, 0x10, 1),
        entry(0x1000, 0, 0x10, 2),
        entry(0x2000, 0, 0x10, 3),
    ]);
    let b = ModuleRegistry::from_entries(vec![
        entry(0x2000, 0, 0x10, 3),
        entry(0x3000, 0, 0x10, 1),
        entry(0x1000, 0, 0x10, 2),
    ]);
    for addr in [0x0, 0x1005, 0x2000, 0x2010, 0x300f, 0x4000] {
        assert_eq!(a.lookup(addr), b.lookup(addr));
    }
    let tags_a: Vec<u32> = (0..a.len()).map(|i| a.entry(i).context).collect();
    let tags_b: Vec<u32> = (0..b.len()).map(|i| b.entry(i).context).collect();
    assert_eq!(tags_a, tags_b);
}
