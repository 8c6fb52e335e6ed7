use gperf2flamegraph::flamegraph::{
    aggregate_stacks, collect_all_pcs, fill_symbols, folded_key_exec, unknown_symbol,
    FlamegraphData, Gperf2Flamegraph,
};
use gperf2flamegraph::parser::{parse_profiler_result, Stacktrace};
use gperf2flamegraph::symbols::{
    floor_search, parse_mapped_objects, ObjectData, PcSymbolMap, Symbol, SymbolResolver,
};

fn words(ws: &[u64]) -> Vec<u8> {
    let mut out = Vec::new();
    for w in ws {
        out.extend_from_slice(&w.to_le_bytes());
    }
    out
}

#[test]
fn floor_lookup_correctness() {
    // Sorted addresses [10, 20, 30]: 25 floors to 20, 5 is unresolved,
    // 30 matches exactly.
    let addrs = vec![10u64, 20, 30];
    assert_eq!(floor_search(&addrs, 25), Some(1));
    assert_eq!(floor_search(&addrs, 5), None);
    assert_eq!(floor_search(&addrs, 30), Some(2));
    assert_eq!(floor_search(&addrs, 10), Some(0));
    assert_eq!(floor_search(&addrs, 1000), Some(2));
}

fn one_object(start: u64, end: u64, offset: u64, path: &str, is_exec: bool, syms: Vec<Symbol>, vma: u64) -> ObjectData {
    let mut planned = parse_mapped_objects(
        &format!(
            "{:x}-{:x} r-xp {:x} 08:01 1 {}\n",
            start, end, offset, path
        ),
        if is_exec { path } else { "/usr/bin/other" },
        false,
    );
    assert_eq!(planned.len(), 1);
    ObjectData { planned: planned.remove(0), symbols: syms, obj_start_vma: vma }
}

#[test]
fn resolver_translates_and_annotates() {
    let lib = one_object(
        0x7f0000,
        0x7f1000,
        0x2000,
        "/lib/libfoo.so",
        false,
        vec![Symbol::new(0x2000, String::from("foo(int)")), Symbol::new(0x2800, String::from("bar"))],
        0,
    );
    let resolver = SymbolResolver::new(vec![lib]);
    // 0x7f0100 translates to 0x2100: floor symbol is foo(int).
    let pcs = vec![0x7f0100u64, 0x50u64];
    let plain = resolver.resolve_symbols_batch(&pcs, false, false);
    assert_eq!(plain.get(0x7f0100).unwrap().as_str(), "foo(int)");
    assert!(plain.get(0x50).is_none());
    let fancy = resolver.resolve_symbols_batch(&pcs, true, true);
    assert_eq!(fancy.get(0x7f0100).unwrap().as_str(), "foo [libfoo.so]");
}

#[test]
fn resolver_below_lowest_symbol_is_unresolved() {
    let obj = one_object(
        0x1000,
        0x2000,
        0,
        "/usr/bin/prog",
        true,
        vec![Symbol::new(0x1800, String::from("high"))],
        0,
    );
    let resolver = SymbolResolver::new(vec![obj]);
    let map = resolver.resolve_symbols_batch(&vec![0x1100u64], false, false);
    assert!(map.get(0x1100).is_none());
}

#[test]
fn pc_map_insert_overrides() {
    let mut m = PcSymbolMap::new();
    m.insert(7, String::from("a"));
    m.insert(7, String::from("b"));
    assert_eq!(m.get(7).unwrap().as_str(), "b");
    assert!(m.get(8).is_none());
}

#[test]
fn collect_pcs_deduplicates() {
    let sts = vec![
        Stacktrace { sample_count: 1, pcs: vec![1, 2, 1], symbols: None },
        Stacktrace { sample_count: 2, pcs: vec![2, 3], symbols: None },
    ];
    let pcs = collect_all_pcs(&sts);
    let mut sorted = pcs.clone();
    sorted.sort();
    assert_eq!(sorted, vec![1, 2, 3]);
}

#[test]
fn fill_symbols_uses_placeholder() {
    let mut m = PcSymbolMap::new();
    m.insert(1, String::from("one"));
    let sts = vec![Stacktrace { sample_count: 1, pcs: vec![1, 2], symbols: None }];
    let filled = fill_symbols(sts, &m);
    assert_eq!(filled[0].symbols.as_ref().unwrap(), &vec![String::from("one"), String::from("???")]);
}

#[test]
fn folded_key_reverses_and_trims() {
    // Leaf-first [a, b, c] folds to root-first "c;b;a".
    let key = folded_key_exec(&vec![String::from("a"), String::from("b"), String::from("c")]);
    assert_eq!(key, "c;b;a");
    // A trailing unknown frame (leaf-first head) is trimmed...
    let key = folded_key_exec(&vec![String::from("???"), String::from("a")]);
    assert_eq!(key, "a");
    // ...but a lone unknown frame stays.
    let key = folded_key_exec(&vec![unknown_symbol()]);
    assert_eq!(key, "???");
}

#[test]
fn aggregation_counts_and_scales() {
    let sts = vec![Stacktrace {
        sample_count: 5,
        pcs: vec![1, 2, 3],
        symbols: Some(vec![String::from("a"), String::from("b"), String::from("c")]),
    }];
    let folded = aggregate_stacks(&sts, 7, false).unwrap();
    assert_eq!(folded.count_for("c;b;a"), Some(5));
    let folded = aggregate_stacks(&sts, 7, true).unwrap();
    assert_eq!(folded.count_for("c;b;a"), Some(35));
}

#[test]
fn aggregation_sums_equal_keys() {
    // Two distinct raw stacks with the same folded key are summed.
    let sts = vec![
        Stacktrace { sample_count: 2, pcs: vec![1], symbols: Some(vec![String::from("x")]) },
        Stacktrace { sample_count: 3, pcs: vec![9], symbols: Some(vec![String::from("x")]) },
    ];
    let folded = aggregate_stacks(&sts, 1, false).unwrap();
    assert_eq!(folded.count_for("x"), Some(5));
}

#[test]
fn aggregation_skips_empty_stacks() {
    let sts = vec![
        Stacktrace { sample_count: 2, pcs: vec![], symbols: Some(vec![]) },
        Stacktrace { sample_count: 1, pcs: vec![1], symbols: Some(vec![String::from("y")]) },
    ];
    let folded = aggregate_stacks(&sts, 1, false).unwrap();
    assert_eq!(folded.count_for("y"), Some(1));
    let data = FlamegraphData::new(&folded, false);
    assert_eq!(data.data, "y 1\n");
}

#[test]
fn aggregation_overflow_is_reported() {
    let sts = vec![Stacktrace {
        sample_count: u64::MAX,
        pcs: vec![1],
        symbols: Some(vec![String::from("x")]),
    }];
    assert!(aggregate_stacks(&sts, 2, true).is_none());
}

#[test]
fn formatter_writes_lines_and_args() {
    let sts = vec![
        Stacktrace { sample_count: 4, pcs: vec![1], symbols: Some(vec![String::from("a")]) },
        Stacktrace { sample_count: 2, pcs: vec![2], symbols: Some(vec![String::from("b")]) },
    ];
    let folded = aggregate_stacks(&sts, 1, false).unwrap();
    let data = FlamegraphData::new(&folded, false);
    assert_eq!(data.data, "a 4\nb 2\n");
    assert!(data.default_flamegraph_args.is_empty());
    let data = FlamegraphData::new(&folded, true);
    assert_eq!(data.default_flamegraph_args, vec![String::from("--countname"), String::from("us")]);
}

#[test]
fn converter_configuration() {
    let g = Gperf2Flamegraph::new("/usr/bin/prog", "/tmp/prof.out", true);
    assert!(g.symbol_resolver.is_none());
    assert_eq!(g.executable_path, "/usr/bin/prog");
    assert_eq!(g.profile_result_path, "/tmp/prof.out");
    assert!(g.executable_only);
}

#[test]
fn end_to_end_single_sample() {
    // Header [0,3,0,1000,0], one record (2, [0x1000]), terminator, map text
    // with an object whose single symbol sits at the translated address.
    let mut bytes = words(&[0, 3, 0, 1000, 0, 2, 1, 0x1000, 0, 1, 0]);
    bytes.extend_from_slice(b"1000-2000 r-xp 00001000 08:01 1 /tmp/prog\n");
    let pr = parse_profiler_result(&bytes).unwrap();
    assert_eq!(pr.sampling_period_in_us, 1000);

    let planned = parse_mapped_objects(&pr.proc_mapped_objects, "/tmp/prog", false);
    assert_eq!(planned.len(), 1);
    let objects: Vec<ObjectData> = planned
        .into_iter()
        .map(|p| ObjectData {
            planned: p,
            symbols: vec![Symbol::new(0x1000, String::from("main"))],
            obj_start_vma: 0,
        })
        .collect();
    let resolver = SymbolResolver::new(objects);

    let pcs = collect_all_pcs(&pr.stacktraces);
    let resolved = resolver.resolve_symbols_batch(&pcs, false, false);
    let filled = fill_symbols(pr.stacktraces, &resolved);

    let folded = aggregate_stacks(&filled, pr.sampling_period_in_us, false).unwrap();
    assert_eq!(FlamegraphData::new(&folded, false).data, "main 2\n");

    let folded_us = aggregate_stacks(&filled, pr.sampling_period_in_us, true).unwrap();
    assert_eq!(FlamegraphData::new(&folded_us, true).data, "main 2000\n");
}
