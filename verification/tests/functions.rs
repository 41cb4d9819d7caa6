use vajra::cli::{
    bench_lines, cluster_start, combined_outcome, exit_message, format_sql_script, local_cluster_workers,
    mode_tag, script_of, ClusterRole, ExecutionMode, ServerError,
};
use vajra::functions::binary_pad::{
    binary_lpad, binary_rpad, check_arguments, pad_row, PadSide,
};
use vajra::functions::kll::{Double, KllError, KllSketch, KLL_K};
use vajra::functions::percentile::{
    coerce_types, groups_supported, percentile_form, ArgumentType, CoercedType, ElementType,
    MultiPercentileDisc, PercentileError, PercentileForm,
};
use vajra::functions::sketch::{
    decode_sketch, encode_sketch, estimate_from_bytes, theta_difference, theta_intersection,
    theta_union, SketchReturnType, SketchScalarStub, StubValue, COLLATION,
};
use vajra::functions::theta::{
    collect_distinct, keep_up_to, ThetaError, ThetaEstimate, ThetaSketch, THETA_K,
};
use vajra::functions::to_char::{parse_format, render};
use vajra::functions::top_k::{
    deserialize, extract_k, merged_k, parse_states, serialize, state_k, FreqCounter, KeyCount,
    TopKError, TopKLiteral,
};
use vajra::functions::try_to_date::{try_to_date, TRY_TO_DATE};
use vajra::optimizer::{
    default_optimizer_rules, plan_has_recursive_query, LogicalNode, RuleChoice,
};
use vajra::plan_nodes::{
    all_columns, ForeachBatchSinkNode, MemorySinkNode, NodeError, NodeKind, StreamDeduplicateNode,
    StreamJoinNode, WatermarkNode, WindowAccumNode,
};

fn texts(items: &[&str]) -> Vec<String> {
    items.iter().map(|s| s.to_string()).collect()
}

#[test]
fn binary_padding() {
    assert_eq!(binary_lpad(b"ab", 5, Some(b"xy")), b"xyxab");
    assert_eq!(binary_rpad(b"ab", 5, Some(b"xy")), b"abxyx");
    assert_eq!(binary_lpad(b"ab", 3, None), b"\0ab");
    assert_eq!(binary_lpad(b"abc", 2, None), b"bc");
    assert_eq!(binary_rpad(b"abc", 2, None), b"ab");
    assert_eq!(binary_rpad(b"ab", 5, Some(b"")), b"ab");
}

#[test]
fn padding_of_rows() {
    let row = |len, fill| pad_row(PadSide::Left, Some(&b"a"[..]), len, fill);
    assert_eq!(row(Some(2), Some(Some(&b"-"[..]))), Some(b"-a".to_vec()));
    assert_eq!(row(Some(2), None), Some(b"\0a".to_vec()));
    assert_eq!(row(Some(-1), None), Some(vec![]));
    assert_eq!(row(None, None), None);
    assert_eq!(row(Some(2), Some(None)), None);
    assert_eq!(pad_row(PadSide::Right, None, Some(2), None), None);
    assert_eq!(check_arguments(PadSide::Left, 2), Ok(false));
    assert_eq!(check_arguments(PadSide::Left, 3), Ok(true));
    assert_eq!(
        check_arguments(PadSide::Right, 1).unwrap_err().message(),
        "spark_binary_rpad requires 2 or 3 arguments, got 1"
    );
}

fn double(x: f64) -> Double {
    Double { bits: x.to_bits() }
}

#[test]
fn kll_sketch_keeps_every_other_value() {
    let mut sketch = KllSketch::new();
    for i in 0..(2 * KLL_K - 1) {
        sketch.add(double(i as f64));
    }
    assert_eq!(sketch.len(), 2 * KLL_K - 1);
    sketch.add(double(-1.0));
    assert_eq!(sketch.len(), KLL_K);
    assert_eq!(sketch.quantile(0), Some(double(-1.0)));
    assert_eq!(sketch.quantile(1), Some(double(1.0)));
    assert_eq!(sketch.quantile(usize::MAX), Some(double(397.0)));
    assert_eq!(KllSketch::new().quantile(0), None);
}

#[test]
fn kll_sketch_round_trip() {
    let mut sketch = KllSketch::new();
    sketch.add(double(2.5));
    sketch.add(double(-0.0));
    let bytes = sketch.serialize();
    assert_eq!(&bytes[..8], &[0x53, 0x4c, 0x4c, 0x4b, 2, 0, 0, 0]);
    let mut back = KllSketch::deserialize(&bytes).unwrap();
    assert_eq!(back.len(), 2);
    assert_eq!(back.quantile(1), Some(double(2.5)));
    let mut merged = KllSketch::new();
    merged.merge(&back);
    merged.merge_states(&[None, Some(bytes.clone())]).unwrap();
    assert_eq!(merged.len(), 4);
    merged.compact();
    assert_eq!(merged.len(), 2);
    assert_eq!(KllSketch::deserialize(&bytes[..4]).unwrap_err(), KllError::TooShort);
    assert_eq!(KllSketch::deserialize(&bytes[..9]).unwrap_err(), KllError::Truncated);
    assert_eq!(
        KllSketch::deserialize(&[1, 0, 0, 0, 0, 0, 0, 0]).unwrap_err().message(),
        "kll_sketch: bad magic 00000001"
    );
    assert_eq!(KllError::TooShort.message(), "kll_sketch: buffer too short");
    assert_eq!(KllError::Truncated.message(), "kll_sketch: truncated value list");
    assert!(merged.merge_states(&[Some(vec![])]).is_err());
}

#[test]
fn percentile_arguments() {
    let list = |e| ArgumentType::List(e);
    assert_eq!(
        coerce_types(&[ArgumentType::Numeric, ArgumentType::Numeric], "L").unwrap(),
        (CoercedType::Float64, CoercedType::Float64)
    );
    assert_eq!(
        coerce_types(&[ArgumentType::Text, list(ElementType::Null)], "L").unwrap(),
        (CoercedType::Float64, CoercedType::ListOfFloat64)
    );
    let message = |args: &[ArgumentType]| coerce_types(args, "List(Utf8)").unwrap_err().message();
    assert_eq!(message(&[]), "percentile_disc expects 2 arguments, got 0");
    assert_eq!(
        message(&[ArgumentType::Other("Date32".to_string()), ArgumentType::Numeric]),
        "percentile_disc: ORDER BY column must be numeric or string, got Date32"
    );
    assert_eq!(
        message(&[list(ElementType::Numeric), ArgumentType::Numeric]),
        "percentile_disc: ORDER BY column must be numeric or string, got List(Utf8)"
    );
    assert_eq!(
        message(&[ArgumentType::Numeric, list(ElementType::Other("Utf8".to_string()))]),
        "percentile_disc: percentile array elements must be numeric, got Utf8"
    );
    assert_eq!(
        message(&[ArgumentType::Numeric, ArgumentType::Other("Date32".to_string())]),
        "percentile_disc: percentile must be numeric, got Date32"
    );
    assert_eq!(percentile_form(false, true).unwrap(), PercentileForm::Multiple);
    assert_eq!(percentile_form(false, false).unwrap(), PercentileForm::Single);
    let e = percentile_form(true, false).unwrap_err();
    assert!(matches!(e, PercentileError::Distinct));
    assert_eq!(e.message(), "percentile_disc does not support DISTINCT with WITHIN GROUP");
    assert!(groups_supported(false, false));
    assert!(!groups_supported(true, false));
}

#[test]
fn percentiles_of_values() {
    let mut acc = MultiPercentileDisc::new();
    assert!(acc.evaluate(&[0]).is_none());
    acc.update_batch(&[Some(double(3.0)), None, Some(double(-1.0)), Some(double(2.0))]);
    assert_eq!(acc.len(), 3);
    assert_eq!(acc.evaluate(&[0, 2]), Some(vec![double(-1.0), double(3.0)]));
    assert_eq!(acc.len(), 0);
}

#[test]
fn theta_sketch_counts_exactly_until_full() {
    let mut sketch = ThetaSketch::new();
    for h in [5u64, 3, 5, 9] {
        sketch.insert(h);
    }
    assert_eq!(sketch.estimate(), ThetaEstimate::Exact { count: 3 });
    let bytes = sketch.serialize();
    let back = ThetaSketch::deserialize(&bytes).unwrap();
    assert_eq!(back.serialize(), bytes);
    let mut merged = ThetaSketch::new();
    merged.insert(3);
    merged.insert(4);
    merged.merge(&back);
    assert_eq!(merged.estimate(), ThetaEstimate::Exact { count: 4 });
    merged.merge_states(&[None, Some(bytes.clone())]).unwrap();
    assert_eq!(merged.estimate(), ThetaEstimate::Exact { count: 4 });
    assert_eq!(ThetaSketch::deserialize(&bytes[..3]).unwrap_err(), ThetaError::TooShort);
    assert_eq!(ThetaError::TooShort.message(), "theta sketch: buffer too short");
    let mut bad = bytes.clone();
    bad[0] ^= 1;
    assert_eq!(
        ThetaSketch::deserialize(&bad).unwrap_err().message(),
        "theta sketch: bad magic"
    );
    assert_eq!(
        ThetaSketch::deserialize(&bytes[..bytes.len() - 1]).unwrap_err().message(),
        "theta sketch: truncated hash list"
    );
}

#[test]
fn full_theta_sketch_keeps_the_smallest_hashes() {
    let mut sketch = ThetaSketch::new();
    for h in (0..(THETA_K as u64 + 10)).rev() {
        sketch.insert(h * 2);
    }
    match sketch.estimate() {
        ThetaEstimate::Scaled { count, theta } => {
            assert_eq!(count, THETA_K as u64);
            assert_eq!(theta, (THETA_K as u64 - 1) * 2);
        }
        other => panic!("unexpected {other:?}"),
    }
    let (hashes, theta) = decode_sketch(&sketch.serialize());
    assert_eq!(hashes.len(), THETA_K);
    assert!(hashes.iter().all(|h| *h <= theta));
}

fn sketch_of(hashes: impl Iterator<Item = u64>) -> ThetaSketch {
    let mut sketch = ThetaSketch::new();
    for h in hashes {
        sketch.insert(h);
    }
    sketch
}

#[test]
fn merged_theta_sketches_keep_the_smallest_hashes_of_both() {
    let k = THETA_K as u64;
    let mut full = sketch_of((0..2 * k).map(|h| h * 2));
    let whole = full.serialize();
    full.merge(&ThetaSketch::new());
    assert_eq!(full.serialize(), whole);
    let mut empty = ThetaSketch::new();
    empty.merge(&full);
    assert_eq!(empty.serialize(), whole);
    let odd = sketch_of((0..2 * k).map(|h| h * 2 + 1));
    let union = theta_union(&full.serialize(), &odd.serialize());
    full.merge(&odd);
    let both = sketch_of(0..4 * k);
    assert_eq!(full.serialize(), both.serialize());
    assert_eq!(union, both.serialize());
    assert_eq!(full.estimate(), ThetaEstimate::Scaled { count: k, theta: k - 1 });
    let mut part = sketch_of(10..20);
    part.merge(&both);
    assert_eq!(part.serialize(), both.serialize());
}

#[test]
fn union_of_equal_sketches_is_the_sketch() {
    let half = sketch_of(0..3000).serialize();
    assert_eq!(theta_union(&half, &half), half);
    let full = sketch_of(0..9000).serialize();
    assert_eq!(theta_union(&full, &full), full);
    assert_eq!(theta_intersection(&full, &full), full);
}

#[test]
fn theta_set_operations() {
    let a = encode_sketch(vec![1, 2, 3], u64::MAX);
    let b = encode_sketch(vec![2, 4], u64::MAX);
    let hashes = |bytes: Vec<u8>| {
        let mut h = decode_sketch(&bytes).0;
        h.sort();
        h
    };
    assert_eq!(hashes(theta_union(&a, &b)), vec![1, 2, 3, 4]);
    assert_eq!(hashes(theta_intersection(&a, &b)), vec![2]);
    assert_eq!(hashes(theta_difference(&a, &b)), vec![1, 3]);
    assert_eq!(estimate_from_bytes(&a), ThetaEstimate::Exact { count: 3 });
    assert_eq!(estimate_from_bytes(b"x"), ThetaEstimate::Exact { count: 0 });
    assert_eq!(collect_distinct(&[3, 1, 3]).len(), 2);
    assert_eq!(keep_up_to(&[3, 1, 4, 5], 4), vec![3, 1, 4]);
}

#[test]
fn sketch_stubs() {
    assert_eq!(COLLATION, "SYSTEM.BUILTIN.UTF8_BINARY");
    let stub = SketchScalarStub::binary("b");
    assert_eq!((stub.name(), stub.return_type()), ("b", SketchReturnType::Binary));
    assert!(matches!(stub.value(), StubValue::Binary(b) if b.is_empty()));
    assert!(matches!(SketchScalarStub::string("s").value(), StubValue::Utf8(s) if s == "sketch"));
    assert!(matches!(SketchScalarStub::int64("i").value(), StubValue::Int64(0)));
    assert!(matches!(SketchScalarStub::float64("f").value(), StubValue::Float64Zero));
}

#[test]
fn numbers_are_formatted() {
    let text = |fmt: &str, total: u64, negative: bool| {
        let f = parse_format(fmt);
        let factor = f.factor().unwrap();
        render(&f, factor, total, negative)
    };
    assert_eq!(text("$9,999.00", 123456, false).as_deref(), Some("$1,234.56"));
    assert_eq!(text("0000", 42, false).as_deref(), Some("0042"));
    assert_eq!(text("9999", 42, false).as_deref(), Some("42"));
    assert_eq!(text("99", 123, false), None);
    assert_eq!(text("999s", 12, true).as_deref(), Some("12-"));
    assert_eq!(text("999mi", 12, false).as_deref(), Some("12+"));
    assert_eq!(text("9g999d0", 12345, false).as_deref(), Some("1,234.5"));
}

#[test]
fn states_of_counters_are_read_in_order() {
    let first = serialize(3, &[KeyCount { key: b"a".to_vec(), count: 2 }]);
    let second = serialize(
        0,
        &[KeyCount { key: b"b".to_vec(), count: 5 }, KeyCount { key: b"a".to_vec(), count: -1 }],
    );
    let states = [Some(first), None, Some(vec![9, 9]), Some(second)];
    let (k, entries) = parse_states(7, &states);
    assert_eq!(k, 3);
    let read: Vec<(&[u8], i64)> = entries.iter().map(|e| (e.key.as_slice(), e.count)).collect();
    assert_eq!(read, vec![(&b"a"[..], 2), (&b"b"[..], 5), (&b"a"[..], -1)]);
    assert_eq!(parse_states(7, &[]).0, 7);
}

#[test]
fn top_k_limits() {
    assert_eq!(extract_k(TopKLiteral::Signed(3)).unwrap(), 3);
    assert_eq!(extract_k(TopKLiteral::Unsigned(4)).unwrap(), 4);
    let e = extract_k(TopKLiteral::Signed(0)).unwrap_err();
    assert!(matches!(e, TopKError::NotPositive { k: 0 }));
    assert_eq!(e.message(), "approx_top_k requires k to be positive, got 0");
    assert_eq!(
        extract_k(TopKLiteral::Other("Utf8".to_string())).unwrap_err().message(),
        "approx_top_k requires an integer literal for k, got Utf8"
    );
    assert_eq!(state_k(5), Some(5));
    assert_eq!(state_k(usize::MAX), None);
    assert_eq!(merged_k(5, 3), 3);
    assert_eq!(merged_k(5, 0), 5);
}

#[test]
fn most_frequent_values() {
    let mut counter: FreqCounter<u64> = FreqCounter::new();
    for v in [Some(7u64), Some(8), None, Some(7), Some(9)] {
        counter.add(v);
    }
    counter.merge(vec![(8, 2), (10, 1)]);
    assert_eq!(counter.len(), 4);
    let top: Vec<(u64, i64)> =
        counter.top_k(2).iter().map(|f| (*counter.entry(f.position).0, f.count)).collect();
    assert_eq!(top, vec![(8, 3), (7, 2)]);
    assert_eq!(counter.top_k(9).len(), 4);
}

#[test]
fn counter_round_trip() {
    let entries =
        vec![KeyCount { key: b"a".to_vec(), count: 3 }, KeyCount { key: vec![], count: 1 }];
    let bytes = serialize(5, &entries);
    let parsed = deserialize(&bytes).unwrap();
    assert_eq!(parsed.k, 5);
    let back: Vec<(Vec<u8>, i64)> = parsed.entries.into_iter().map(|e| (e.key, e.count)).collect();
    assert_eq!(back, vec![(b"a".to_vec(), 3), (vec![], 1)]);
    assert!(deserialize(&bytes[..3]).is_none());
}

#[test]
fn plan_nodes_take_new_inputs() {
    assert_eq!(all_columns(3), vec![0, 1, 2]);
    let node = StreamDeduplicateNode::new('a', texts(&["x", "y"]));
    assert_eq!(*node.input(), 'a');
    assert_eq!(node.explain(), "StreamDeduplicate: keys=[x, y]");
    let node = node.with_exprs_and_inputs::<u8>(vec![], vec!['b']).unwrap();
    assert_eq!(*node.input(), 'b');
    let e = node.with_exprs_and_inputs(vec![1u8], vec!['c']).unwrap_err();
    assert_eq!(e, NodeError::TakesNoExpressions { node: NodeKind::StreamDeduplicate });
    assert_eq!(e.message(), "StreamDeduplicate does not take expressions");

    let node = ForeachBatchSinkNode::new('a', vec![1], 200, "3.11".to_string());
    assert_eq!(node.explain(), "ForeachBatchSink: eval_type=200");
    let e = node.with_exprs_and_inputs::<u8>(vec![], vec!['b', 'c']).unwrap_err();
    assert_eq!(e.message(), "ForeachBatchSink requires exactly one input");

    let node = MemorySinkNode::new('a', "q".to_string(), 5u8);
    assert_eq!(node.explain(), "MemorySink: query_name=q");
    assert_eq!(*node.buffer(), 5);
    assert_eq!(*node.with_exprs_and_inputs::<u8>(vec![], vec!['b']).unwrap().input(), 'b');

    let node = WatermarkNode::new('a', "ts".to_string(), -7);
    assert_eq!(node.explain(), "Watermark: eventTime=ts, delay=-7µs");
    assert_eq!(*node.with_exprs_and_inputs::<u8>(vec![], vec!['b']).unwrap().input(), 'b');
}

#[test]
fn window_keeps_its_expressions() {
    let node = WindowAccumNode {
        input: 'a',
        group_exprs: vec![1, 2],
        aggr_exprs: vec![3],
        event_time_col: "ts".to_string(),
        delay_micros: 10,
        checkpoint_location: None,
    };
    assert_eq!(node.explain(), "WindowAccum: eventTime=ts, delay=10µs");
    let exprs: Vec<i32> = (0..node.expression_count()).map(|i| *node.expression(i)).collect();
    assert_eq!(exprs, vec![1, 2, 3]);
    let node = node.with_exprs_and_inputs(vec![4, 5, 6], vec!['b']).unwrap();
    assert_eq!((node.group_exprs.clone(), node.aggr_exprs.clone()), (vec![4, 5], vec![6]));
    assert_eq!(*node.input(), 'b');
    let e = node.with_exprs_and_inputs(vec![1], vec!['b']).unwrap_err();
    assert_eq!(e.message(), "WindowAccum requires 3 expressions, got 1");
}

#[test]
fn join_keeps_its_expressions() {
    let join = || StreamJoinNode {
        left: 'l',
        right: 'r',
        on: vec![(1, 2), (3, 4)],
        filter: Some(5),
        join_type: "inner",
        left_event_time: None,
        right_event_time: None,
        interval_bounds: Some((0, 1)),
        checkpoint_location: None,
    };
    let exprs: Vec<i32> = join().expressions().into_iter().copied().collect();
    assert_eq!(exprs, vec![1, 2, 3, 4, 5]);
    let node = join().with_exprs_and_inputs(vec![6, 7, 8, 9, 10], vec!['x', 'y']).unwrap();
    assert_eq!((*node.left(), *node.right()), ('x', 'y'));
    assert_eq!((node.on, node.filter), (vec![(6, 7), (8, 9)], Some(10)));
    let e = join().with_exprs_and_inputs(vec![1], vec!['x', 'y']).unwrap_err();
    assert_eq!(e.message(), "StreamJoin expression count mismatch");
    let e = join().with_exprs_and_inputs(vec![1, 2, 3, 4, 5], vec!['x']).unwrap_err();
    assert_eq!(e.message(), "StreamJoin requires exactly two inputs");
}

#[test]
fn optimizer_rules_are_wrapped() {
    assert_eq!(
        default_optimizer_rules(&texts(&["a", "optimize_projections"])),
        vec![
            RuleChoice::LateralProjection,
            RuleChoice::BuiltIn { position: 0 },
            RuleChoice::SkipRecursive { position: 1 }
        ]
    );
    let leaf = |recursive_query| LogicalNode { recursive_query, children: vec![] };
    let tree = |r| LogicalNode { recursive_query: false, children: vec![leaf(false), leaf(r)] };
    assert!(plan_has_recursive_query(&tree(true)));
    assert!(!plan_has_recursive_query(&tree(false)));
}

#[test]
fn command_line_texts() {
    assert_eq!(ServerError::new("boom".to_string()).message(), "server error: boom");
    assert_eq!(mode_tag(ExecutionMode::Local, 0), "local");
    assert_eq!(mode_tag(ExecutionMode::LocalCluster, 4), "local-cluster, workers: 4");
    assert_eq!(mode_tag(ExecutionMode::KubernetesCluster, 4), "kubernetes-cluster");
    assert_eq!(local_cluster_workers(4, 0), 4);
    assert_eq!(local_cluster_workers(4, 2), 2);
    assert_eq!(exit_message(Some(3)), "PySpark exited with code 3");
    assert_eq!(exit_message(None), "PySpark exited with code -1");
    assert_eq!(combined_outcome(Ok(()), Err("s")), Err("s"));
    assert_eq!(combined_outcome(Err("w"), Err("s")), Err("w"));
    assert_eq!(combined_outcome::<&str>(Ok(()), Ok(())), Ok(()));
}

#[test]
fn bench_is_announced() {
    let lines = bench_lines(3, "s3://b");
    assert_eq!(lines[0], "Ignite TPC-H Benchmark — Scale Factor 3");
    assert_eq!(lines[1], "Data path: s3://b");
    assert_eq!(lines.len(), 4);
}

#[test]
fn failed_dates_are_null() {
    let text = |t: &str| Some(t.to_string());
    assert_eq!(
        try_to_date(&[text("1970-01-08"), None, text("1969-12-31")]),
        vec![Some(7), None, Some(-1)]
    );
    assert_eq!(try_to_date(&[text("1970-01-08"), text("no date")]), vec![None, None]);
    assert!(try_to_date(&[]).is_empty());
    assert_eq!(TRY_TO_DATE, "spark_try_to_date");
}

#[test]
fn cluster_roles() {
    let start = cluster_start(ClusterRole::Scheduler, "0.0.0.0", 50051, None);
    assert!(!start.runs_worker);
    assert_eq!(start.lines[0], "ignite cluster scheduler at 0.0.0.0:50051");
    assert_eq!(start.lines.len(), 2);
    let start = cluster_start(ClusterRole::Worker, "0.0.0.0", 1, Some("h:9"));
    assert!(start.runs_worker);
    assert_eq!(start.lines, vec!["ignite cluster worker → scheduler at h:9".to_string()]);
    let start = cluster_start(ClusterRole::Worker, "h", 1, None);
    assert_eq!(start.lines[0], "ignite cluster worker → scheduler at h:1");
}

#[test]
fn queries_are_quoted_in_scripts() {
    let script = format_sql_script("select \"a\"\n");
    assert!(script.contains("spark.sql(\"select \\\"a\\\"\\n\").show(truncate=False)"));
    assert_eq!(script, script_of("\"select \\\"a\\\"\\n\""));
    assert!(script.starts_with("from pyspark.sql import SparkSession\n"));
}
