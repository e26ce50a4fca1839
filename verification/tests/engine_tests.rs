use jdm_engine::value::Value;
use jdm_engine::table::{DecisionTable, HitPolicy, Rule, TableField, EvalErrorKind};
use jdm_engine::expr::ExprError;
use jdm_engine::fields::FieldError;
use jdm_engine::graph::{Edge, Graph, GraphError, Node, NodeKind};
use jdm_engine::engine::{evaluate, EngineError};

fn field(id: &str, path: &str) -> TableField {
    TableField { id: id.to_string(), field: path.to_string() }
}

fn rule(id: &str, cond: &str, out: &str) -> Rule {
    Rule {
        id: id.to_string(),
        conditions: vec![("valueCheck".to_string(), cond.to_string())],
        outputs: vec![("result".to_string(), out.to_string())],
        priority: 0,
    }
}

fn three_rule_table(policy: HitPolicy) -> DecisionTable {
    DecisionTable {
        inputs: vec![field("valueCheck", "input.value")],
        outputs: vec![field("result", "output.result")],
        rules: vec![
            rule("rule1", "< 10", "\"less than 10\""),
            rule("rule2", "> 10", "\"greater than 10\""),
            rule("rule3", "== 10", "\"equal to 10\""),
        ],
        hit_policy: policy,
    }
}

fn table_graph(table: DecisionTable) -> Graph {
    Graph {
        nodes: vec![
            Node {
                id: "inputNode1".to_string(),
                name: "Input Value".to_string(),
                kind: NodeKind::Input,
            },
            Node {
                id: "decisionNode1".to_string(),
                name: "Check Value".to_string(),
                kind: NodeKind::Table(table),
            },
            Node {
                id: "outputNode1".to_string(),
                name: "Output Result".to_string(),
                kind: NodeKind::Output,
            },
        ],
        edges: vec![
            Edge {
                id: "1".to_string(),
                source_id: "inputNode1".to_string(),
                target_id: "decisionNode1".to_string(),
            },
            Edge {
                id: "2".to_string(),
                source_id: "decisionNode1".to_string(),
                target_id: "outputNode1".to_string(),
            },
        ],
    }
}

fn input_value(v: i64) -> Value {
    Value::Obj(vec![("value".to_string(), Value::Int(v))])
}

/// The engine writes at `output.result`, so the returned object nests the
/// written fields under the `output` key.
fn run_for(v: i64, policy: HitPolicy) -> Value {
    let g = table_graph(three_rule_table(policy));
    evaluate(&g, input_value(v)).expect("evaluation should succeed")
}

fn output_result(res: &Value) -> Option<&Value> {
    let fields = match res {
        Value::Obj(fields) => fields,
        _ => panic!("result is not an object"),
    };
    let out = fields.iter().find(|(k, _)| k == "output")?;
    let inner = match &out.1 {
        Value::Obj(fields) => fields,
        _ => return None,
    };
    inner.iter().find(|(k, _)| k == "result").map(|(_, v)| v)
}

#[test]
fn first_policy_value_above() {
    let res = run_for(99, HitPolicy::First);
    let got = output_result(&res).expect("result field present");
    assert!(got.eq_value(&Value::Str("greater than 10".to_string())));
}

#[test]
fn first_policy_value_below() {
    let res = run_for(5, HitPolicy::First);
    let got = output_result(&res).expect("result field present");
    assert!(got.eq_value(&Value::Str("less than 10".to_string())));
}

#[test]
fn first_policy_value_equal() {
    let res = run_for(10, HitPolicy::First);
    let got = output_result(&res).expect("result field present");
    assert!(got.eq_value(&Value::Str("equal to 10".to_string())));
}

fn always_table(policy: HitPolicy, outs: Vec<&str>, priorities: Vec<u64>) -> DecisionTable {
    let rules = outs
        .iter()
        .zip(priorities.iter())
        .enumerate()
        .map(|(i, (o, p))| Rule {
            id: format!("r{}", i),
            conditions: vec![],
            outputs: vec![("result".to_string(), o.to_string())],
            priority: *p,
        })
        .collect();
    DecisionTable {
        inputs: vec![field("valueCheck", "input.value")],
        outputs: vec![field("result", "output.result")],
        rules,
        hit_policy: policy,
    }
}

#[test]
fn unique_policy_disagreement_fails() {
    let t = always_table(HitPolicy::Unique, vec!["\"a\"", "\"b\""], vec![0, 0]);
    let g = table_graph(t);
    let err = evaluate(&g, input_value(1)).expect_err("must fail");
    match err {
        EngineError::EvaluationFailed(e) => {
            assert_eq!(e.kind, EvalErrorKind::HitPolicyViolation);
        }
        other => panic!("unexpected error {:?}", other),
    }
}

#[test]
fn unique_policy_agreement_returns_single_value() {
    let t = always_table(HitPolicy::Unique, vec!["\"a\"", "\"a\""], vec![0, 0]);
    let g = table_graph(t);
    let res = evaluate(&g, input_value(1)).expect("must succeed");
    let got = output_result(&res).expect("result field present");
    assert!(got.eq_value(&Value::Str("a".to_string())));
}

#[test]
fn rule_order_three_matches_gives_ordered_list() {
    let t = always_table(HitPolicy::RuleOrder, vec!["\"x\"", "\"y\"", "\"z\""], vec![0, 0, 0]);
    let g = table_graph(t);
    let res = evaluate(&g, input_value(1)).expect("must succeed");
    let got = output_result(&res).expect("result field present");
    let expected = Value::Arr(vec![
        Value::Str("x".to_string()),
        Value::Str("y".to_string()),
        Value::Str("z".to_string()),
    ]);
    assert!(got.eq_value(&expected));
}

#[test]
fn collect_three_matches_gives_ordered_list() {
    let t = always_table(HitPolicy::Collect, vec!["\"x\"", "\"y\"", "\"z\""], vec![0, 0, 0]);
    let g = table_graph(t);
    let res = evaluate(&g, input_value(1)).expect("must succeed");
    let got = output_result(&res).expect("result field present");
    let expected = Value::Arr(vec![
        Value::Str("x".to_string()),
        Value::Str("y".to_string()),
        Value::Str("z".to_string()),
    ]);
    assert!(got.eq_value(&expected));
}

#[test]
fn collect_single_match_collapses_to_scalar() {
    let t = always_table(HitPolicy::Collect, vec!["\"only\""], vec![0]);
    let g = table_graph(t);
    let res = evaluate(&g, input_value(1)).expect("must succeed");
    let got = output_result(&res).expect("result field present");
    assert!(got.eq_value(&Value::Str("only".to_string())));
}

#[test]
fn priority_policy_smallest_priority_wins() {
    let t = always_table(HitPolicy::Priority, vec!["\"low\"", "\"high\""], vec![5, 1]);
    let g = table_graph(t);
    let res = evaluate(&g, input_value(1)).expect("must succeed");
    let got = output_result(&res).expect("result field present");
    assert!(got.eq_value(&Value::Str("high".to_string())));
}

#[test]
fn priority_policy_tie_falls_to_authored_order() {
    let t = always_table(HitPolicy::Priority, vec!["\"first\"", "\"second\""], vec![2, 2]);
    let g = table_graph(t);
    let res = evaluate(&g, input_value(1)).expect("must succeed");
    let got = output_result(&res).expect("result field present");
    assert!(got.eq_value(&Value::Str("first".to_string())));
}

#[test]
fn no_match_is_success_with_absent_output_field() {
    let t = DecisionTable {
        inputs: vec![field("valueCheck", "input.value")],
        outputs: vec![field("result", "output.result")],
        rules: vec![rule("rule1", "> 100", "\"big\"")],
        hit_policy: HitPolicy::First,
    };
    let g = table_graph(t);
    let res = evaluate(&g, input_value(7)).expect("no match is not an error");
    // the output key is present, the result field absent
    match &res {
        Value::Obj(fields) => {
            let out = fields.iter().find(|(k, _)| k == "output").expect("output key");
            assert!(out.1.eq_value(&Value::Obj(vec![])));
        }
        _ => panic!("result is not an object"),
    }
}

#[test]
fn cycle_fails_with_cycle_error() {
    let mut g = table_graph(three_rule_table(HitPolicy::First));
    // decisionNode1 -> inputNode? no: add a back edge making a cycle among
    // two fresh nodes reachable from the entry
    g.nodes.push(Node {
        id: "loopA".to_string(),
        name: "Loop A".to_string(),
        kind: NodeKind::Passthrough,
    });
    g.nodes.push(Node {
        id: "loopB".to_string(),
        name: "Loop B".to_string(),
        kind: NodeKind::Passthrough,
    });
    g.edges.push(Edge {
        id: "3".to_string(),
        source_id: "inputNode1".to_string(),
        target_id: "loopA".to_string(),
    });
    g.edges.push(Edge {
        id: "4".to_string(),
        source_id: "loopA".to_string(),
        target_id: "loopB".to_string(),
    });
    g.edges.push(Edge {
        id: "5".to_string(),
        source_id: "loopB".to_string(),
        target_id: "loopA".to_string(),
    });
    let err = evaluate(&g, input_value(1)).expect_err("cycle must fail");
    match err {
        EngineError::InvalidGraph(GraphError::Cycle { .. }) => {}
        other => panic!("unexpected error {:?}", other),
    }
}

#[test]
fn dangling_edge_fails() {
    let mut g = table_graph(three_rule_table(HitPolicy::First));
    g.edges.push(Edge {
        id: "9".to_string(),
        source_id: "inputNode1".to_string(),
        target_id: "missingNode".to_string(),
    });
    let err = evaluate(&g, input_value(1)).expect_err("dangling edge must fail");
    match err {
        EngineError::InvalidGraph(GraphError::DanglingEdge { edge }) => assert_eq!(edge, 2),
        other => panic!("unexpected error {:?}", other),
    }
}

#[test]
fn no_input_node_fails() {
    let g = Graph {
        nodes: vec![Node {
            id: "a".to_string(),
            name: "A".to_string(),
            kind: NodeKind::Passthrough,
        }],
        edges: vec![Edge {
            id: "1".to_string(),
            source_id: "a".to_string(),
            target_id: "a".to_string(),
        }],
    };
    let err = evaluate(&g, Value::Null).expect_err("must fail");
    assert!(matches!(err, EngineError::InvalidGraph(GraphError::NoInputNode)));
}

#[test]
fn no_output_node_fails() {
    let g = Graph {
        nodes: vec![
            Node { id: "in".to_string(), name: "In".to_string(), kind: NodeKind::Input },
            Node { id: "a".to_string(), name: "A".to_string(), kind: NodeKind::Passthrough },
        ],
        edges: vec![
            Edge {
                id: "1".to_string(),
                source_id: "in".to_string(),
                target_id: "a".to_string(),
            },
            Edge { id: "2".to_string(), source_id: "a".to_string(), target_id: "a".to_string() },
        ],
    };
    let err = evaluate(&g, Value::Null).expect_err("must fail");
    assert!(matches!(err, EngineError::InvalidGraph(GraphError::NoOutputNode)));
}

#[test]
fn comparing_string_to_number_is_type_error() {
    let t = three_rule_table(HitPolicy::First);
    let g = table_graph(t);
    let data = Value::Obj(vec![("value".to_string(), Value::Str("abc".to_string()))]);
    let err = evaluate(&g, data).expect_err("must fail");
    match err {
        EngineError::EvaluationFailed(e) => {
            assert_eq!(e.kind, EvalErrorKind::ExprErr(ExprError::TypeError));
        }
        other => panic!("unexpected error {:?}", other),
    }
}

#[test]
fn unknown_operator_is_reported() {
    let t = DecisionTable {
        inputs: vec![field("valueCheck", "input.value")],
        outputs: vec![field("result", "output.result")],
        rules: vec![rule("rule1", "= 10", "\"odd\"")],
        hit_policy: HitPolicy::First,
    };
    let g = table_graph(t);
    let err = evaluate(&g, input_value(10)).expect_err("must fail");
    match err {
        EngineError::EvaluationFailed(e) => {
            assert_eq!(e.kind, EvalErrorKind::ExprErr(ExprError::UnknownOperator));
        }
        other => panic!("unexpected error {:?}", other),
    }
}

#[test]
fn malformed_output_path_is_invalid_path() {
    let t = DecisionTable {
        inputs: vec![field("valueCheck", "input.value")],
        outputs: vec![field("result", "1bad")],
        rules: vec![rule("rule1", "> 0", "\"v\"")],
        hit_policy: HitPolicy::First,
    };
    let g = table_graph(t);
    let err = evaluate(&g, input_value(5)).expect_err("must fail");
    match err {
        EngineError::EvaluationFailed(e) => {
            assert_eq!(e.kind, EvalErrorKind::FieldErr(FieldError::InvalidPath));
        }
        other => panic!("unexpected error {:?}", other),
    }
}

#[test]
fn sibling_node_results_survive_a_no_match_table() {
    // two tables in sequence: the first writes, the second matches nothing
    let writer = DecisionTable {
        inputs: vec![field("valueCheck", "input.value")],
        outputs: vec![field("result", "output.written")],
        rules: vec![rule("rule1", "> 0", "\"kept\"")],
        hit_policy: HitPolicy::First,
    };
    let silent = DecisionTable {
        inputs: vec![field("valueCheck", "input.value")],
        outputs: vec![field("result", "output.ignored")],
        rules: vec![rule("rule1", "> 100", "\"never\"")],
        hit_policy: HitPolicy::First,
    };
    let g = Graph {
        nodes: vec![
            Node { id: "in".to_string(), name: "In".to_string(), kind: NodeKind::Input },
            Node {
                id: "t1".to_string(),
                name: "T1".to_string(),
                kind: NodeKind::Table(writer),
            },
            Node {
                id: "t2".to_string(),
                name: "T2".to_string(),
                kind: NodeKind::Table(silent),
            },
            Node { id: "out".to_string(), name: "Out".to_string(), kind: NodeKind::Output },
        ],
        edges: vec![
            Edge { id: "1".to_string(), source_id: "in".to_string(), target_id: "t1".to_string() },
            Edge { id: "2".to_string(), source_id: "t1".to_string(), target_id: "t2".to_string() },
            Edge {
                id: "3".to_string(),
                source_id: "t2".to_string(),
                target_id: "out".to_string(),
            },
        ],
    };
    let res = evaluate(&g, input_value(3)).expect("must succeed");
    match &res {
        Value::Obj(fields) => {
            let out = fields.iter().find(|(k, _)| k == "output").expect("output key");
            let expected = Value::Obj(vec![(
                "written".to_string(),
                Value::Str("kept".to_string()),
            )]);
            assert!(out.1.eq_value(&expected));
        }
        _ => panic!("result is not an object"),
    }
}

#[test]
fn result_always_carries_output_key() {
    let g = table_graph(three_rule_table(HitPolicy::First));
    let res = evaluate(&g, input_value(42)).expect("must succeed");
    match &res {
        Value::Obj(fields) => {
            assert!(fields.iter().any(|(k, _)| k == "output"));
        }
        _ => panic!("result is not an object"),
    }
}

#[test]
fn whole_result_shape_matches() {
    let g = table_graph(three_rule_table(HitPolicy::First));
    let res = evaluate(&g, input_value(99)).expect("must succeed");
    let expected = Value::Obj(vec![(
        "output".to_string(),
        Value::Obj(vec![(
            "result".to_string(),
            Value::Str("greater than 10".to_string()),
        )]),
    )]);
    assert!(res.eq_value(&expected));
}
