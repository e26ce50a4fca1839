//! The decision engine façade: the single `evaluate` entry point a host
//! calls with a decision graph and an input record.

use vstd::prelude::*;
use crate::value::{Value, Model, obj_get, fields_view, lemma_fields_view};
use crate::graph::{
    Graph, GraphError, EvalError, schedule_spec, exec_nodes_spec, schedule, resolve_edges,
    has_incoming, has_outgoing, has_cycle, topo_rec, topo_inv, lemma_topo_props,
    lemma_order_excludes_cycle, lemma_resolve_range,
};

verus! {

/// An error raised by the decision engine.
#[derive(Clone, Copy, Debug, PartialEq, Eq, Structural)]
pub enum EngineError {
    /// The graph failed structural validation.
    InvalidGraph(GraphError),
    /// A node failed during evaluation; no partial result is returned.
    EvaluationFailed(EvalError),
}

/// The context every evaluation starts from: the input record under the
/// `input` key.
pub open spec fn seed_ctx(input: Model) -> Model {
    Model::Obj(seq![("input"@, input)])
}

/// What the caller receives: whatever the run accumulated under the
/// `output` key, itself wrapped under an `output` key; an empty object
/// when no node wrote there.
pub open spec fn out_val(fin: Model) -> Model {
    match fin {
        Model::Obj(fs) => match obj_get(fs, "output"@) {
            Some(v) => v,
            None => Model::Obj(Seq::empty()),
        },
        _ => Model::Obj(Seq::empty()),
    }
}

/// The extracted result: an object holding the `output` key.
pub open spec fn extract_output(fin: Model) -> Model {
    Model::Obj(seq![("output"@, out_val(fin))])
}

/// Evaluates the graph on one input record: seeds the context with
/// `{"input": input}`, runs every node in the scheduled order, and returns
/// the `output` subset of the final context. All-or-nothing: any
/// validation or node error is the result.
pub open spec fn evaluate_spec(g: Graph, input: Model) -> Result<Model, EngineError> {
    match schedule_spec(g) {
        Err(e) => Err(EngineError::InvalidGraph(e)),
        Ok(order) => match exec_nodes_spec(g.nodes@, order, 0, seed_ctx(input)) {
            Err(e) => Err(EngineError::EvaluationFailed(e)),
            Ok(fin) => Ok(extract_output(fin)),
        },
    }
}

/// Evaluates the graph on one input record, as [`evaluate_spec`] describes.
pub fn evaluate(g: &Graph, input: Value) -> (res: Result<Value, EngineError>)
    ensures
        match res {
            Ok(v) => evaluate_spec(*g, input@) == Ok::<_, EngineError>(v@),
            Err(e) => evaluate_spec(*g, input@) == Err::<Model, _>(e),
        },
{
    let order = match schedule(g) {
        Ok(order) => order,
        Err(e) => {
            return Err(EngineError::InvalidGraph(e));
        },
    };
    let key_in = new_strlit_string("input");
    let mut seed_fields: Vec<(String, Value)> = Vec::new();
    seed_fields.push((key_in, input));
    let seed = Value::Obj(seed_fields);
    proof {
        reveal_strlit("input");
        lemma_fields_view(seed_fields@);
        assert(fields_view(seed_fields@) =~= seq![("input"@, input@)]);
    }
    let fin = match crate::graph::execute_order(&g.nodes, &order, 0, seed) {
        Ok(fin) => fin,
        Err(e) => {
            return Err(EngineError::EvaluationFailed(e));
        },
    };
    let key_out = new_strlit_string("output");
    let out = match &fin {
        Value::Obj(fields) => match crate::fields::obj_find(fields, &key_out) {
            Some(j) => fields[j].1.duplicate(),
            None => Value::Obj(Vec::new()),
        },
        _ => Value::Obj(Vec::new()),
    };
    proof {
        reveal_strlit("output");
        match &fin {
            Value::Obj(fields) => {
                crate::value::lemma_fields_view(fields@);
                crate::value::lemma_obj_index_get(fields_view(fields@), "output"@);
            },
            _ => {},
        }
        assert(out@ == out_val(fin@));
    }
    let mut res_fields: Vec<(String, Value)> = Vec::new();
    res_fields.push((key_out, out));
    let res = Value::Obj(res_fields);
    proof {
        reveal_strlit("output");
        lemma_fields_view(res_fields@);
        assert(fields_view(res_fields@) =~= seq![("output"@, out_val(fin@))]);
    }
    Ok(res)
}

/// An owned `String` with the view of the given literal.
fn new_strlit_string(s: &str) -> (res: String)
    ensures
        res@ == s@,
{
    s.to_owned()
}

/// A well-formed graph evaluates to a result that carries the `output`
/// key. Well-formed means: every edge resolves, some node has no incoming
/// edge, some node has no outgoing edge, and no cycle certificate exists;
/// and every node evaluation on the scheduled order succeeds. Termination
/// is unconditional: every function here is total.
pub proof fn lemma_evaluate_wellformed(g: Graph, input: Model)
    requires
        resolve_edges(g.nodes@, g.edges@, 0) is Ok,
        exists|x: int|
            0 <= x < g.nodes.len() && !has_incoming(
                resolve_edges(g.nodes@, g.edges@, 0)->Ok_0,
                x,
            ),
        exists|x: int|
            0 <= x < g.nodes.len() && !has_outgoing(
                resolve_edges(g.nodes@, g.edges@, 0)->Ok_0,
                x,
            ),
        !has_cycle(resolve_edges(g.nodes@, g.edges@, 0)->Ok_0, g.nodes.len() as int),
        schedule_spec(g) is Ok ==> exec_nodes_spec(
            g.nodes@,
            schedule_spec(g)->Ok_0,
            0,
            seed_ctx(input),
        ) is Ok,
    ensures
        evaluate_spec(g, input) is Ok,
        match evaluate_spec(g, input) {
            Ok(r) => r matches Model::Obj(fs) && obj_get(fs, "output"@) is Some,
            Err(_) => false,
        },
{
    let ep = resolve_edges(g.nodes@, g.edges@, 0)->Ok_0;
    let n = g.nodes.len() as int;
    lemma_resolve_range(g.nodes@, g.edges@, 0);
    assert(topo_inv(ep, n, Seq::empty()));
    lemma_topo_props(ep, n, Seq::empty());
    match topo_rec(ep, n, Seq::empty()) {
        Ok(order) => {
            assert(schedule_spec(g) == Ok::<_, GraphError>(order));
        },
        Err(_) => {
            assert(has_cycle(ep, n));
            assert(false);
        },
    }
    match evaluate_spec(g, input) {
        Ok(r) => {
            assert(r == extract_output(
                exec_nodes_spec(g.nodes@, schedule_spec(g)->Ok_0, 0, seed_ctx(input))->Ok_0,
            ));
            assert(obj_get(seq![("output"@, out_val(exec_nodes_spec(g.nodes@, schedule_spec(g)->Ok_0, 0, seed_ctx(input))->Ok_0))], "output"@) is Some);
        },
        Err(_) => {
            assert(false);
        },
    }
}

/// A graph that resolves and has entry and exit nodes but contains a cycle
/// fails with `Cycle`. Scheduling fails before any node runs, so no node
/// evaluation is ever invoked.
pub proof fn lemma_cycle_detected(g: Graph, input: Model)
    requires
        resolve_edges(g.nodes@, g.edges@, 0) is Ok,
        exists|x: int|
            0 <= x < g.nodes.len() && !has_incoming(
                resolve_edges(g.nodes@, g.edges@, 0)->Ok_0,
                x,
            ),
        exists|x: int|
            0 <= x < g.nodes.len() && !has_outgoing(
                resolve_edges(g.nodes@, g.edges@, 0)->Ok_0,
                x,
            ),
        has_cycle(resolve_edges(g.nodes@, g.edges@, 0)->Ok_0, g.nodes.len() as int),
    ensures
        evaluate_spec(g, input) matches Err(e) && e matches EngineError::InvalidGraph(ge)
            && ge matches GraphError::Cycle { .. },
{
    let ep = resolve_edges(g.nodes@, g.edges@, 0)->Ok_0;
    let n = g.nodes.len() as int;
    lemma_resolve_range(g.nodes@, g.edges@, 0);
    assert(topo_inv(ep, n, Seq::empty()));
    lemma_topo_props(ep, n, Seq::empty());
    match topo_rec(ep, n, Seq::empty()) {
        Ok(order) => {
            lemma_order_excludes_cycle(ep, n, order);
            assert(false);
        },
        Err(x) => {
            assert(schedule_spec(g) == Err::<Seq<int>, _>(GraphError::Cycle { node: x as usize }));
        },
    }
}

} // verus!
