use vstd::prelude::*;

use std::sync::Arc;

use crate::expand::{expand_data, expandable_to, expanded};
use crate::serialization::{serialize_inputs_binary_op, serialized};
use crate::shape::{
    all_positive, broadcast_dims, broadcastable, compute_strides, determine_broadcast_shape,
    dim_from_right, holds_elements, lemma_strides_fit, max_len, product, BroadcastError,
};

verus! {

/// One input tensor: its elements in row-major order (each value as its
/// 32-bit pattern) and its shape.
pub struct Operand {
    pub data: Vec<u32>,
    pub shape: Vec<usize>,
}

/// Why the inputs of a verifiable addition could not be prepared.
pub enum ProcessError {
    /// The operator got this many inputs instead of two.
    Arity(usize),
    /// The input at this position has a dimension of size 0.
    ZeroDimension(usize),
    /// The two shapes cannot be broadcast together.
    Broadcast(BroadcastError),
    /// The input at this position holds a different number of elements than its shape.
    DataLength(usize),
}

/// Elementwise addition carried out by an external proving runner, bound to
/// the compiled program it runs and to the runner's shared configuration.
pub struct CairoAdd<C> {
    sierra_file: String,
    runner_config: Arc<C>,
}

/// A broadcastable pair of shapes with no zero dimension stretches the first
/// onto their common shape.
proof fn lemma_expandable(a: Seq<usize>, b: Seq<usize>)
    requires
        all_positive(a),
        all_positive(b),
        broadcastable(a, b),
    ensures
        expandable_to(a, broadcast_dims(a, b)),
{
    let t = broadcast_dims(a, b);
    let n = max_len(a, b) as int;
    assert forall|e: int| 0 <= e < a.len() implies #[trigger] a[e] == 1 || a[e] == t[e + t.len()
        - a.len()] by {
        let k = a.len() - 1 - e;
        assert(dim_from_right(a, k) == a[e] as nat);
        assert(n - 1 - (e + n - a.len()) == k);
        if k < b.len() {
            assert(b[b.len() - 1 - k] >= 1);
        }
    }
}

proof fn lemma_broadcast_symmetric(a: Seq<usize>, b: Seq<usize>)
    ensures
        broadcastable(a, b) == broadcastable(b, a),
        broadcast_dims(a, b) == broadcast_dims(b, a),
{
    assert(broadcast_dims(a, b) =~= broadcast_dims(b, a));
}

fn is_all_positive(shape: &Vec<usize>) -> (r: bool)
    ensures
        r == all_positive(shape@),
{
    let n = shape.len();
    let mut i: usize = 0;
    while i < n
        invariant
            i <= n,
            n == shape@.len(),
            forall|j: int| 0 <= j < i ==> #[trigger] shape@[j] >= 1,
        decreases n - i,
    {
        if shape[i] == 0 {
            return false;
        }
        i = i + 1;
    }
    true
}

fn expand_operand(x: &Operand, target: &Vec<usize>) -> (r: Vec<u32>)
    requires
        all_positive(x.shape@),
        x.data@.len() == product(x.shape@),
        expandable_to(x.shape@, target@),
    ensures
        r@ == expanded(x.data@, x.shape@, target@),
{
    let len = x.data.len();
    proof {
        lemma_strides_fit(x.shape@);
    }
    let strides = compute_strides(&x.shape);
    expand_data(&x.data, &x.shape, target, &strides)
}

impl<C> CairoAdd<C> {
    /// Binds the operator to the compiled program at `sierra_file` and to the
    /// shared runner configuration.
    pub fn new(sierra_file: String, runner_config: Arc<C>) -> (r: Self)
        ensures
            r.sierra_file() == sierra_file@,
            r.runner_config() == runner_config,
    {
        CairoAdd { sierra_file, runner_config }
    }

    pub closed spec fn sierra_file(&self) -> Seq<char> {
        self.sierra_file@
    }

    pub closed spec fn runner_config(&self) -> Arc<C> {
        self.runner_config
    }

    /// Path of the compiled program that the runner executes.
    pub fn sierra_file_path(&self) -> (r: &String)
        ensures
            r@ == self.sierra_file(),
    {
        &self.sierra_file
    }

    /// The runner configuration shared by every operator of the graph.
    pub fn config(&self) -> (r: &Arc<C>)
        ensures
            *r == self.runner_config(),
    {
        &self.runner_config
    }

    /// Checks the inputs, broadcasts them to a common shape, expands both and
    /// encodes them as the runner's input payload. Fails before anything is
    /// handed to the runner: on any number of inputs other than two, on a
    /// shape with a zero dimension, on shapes that cannot be broadcast, and
    /// on data whose length differs from its shape's element count, in that order.
    pub fn process_inputs(&self, tensors: &Vec<Operand>) -> (r: Result<Vec<u8>, ProcessError>)
        ensures
            tensors@.len() != 2 ==> (r matches Err(ProcessError::Arity(n)) && n == tensors@.len()),
            tensors@.len() == 2 ==> {
                let a = tensors@[0];
                let b = tensors@[1];
                if !all_positive(a.shape@) {
                    r matches Err(ProcessError::ZeroDimension(i)) && i == 0
                } else if !all_positive(b.shape@) {
                    r matches Err(ProcessError::ZeroDimension(i)) && i == 1
                } else if !broadcastable(a.shape@, b.shape@) {
                    r matches Err(ProcessError::Broadcast(e)) && e.shape_a@ == a.shape@
                        && e.shape_b@ == b.shape@
                } else if a.data@.len() != product(a.shape@) {
                    r matches Err(ProcessError::DataLength(i)) && i == 0
                } else if b.data@.len() != product(b.shape@) {
                    r matches Err(ProcessError::DataLength(i)) && i == 1
                } else {
                    let t = broadcast_dims(a.shape@, b.shape@);
                    r matches Ok(bytes) && bytes@ == serialized(
                        expanded(a.data@, a.shape@, t),
                        expanded(b.data@, b.shape@, t),
                    )
                }
            },
    {
        if tensors.len() != 2 {
            return Err(ProcessError::Arity(tensors.len()));
        }
        let a = &tensors[0];
        let b = &tensors[1];
        if !is_all_positive(&a.shape) {
            return Err(ProcessError::ZeroDimension(0));
        }
        if !is_all_positive(&b.shape) {
            return Err(ProcessError::ZeroDimension(1));
        }
        let target = match determine_broadcast_shape(&a.shape, &b.shape) {
            Ok(s) => s,
            Err(e) => {
                return Err(ProcessError::Broadcast(e));
            },
        };
        if !holds_elements(&a.shape, a.data.len()) {
            return Err(ProcessError::DataLength(0));
        }
        if !holds_elements(&b.shape, b.data.len()) {
            return Err(ProcessError::DataLength(1));
        }
        proof {
            lemma_expandable(a.shape@, b.shape@);
            lemma_broadcast_symmetric(a.shape@, b.shape@);
            lemma_expandable(b.shape@, a.shape@);
        }
        let expanded_a = expand_operand(a, &target);
        let expanded_b = expand_operand(b, &target);
        Ok(serialize_inputs_binary_op(expanded_a, expanded_b))
    }
}

/// The operation kinds of the host graph that lowering knows.
#[derive(PartialEq, Eq, Structural, Debug, Clone, Copy)]
pub enum PrimitiveOp {
    Log2,
    Exp2,
    Sin,
    Constant,
    Recip,
    Sqrt,
    Add,
    Mul,
    Mod,
    LessThan,
    Contiguous,
    SumReduce(usize),
    MaxReduce(usize),
}

/// The payload of one node of the graph.
pub enum Node<C> {
    /// An operation of a known kind.
    Primitive(PrimitiveOp),
    /// An operation already lowered to verifiable execution.
    Verifiable(CairoAdd<C>),
    /// An operation of a kind that lowering does not know, by its host identifier.
    Other(u64),
}

/// A connection from the output of `source` to input `input` of `target`.
#[derive(PartialEq, Eq, Structural, Debug, Clone, Copy)]
pub struct Edge {
    pub source: usize,
    pub target: usize,
    pub input: usize,
}

/// A dataflow graph as an arena: nodes are addressed by their index, which a
/// rewrite of a node's payload never changes.
pub struct Graph<C> {
    pub nodes: Vec<Node<C>>,
    pub edges: Vec<Edge>,
}

/// Why a graph could not be lowered.
#[derive(PartialEq, Eq, Structural, Debug, Clone, Copy)]
pub enum LoweringError {
    /// The node at this index is of a known kind that has no verifiable form yet.
    Unsupported { node: usize, op: PrimitiveOp },
    /// The node at this index needs the compiled program, which is missing.
    MissingArtifact { node: usize },
}

/// Lowers the graph's primitive operations to verifiable execution.
pub struct PrimitiveCompiler<C> {
    runner_config: Arc<C>,
}

/// A known kind that has no verifiable form yet.
pub open spec fn is_unsupported<C>(n: Node<C>) -> bool {
    n matches Node::Primitive(op) && op != PrimitiveOp::Add
}

pub open spec fn is_add<C>(n: Node<C>) -> bool {
    n matches Node::Primitive(op) && op == PrimitiveOp::Add
}

/// Lowering stops at this node.
pub open spec fn blocks_lowering<C>(n: Node<C>, artifact_exists: bool) -> bool {
    is_unsupported(n) || (is_add(n) && !artifact_exists)
}

/// The error that lowering reports for a node at index `i` that stops it.
pub open spec fn error_at<C>(n: Node<C>, i: int) -> LoweringError {
    match n {
        Node::Primitive(op) => if op == PrimitiveOp::Add {
            LoweringError::MissingArtifact { node: i as usize }
        } else {
            LoweringError::Unsupported { node: i as usize, op }
        },
        _ => LoweringError::MissingArtifact { node: i as usize },
    }
}

/// `after` is `before` with every addition replaced by a verifiable addition
/// bound to `sierra_file` and `config`, and every other node kept.
pub open spec fn lowers_to<C>(
    before: Seq<Node<C>>,
    after: Seq<Node<C>>,
    sierra_file: Seq<char>,
    config: Arc<C>,
) -> bool {
    &&& after.len() == before.len()
    &&& forall|i: int|
        0 <= i < before.len() ==> if is_add(#[trigger] before[i]) {
            after[i] matches Node::Verifiable(op) && op.sierra_file() == sierra_file
                && op.runner_config() == config
        } else {
            after[i] == before[i]
        }
}

/// Relies on std's `Arc::clone`: the new handle refers to the same value.
#[verifier::external_body]
fn share<C>(a: &Arc<C>) -> (r: Arc<C>)
    ensures
        r == *a,
{
    Arc::clone(a)
}

impl<C> PrimitiveCompiler<C> {
    /// A compiler whose lowered operators all share `config`.
    pub fn new(config: C) -> (r: Self)
        ensures
            *r.runner_config() == config,
    {
        PrimitiveCompiler { runner_config: Arc::new(config) }
    }

    pub closed spec fn runner_config(&self) -> Arc<C> {
        self.runner_config
    }

    /// Replaces, in one pass over the nodes present at the start, each
    /// addition by a verifiable addition bound to the compiled program at
    /// `sierra_file` (whose presence `artifact_exists` reports) and to this
    /// compiler's configuration. Fails, leaving the graph untouched, at the
    /// first node of a known kind that has no verifiable form, or at the first
    /// addition when the compiled program is missing. Other nodes and all
    /// edges stay as they are.
    pub fn compile(&self, graph: &mut Graph<C>, sierra_file: &String, artifact_exists: bool) -> (r:
        Result<(), LoweringError>)
        ensures
            final(graph).edges@ == old(graph).edges@,
            r is Err <==> exists|i: int|
                0 <= i < old(graph).nodes@.len() && blocks_lowering(
                    #[trigger] old(graph).nodes@[i],
                    artifact_exists,
                ),
            r matches Err(e) ==> *final(graph) == *old(graph) && exists|i: int|
                0 <= i < old(graph).nodes@.len() && blocks_lowering(
                    #[trigger] old(graph).nodes@[i],
                    artifact_exists,
                ) && e == error_at(old(graph).nodes@[i], i) && forall|j: int|
                    0 <= j < i ==> !blocks_lowering(#[trigger] old(graph).nodes@[j], artifact_exists),
            r is Ok ==> lowers_to(
                old(graph).nodes@,
                final(graph).nodes@,
                sierra_file@,
                self.runner_config(),
            ),
    {
        let n = graph.nodes.len();
        let mut i: usize = 0;
        while i < n
            invariant
                i <= n,
                n == graph.nodes@.len(),
                forall|j: int| 0 <= j < i ==> !blocks_lowering(#[trigger] graph.nodes@[j], artifact_exists),
            decreases n - i,
        {
            match &graph.nodes[i] {
                Node::Primitive(op) => {
                    if *op != PrimitiveOp::Add {
                        return Err(LoweringError::Unsupported { node: i, op: *op });
                    } else if !artifact_exists {
                        return Err(LoweringError::MissingArtifact { node: i });
                    }
                },
                _ => {},
            }
            i = i + 1;
        }
        let ghost before = graph.nodes@;
        let mut k: usize = 0;
        while k < n
            invariant
                k <= n,
                n == before.len(),
                graph.nodes@.len() == n,
                graph.edges@ == old(graph).edges@,
                before == old(graph).nodes@,
                forall|j: int| k <= j < n ==> graph.nodes@[j] == before[j],
                forall|j: int|
                    0 <= j < k ==> if is_add(#[trigger] before[j]) {
                        graph.nodes@[j] matches Node::Verifiable(op) && op.sierra_file()
                            == sierra_file@ && op.runner_config() == self.runner_config()
                    } else {
                        graph.nodes@[j] == before[j]
                    },
            decreases n - k,
        {
            let convert = match &graph.nodes[k] {
                Node::Primitive(op) => *op == PrimitiveOp::Add,
                _ => false,
            };
            if convert {
                let op = CairoAdd::new(sierra_file.clone(), share(&self.runner_config));
                graph.nodes.set(k, Node::Verifiable(op));
            }
            k = k + 1;
        }
        Ok(())
    }
}

/// Lowering never converts a node twice: once a graph has been lowered, it has
/// nothing left to stop a second pass, and a second pass leaves it as it is.
pub proof fn lemma_lowering_settles<C>(
    g0: Seq<Node<C>>,
    g1: Seq<Node<C>>,
    g2: Seq<Node<C>>,
    sierra_file: Seq<char>,
    config: Arc<C>,
    artifact_exists: bool,
)
    requires
        forall|i: int| 0 <= i < g0.len() ==> !is_unsupported(#[trigger] g0[i]),
        lowers_to(g0, g1, sierra_file, config),
        lowers_to(g1, g2, sierra_file, config),
    ensures
        forall|i: int| 0 <= i < g1.len() ==> !blocks_lowering(#[trigger] g1[i], artifact_exists),
        g2 == g1,
{
    assert forall|i: int| 0 <= i < g1.len() implies !blocks_lowering(
        #[trigger] g1[i],
        artifact_exists,
    ) && !is_add(g1[i]) by {
        assert(!is_unsupported(g0[i]));
    }
    assert(g2 =~= g1);
}

} // verus!
