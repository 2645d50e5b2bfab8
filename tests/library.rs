use std::sync::Arc;

use luminal_cairo::expand::expand_data;
use luminal_cairo::prim::{
    CairoAdd, Edge, Graph, LoweringError, Node, Operand, PrimitiveCompiler, PrimitiveOp,
    ProcessError,
};
use luminal_cairo::serialization::{deserialize_inputs_binary_op, serialize_inputs_binary_op};
use luminal_cairo::shape::{compute_strides, determine_broadcast_shape, holds_elements};

fn expand(data: Vec<u32>, shape: Vec<usize>, target: Vec<usize>) -> Vec<u32> {
    let strides = compute_strides(&shape);
    expand_data(&data, &shape, &target, &strides)
}

fn operand(data: Vec<u32>, shape: Vec<usize>) -> Operand {
    Operand { data, shape }
}

#[test]
fn strides_of_three_dimensions() {
    assert_eq!(compute_strides(&vec![2, 3, 4]), vec![12, 4, 1]);
}

#[test]
fn strides_of_scalar_are_empty() {
    assert_eq!(compute_strides(&vec![]), Vec::<usize>::new());
}

#[test]
fn strides_with_unit_dimensions() {
    assert_eq!(compute_strides(&vec![5, 1, 7]), vec![7, 7, 1]);
    assert_eq!(compute_strides(&vec![9]), vec![1]);
}

#[test]
fn broadcast_stretches_unit_dimensions() {
    let r = determine_broadcast_shape(&vec![2, 1], &vec![1, 2]);
    assert_eq!(r.ok(), Some(vec![2, 2]));
}

#[test]
fn broadcast_right_aligns_shorter_shape() {
    let r = determine_broadcast_shape(&vec![8, 1, 6, 1], &vec![7, 1, 5]);
    assert_eq!(r.ok(), Some(vec![8, 7, 6, 5]));
    let r = determine_broadcast_shape(&vec![3], &vec![2, 3]);
    assert_eq!(r.ok(), Some(vec![2, 3]));
}

#[test]
fn broadcast_of_equal_shapes_is_that_shape() {
    let r = determine_broadcast_shape(&vec![4, 5], &vec![4, 5]);
    assert_eq!(r.ok(), Some(vec![4, 5]));
    let r = determine_broadcast_shape(&vec![], &vec![]);
    assert_eq!(r.ok(), Some(vec![]));
}

#[test]
fn broadcast_with_scalar() {
    let r = determine_broadcast_shape(&vec![], &vec![2, 3]);
    assert_eq!(r.ok(), Some(vec![2, 3]));
}

#[test]
fn broadcast_fails_on_incompatible_dimensions() {
    match determine_broadcast_shape(&vec![2, 3], &vec![4, 3]) {
        Ok(_) => panic!("incompatible shapes were unified"),
        Err(e) => {
            assert_eq!(e.shape_a, vec![2, 3]);
            assert_eq!(e.shape_b, vec![4, 3]);
        }
    }
    assert!(determine_broadcast_shape(&vec![3], &vec![4]).is_err());
    assert!(determine_broadcast_shape(&vec![2, 1, 3], &vec![5, 4]).is_err());
}

#[test]
fn expand_row_against_two_rows() {
    assert_eq!(expand(vec![1, 2, 3], vec![1, 3], vec![2, 3]), vec![1, 2, 3, 1, 2, 3]);
}

#[test]
fn expand_column_against_two_columns() {
    assert_eq!(expand(vec![1, 2, 3], vec![3, 1], vec![3, 2]), vec![1, 1, 2, 2, 3, 3]);
}

#[test]
fn expand_equal_shapes_is_identity() {
    assert_eq!(expand(vec![5, 6, 7, 8], vec![4], vec![4]), vec![5, 6, 7, 8]);
    let data: Vec<u32> = (0..24).collect();
    assert_eq!(expand(data.clone(), vec![2, 3, 4], vec![2, 3, 4]), data);
}

#[test]
fn expand_adds_leading_dimensions() {
    assert_eq!(expand(vec![1, 2], vec![2], vec![2, 2]), vec![1, 2, 1, 2]);
    assert_eq!(expand(vec![9], vec![], vec![3]), vec![9, 9, 9]);
}

#[test]
fn expand_floats_by_value() {
    let data = vec![1.5f32, -2.0];
    let shape = vec![2, 1];
    let strides = compute_strides(&shape);
    let r = expand_data(&data, &shape, &vec![2, 3], &strides);
    assert_eq!(r, vec![1.5, 1.5, 1.5, -2.0, -2.0, -2.0]);
}

#[test]
fn element_count_check() {
    assert!(holds_elements(&vec![2, 3], 6));
    assert!(!holds_elements(&vec![2, 3], 5));
    assert!(holds_elements(&vec![], 1));
    assert!(!holds_elements(&vec![usize::MAX, 2], 4));
}

#[test]
fn serialized_layout() {
    let bytes = serialize_inputs_binary_op(vec![0x0403_0201], vec![7, 0xffff_ffff]);
    assert_eq!(
        bytes,
        vec![
            1, 0, 0, 0, 0, 0, 0, 0, 1, 2, 3, 4, 2, 0, 0, 0, 0, 0, 0, 0, 7, 0, 0, 0, 255, 255, 255,
            255
        ]
    );
}

#[test]
fn serialize_round_trip() {
    let a = vec![1.0f32.to_bits(), 2.5f32.to_bits(), 0];
    let b = vec![u32::MAX];
    let bytes = serialize_inputs_binary_op(a.clone(), b.clone());
    assert_eq!(deserialize_inputs_binary_op(&bytes), Some((a, b)));
    let empty = serialize_inputs_binary_op(vec![], vec![]);
    assert_eq!(empty.len(), 16);
    assert_eq!(deserialize_inputs_binary_op(&empty), Some((vec![], vec![])));
}

#[test]
fn deserialize_rejects_malformed_payloads() {
    assert_eq!(deserialize_inputs_binary_op(&vec![1, 2, 3]), None);
    let mut bytes = serialize_inputs_binary_op(vec![1, 2], vec![3]);
    bytes.push(0);
    assert_eq!(deserialize_inputs_binary_op(&bytes), None);
    bytes.pop();
    bytes.pop();
    assert_eq!(deserialize_inputs_binary_op(&bytes), None);
    let huge = vec![255u8; 16];
    assert_eq!(deserialize_inputs_binary_op(&huge), None);
}

fn add_op() -> CairoAdd<u32> {
    CairoAdd::new(String::from("compiled/add.sierra.json"), Arc::new(1))
}

#[test]
fn process_broadcast_scenario() {
    let op = add_op();
    let inputs = vec![operand(vec![10, 20], vec![2, 1]), operand(vec![1, 2], vec![1, 2])];
    let bytes = op.process_inputs(&inputs).ok().unwrap();
    assert_eq!(
        deserialize_inputs_binary_op(&bytes),
        Some((vec![10, 10, 20, 20], vec![1, 2, 1, 2]))
    );
}

#[test]
fn process_equal_shapes_passes_data_through() {
    let op = add_op();
    let a: Vec<u32> = [1.0f32, 2.0, 3.0, 4.0].iter().map(|x| x.to_bits()).collect();
    let b: Vec<u32> = [0.5f32, 0.25, 0.125, 8.0].iter().map(|x| x.to_bits()).collect();
    let inputs = vec![operand(a.clone(), vec![4]), operand(b.clone(), vec![4])];
    let bytes = op.process_inputs(&inputs).ok().unwrap();
    assert_eq!(deserialize_inputs_binary_op(&bytes), Some((a, b)));
}

#[test]
fn process_rejects_one_input() {
    let op = add_op();
    let r = op.process_inputs(&vec![operand(vec![1], vec![1])]);
    assert!(matches!(r, Err(ProcessError::Arity(1))));
}

#[test]
fn process_rejects_three_inputs() {
    let op = add_op();
    let x = || operand(vec![1], vec![1]);
    let r = op.process_inputs(&vec![x(), x(), x()]);
    assert!(matches!(r, Err(ProcessError::Arity(3))));
    let r = op.process_inputs(&vec![]);
    assert!(matches!(r, Err(ProcessError::Arity(0))));
}

#[test]
fn process_rejects_incompatible_shapes() {
    let op = add_op();
    let inputs = vec![operand(vec![0; 6], vec![2, 3]), operand(vec![0; 12], vec![4, 3])];
    match op.process_inputs(&inputs) {
        Err(ProcessError::Broadcast(e)) => {
            assert_eq!(e.shape_a, vec![2, 3]);
            assert_eq!(e.shape_b, vec![4, 3]);
        }
        _ => panic!("expected a broadcasting error"),
    }
}

#[test]
fn process_rejects_zero_dimension() {
    let op = add_op();
    let inputs = vec![operand(vec![], vec![0, 3]), operand(vec![1, 2, 3], vec![3])];
    assert!(matches!(op.process_inputs(&inputs), Err(ProcessError::ZeroDimension(0))));
    let inputs = vec![operand(vec![1], vec![1]), operand(vec![], vec![2, 0])];
    assert!(matches!(op.process_inputs(&inputs), Err(ProcessError::ZeroDimension(1))));
}

#[test]
fn process_rejects_wrong_data_length() {
    let op = add_op();
    let inputs = vec![operand(vec![1, 2], vec![3]), operand(vec![1, 2, 3], vec![3])];
    assert!(matches!(op.process_inputs(&inputs), Err(ProcessError::DataLength(0))));
    let inputs = vec![operand(vec![1, 2, 3], vec![3]), operand(vec![1], vec![1, 3])];
    assert!(matches!(op.process_inputs(&inputs), Err(ProcessError::DataLength(1))));
}

fn sample_graph() -> Graph<u32> {
    Graph {
        nodes: vec![
            Node::Other(41),
            Node::Other(42),
            Node::Primitive(PrimitiveOp::Add),
            Node::Other(43),
        ],
        edges: vec![
            Edge { source: 0, target: 2, input: 0 },
            Edge { source: 1, target: 2, input: 1 },
            Edge { source: 2, target: 3, input: 0 },
        ],
    }
}

#[test]
fn lowering_converts_additions() {
    let compiler = PrimitiveCompiler::new(5u32);
    let mut g = sample_graph();
    let path = String::from("compiled/add.sierra.json");
    assert_eq!(compiler.compile(&mut g, &path, true), Ok(()));
    assert_eq!(g.nodes.len(), 4);
    assert!(matches!(g.nodes[0], Node::Other(41)));
    assert!(matches!(g.nodes[1], Node::Other(42)));
    assert!(matches!(g.nodes[3], Node::Other(43)));
    match &g.nodes[2] {
        Node::Verifiable(op) => {
            assert_eq!(op.sierra_file_path(), &path);
            assert_eq!(**op.config(), 5);
        }
        _ => panic!("addition was not lowered"),
    }
    assert_eq!(g.edges, sample_graph().edges);
}

#[test]
fn lowering_twice_converts_nothing_more() {
    let compiler = PrimitiveCompiler::new(5u32);
    let mut g = sample_graph();
    let path = String::from("compiled/add.sierra.json");
    assert_eq!(compiler.compile(&mut g, &path, true), Ok(()));
    let other = String::from("elsewhere/add.sierra.json");
    assert_eq!(compiler.compile(&mut g, &other, false), Ok(()));
    match &g.nodes[2] {
        Node::Verifiable(op) => assert_eq!(op.sierra_file_path(), &path),
        _ => panic!("addition was not lowered"),
    }
}

#[test]
fn lowering_fails_on_unsupported_kind() {
    let compiler = PrimitiveCompiler::new(5u32);
    let mut g = sample_graph();
    g.nodes.push(Node::Primitive(PrimitiveOp::SumReduce(1)));
    g.nodes.push(Node::Primitive(PrimitiveOp::Mul));
    let path = String::from("compiled/add.sierra.json");
    let r = compiler.compile(&mut g, &path, true);
    assert_eq!(r, Err(LoweringError::Unsupported { node: 4, op: PrimitiveOp::SumReduce(1) }));
    assert!(matches!(g.nodes[2], Node::Primitive(PrimitiveOp::Add)));
}

#[test]
fn lowering_fails_without_compiled_program() {
    let compiler = PrimitiveCompiler::new(5u32);
    let mut g = sample_graph();
    let path = String::from("compiled/add.sierra.json");
    assert_eq!(compiler.compile(&mut g, &path, false), Err(LoweringError::MissingArtifact { node: 2 }));
    assert!(matches!(g.nodes[2], Node::Primitive(PrimitiveOp::Add)));
    let mut plain = Graph::<u32> { nodes: vec![Node::Other(1)], edges: vec![] };
    assert_eq!(compiler.compile(&mut plain, &path, false), Ok(()));
}
