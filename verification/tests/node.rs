use nabla_frontend::ast::{AstInfo, Prelude};
use nabla_frontend::node::{Node, NodeKind, QueryType};
use nabla_frontend::token::ToTokenRange;

fn info(start: usize, end: usize) -> AstInfo {
    AstInfo::new(Prelude::ranged(start..start), start..end)
}

fn node(kind: NodeKind, start: usize, end: usize, children: Vec<Node>) -> Node {
    Node {
        kind,
        children,
        value: None,
        info: info(start, end),
    }
}

/// `{ a = { b = 1 } c = 2 }`
fn tree() -> Node {
    node(
        NodeKind::Struct,
        0,
        9,
        vec![
            node(
                NodeKind::StructField,
                1,
                6,
                vec![
                    Node::childless(NodeKind::Ident, info(1, 2)),
                    node(
                        NodeKind::Struct,
                        3,
                        6,
                        vec![node(
                            NodeKind::StructField,
                            4,
                            5,
                            vec![
                                Node::childless(NodeKind::Ident, info(4, 5)),
                                Node::childless(NodeKind::Number, info(5, 6)),
                            ],
                        )],
                    ),
                ],
            ),
            node(
                NodeKind::StructField,
                6,
                8,
                vec![
                    Node::childless(NodeKind::Ident, info(6, 7)),
                    Node::childless(NodeKind::Number, info(7, 8)),
                ],
            ),
        ],
    )
}

fn starts(nodes: Vec<&Node>) -> Vec<usize> {
    nodes
        .into_iter()
        .map(|node| node.info.to_token_range().start)
        .collect()
}

#[test]
fn queries_by_kind() {
    let tree = tree();
    assert_eq!(vec![0], starts(tree.query(&[])));
    assert_eq!(
        vec![1, 4, 6],
        starts(tree.query(&[(NodeKind::StructField, QueryType::AnyLevel)]))
    );
    assert_eq!(
        vec![1, 6],
        starts(tree.query(&[(NodeKind::StructField, QueryType::FirstLevel)]))
    );
    assert_eq!(
        vec![1, 6],
        starts(tree.query(&[(NodeKind::StructField, QueryType::DirectChildren)]))
    );
    assert_eq!(
        vec![0],
        starts(tree.query(&[(NodeKind::Struct, QueryType::FirstLevel)]))
    );
    assert_eq!(
        vec![0, 3],
        starts(tree.query(&[(NodeKind::Struct, QueryType::AnyLevel)]))
    );
    assert_eq!(
        vec![1, 6],
        starts(tree.query(&[
            (NodeKind::StructField, QueryType::DirectChildren),
            (NodeKind::Ident, QueryType::DirectChildren)
        ]))
    );
    assert_eq!(
        vec![5, 7],
        starts(tree.query(&[
            (NodeKind::StructField, QueryType::AnyLevel),
            (NodeKind::Number, QueryType::DirectChildren)
        ]))
    );
    assert_eq!(
        vec![5, 5, 7],
        starts(tree.query(&[
            (NodeKind::StructField, QueryType::AnyLevel),
            (NodeKind::Number, QueryType::AnyLevel)
        ]))
    );
    assert!(starts(tree.query(&[(NodeKind::Use, QueryType::AnyLevel)])).is_empty());
}

#[test]
fn wrappers_span_their_child() {
    let child = Node::childless(NodeKind::Ident, info(2, 3));
    let wrapper = Node::wrapper(NodeKind::Single, child);
    assert_eq!(NodeKind::Single, wrapper.kind);
    assert_eq!(2..3, wrapper.info.range);
    assert_eq!(1, wrapper.children.len());
    assert_eq!(NodeKind::Ident, wrapper.children[0].kind);
    assert_eq!(None, wrapper.value);
}
