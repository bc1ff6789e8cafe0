//! A uniform tree of nodes, and queries on it by the kind of the nodes.

use crate::ast::AstInfo;
use vstd::prelude::*;
use vstd::slice::*;

verus! {

/// The kinds of nodes.
#[derive(Copy, Clone, Debug, PartialEq, Eq, Structural)]
pub enum NodeKind {
    Program,
    GlobalError,
    Use,
    UseBody,
    UseAll,
    UseError,
    UseItem,
    UseItems,
    Def,
    Let,
    Init,
    Expr,
    ExprError,
    Single,
    Union,
    UnionAlternative,
    Struct,
    StructField,
    List,
    Named,
    InnerName,
    Alias,
    String,
    Char,
    Number,
    Bool,
    Ident,
    Primitive,
    PrimitiveValue,
    UseKw,
    DefKw,
    LetKw,
    AsKw,
    DoubleColon,
    Colon,
    Eq,
    LCurly,
    RCurly,
    LBracket,
    RBracket,
    Pipe,
}

/// Where a query looks for nodes of a kind.
#[derive(Copy, Clone, Debug, PartialEq, Eq, Structural)]
pub enum QueryType {
    /// In the whole tree.
    AnyLevel,
    /// In the whole tree, but not below a node that was found.
    FirstLevel,
    /// Among the children.
    DirectChildren,
}

/// A node: its kind, its children, the text it holds, and the tokens it
/// spans.
#[derive(Debug, PartialEq, Eq)]
pub struct Node {
    pub kind: NodeKind,
    pub children: Vec<Node>,
    pub value: Option<String>,
    pub info: AstInfo,
}

/// The nodes that a list of references points to.
pub open spec fn refs_model(refs: Seq<&Node>) -> Seq<Node> {
    Seq::new(refs.len(), |i: int| *refs[i])
}

impl Node {
    /// The nodes of a kind in the tree, the node itself first, then
    /// those below its children from first to last. With
    /// `stop_after_first`, the search does not go below a node that was
    /// found.
    pub open spec fn spec_level_query(&self, kind: NodeKind, stop_after_first: bool) -> Seq<Node>
        decreases self, 0nat,
    {
        if self.kind == kind && stop_after_first {
            seq![*self]
        } else {
            (if self.kind == kind {
                seq![*self]
            } else {
                Seq::empty()
            }) + Node::spec_level_children(self.children@, kind, stop_after_first)
        }
    }

    /// The nodes of a kind in each of the trees, from first to last.
    pub open spec fn spec_level_children(
        children: Seq<Node>,
        kind: NodeKind,
        stop_after_first: bool,
    ) -> Seq<Node>
        decreases children, 1nat,
    {
        if children.len() == 0 {
            Seq::empty()
        } else {
            Node::spec_level_children(children.drop_last(), kind, stop_after_first)
                + children.last().spec_level_query(kind, stop_after_first)
        }
    }

    /// The children of a kind of each of the first `n` nodes.
    pub open spec fn spec_direct(nodes: Seq<Node>, kind: NodeKind, n: int) -> Seq<Node>
        decreases n,
    {
        if n <= 0 || n > nodes.len() {
            Seq::empty()
        } else {
            Node::spec_direct(nodes, kind, n - 1) + nodes[n - 1].children@.filter(
                |child: Node| child.kind == kind,
            )
        }
    }

    /// What one step of a query finds from the nodes found so far.
    pub open spec fn spec_step(nodes: Seq<Node>, kind: NodeKind, query_type: QueryType) -> Seq<Node> {
        match query_type {
            QueryType::AnyLevel => Node::spec_level_children(nodes, kind, false),
            QueryType::FirstLevel => Node::spec_level_children(nodes, kind, true),
            QueryType::DirectChildren => Node::spec_direct(nodes, kind, nodes.len() as int),
        }
    }

    /// What the first `n` steps of a query find, starting from the
    /// nodes.
    pub open spec fn spec_query(nodes: Seq<Node>, params: Seq<(NodeKind, QueryType)>, n: int) -> Seq<
        Node,
    >
        decreases n,
    {
        if n <= 0 || n > params.len() {
            nodes
        } else {
            Node::spec_step(
                Node::spec_query(nodes, params, n - 1),
                params[n - 1].0,
                params[n - 1].1,
            )
        }
    }

    /// A node without children and without text.
    pub fn childless(kind: NodeKind, info: AstInfo) -> (r: Self)
        ensures
            r.kind == kind,
            r.children@.len() == 0,
            r.value is None,
            r.info == info,
    {
        Self { kind, children: Vec::new(), value: None, info }
    }

    /// A node around one child, which spans the tokens of the child.
    pub fn wrapper(kind: NodeKind, child: Node) -> (r: Self)
        ensures
            r.kind == kind,
            r.children@ == seq![child],
            r.value is None,
            r.info@ == child.info@,
    {
        let info = child.info.duplicate();
        let mut children: Vec<Node> = Vec::new();
        children.push(child);
        assert(children@ =~= seq![child]);
        Self { kind, info, children, value: None }
    }

    /// The nodes of a kind in the tree.
    pub fn level_query(&self, kind: NodeKind, stop_after_first: bool) -> (r: Vec<&Self>)
        ensures
            refs_model(r@) == self.spec_level_query(kind, stop_after_first),
        decreases self,
    {
        let mut result: Vec<&Node> = Vec::new();
        if self.kind == kind {
            result.push(self);
            if stop_after_first {
                assert(refs_model(result@) =~= seq![*self]);
                return result;
            }
        }
        let ghost own = refs_model(result@);
        let mut i: usize = 0;
        proof {
            assert(own =~= if self.kind == kind {
                seq![*self]
            } else {
                Seq::empty()
            });
            assert(self.children@.take(0) =~= Seq::empty());
            assert(own + Seq::<Node>::empty() =~= own);
        }
        while i < self.children.len()
            invariant
                i <= self.children@.len(),
                refs_model(result@) == own + Node::spec_level_children(
                    self.children@.take(i as int),
                    kind,
                    stop_after_first,
                ),
            decreases self.children@.len() - i,
        {
            proof {
                assert(self.children@.take(i + 1).drop_last() =~= self.children@.take(i as int));
                assert(self.children@.take(i + 1).last() == self.children@[i as int]);
            }
            let ghost before = refs_model(result@);
            let mut found = self.children[i].level_query(kind, stop_after_first);
            let ghost added = refs_model(found@);
            result.append(&mut found);
            assert(refs_model(result@) =~= before + added);
            assert(before + added =~= own + (Node::spec_level_children(
                self.children@.take(i as int),
                kind,
                stop_after_first,
            ) + added));
            i += 1;
        }
        proof {
            assert(self.children@.take(i as int) =~= self.children@);
        }
        result
    }

    /// The nodes of a kind in each of the trees.
    fn level_query_all<'a>(nodes: &Vec<&'a Node>, kind: NodeKind, stop_after_first: bool) -> (r: Vec<
        &'a Node,
    >)
        ensures
            refs_model(r@) == Node::spec_level_children(refs_model(nodes@), kind, stop_after_first),
    {
        let ghost all = refs_model(nodes@);
        let mut result: Vec<&Node> = Vec::new();
        let mut i: usize = 0;
        proof {
            assert(all.take(0) =~= Seq::empty());
            assert(refs_model(result@) =~= Seq::empty());
        }
        while i < nodes.len()
            invariant
                i <= nodes@.len(),
                all == refs_model(nodes@),
                refs_model(result@) == Node::spec_level_children(
                    all.take(i as int),
                    kind,
                    stop_after_first,
                ),
            decreases nodes@.len() - i,
        {
            proof {
                assert(all.take(i + 1).drop_last() =~= all.take(i as int));
                assert(all.take(i + 1).last() == *nodes@[i as int]);
            }
            let ghost before = refs_model(result@);
            let mut found = nodes[i].level_query(kind, stop_after_first);
            let ghost added = refs_model(found@);
            result.append(&mut found);
            assert(refs_model(result@) =~= before + added);
            i += 1;
        }
        proof {
            assert(all.take(i as int) =~= all);
        }
        result
    }

    /// The children of a kind of each of the nodes.
    fn direct_children<'a>(nodes: &Vec<&'a Node>, kind: NodeKind) -> (r: Vec<&'a Node>)
        ensures
            refs_model(r@) == Node::spec_direct(refs_model(nodes@), kind, nodes@.len() as int),
    {
        let ghost all = refs_model(nodes@);
        let mut result: Vec<&Node> = Vec::new();
        let mut i: usize = 0;
        proof {
            assert(refs_model(result@) =~= Seq::empty());
        }
        while i < nodes.len()
            invariant
                i <= nodes@.len(),
                all == refs_model(nodes@),
                refs_model(result@) == Node::spec_direct(all, kind, i as int),
            decreases nodes@.len() - i,
        {
            let node = nodes[i];
            assert(all[i as int] == *node);
            let ghost before = refs_model(result@);
            let ghost keep = |child: Node| child.kind == kind;
            let mut k: usize = 0;
            proof {
                assert(node.children@.take(0) =~= Seq::empty());
                assert(node.children@.take(0).filter(keep) =~= Seq::empty()) by {
                    reveal(Seq::filter);
                }
                assert(before + Seq::<Node>::empty() =~= before);
            }
            while k < node.children.len()
                invariant
                    k <= node.children@.len(),
                    keep == |child: Node| child.kind == kind,
                    refs_model(result@) == before + node.children@.take(k as int).filter(keep),
                decreases node.children@.len() - k,
            {
                let ghost found = refs_model(result@);
                proof {
                    assert(node.children@.take(k + 1).drop_last() =~= node.children@.take(
                        k as int,
                    ));
                    assert(node.children@.take(k + 1).last() == node.children@[k as int]);
                    reveal(Seq::filter);
                }
                let child = &node.children[k];
                if child.kind == kind {
                    result.push(child);
                    assert(refs_model(result@) =~= found.push(*child));
                    assert(found.push(*child) =~= before + node.children@.take(
                        k as int,
                    ).filter(keep).push(*child));
                }
                k += 1;
            }
            proof {
                assert(node.children@.take(k as int) =~= node.children@);
            }
            i += 1;
        }
        result
    }

    /// The nodes that a query finds: each step of the query looks, from
    /// the nodes that the step before it found, for the nodes of a kind,
    /// in the way the step says; the first step starts from this node.
    pub fn query(&self, params: &[(NodeKind, QueryType)]) -> (r: Vec<&Self>)
        ensures
            refs_model(r@) == Node::spec_query(seq![*self], params@, params@.len() as int),
    {
        let mut nodes: Vec<&Node> = Vec::new();
        nodes.push(self);
        let mut i: usize = 0;
        proof {
            assert(refs_model(nodes@) =~= seq![*self]);
        }
        while i < params.len()
            invariant
                i <= params@.len(),
                refs_model(nodes@) == Node::spec_query(seq![*self], params@, i as int),
            decreases params@.len() - i,
        {
            let kind = params[i].0;
            let query_type = params[i].1;
            nodes = match query_type {
                QueryType::AnyLevel => Node::level_query_all(&nodes, kind, false),
                QueryType::FirstLevel => Node::level_query_all(&nodes, kind, true),
                QueryType::DirectChildren => Node::direct_children(&nodes, kind),
            };
            i += 1;
        }
        nodes
    }
}

} // verus!
