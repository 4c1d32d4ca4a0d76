use nullcheck::sir::{Edge, Expr, Node, Rator, Sir, SymTy};
use nullcheck::structures::{NameIter, NameVec, NodeId, NodeVec};

fn eq_expr(a: Expr, b: Expr) -> Expr {
    Expr::BinOp(Rator::Eq, Box::new(a), Box::new(b))
}

#[test]
fn expr_renders_smt() {
    let e = eq_expr(Expr::Ref(nullcheck::structures::Name(0)), Expr::Value(SymTy::Integer(5)));
    assert_eq!(e.to_smt(), "(= x0 5 )");
}

#[test]
fn not_equal_renders_negated_equality() {
    let e = Expr::BinOp(
        Rator::NotEqual,
        Box::new(Expr::Ref(nullcheck::structures::Name(2))),
        Box::new(Expr::Value(SymTy::Integer(0))),
    );
    assert_eq!(e.to_smt(), "(not (= x2 0 ))");
}

#[test]
fn boolean_values_render() {
    assert_eq!(Expr::Value(SymTy::Bool(true)).to_smt(), "true ");
    assert_eq!(Expr::Value(SymTy::Bool(false)).to_smt(), "false ");
}

#[test]
fn unary_renders_smt() {
    let e = Expr::UnOp(Rator::Not, Box::new(Expr::Value(SymTy::Bool(false))));
    assert_eq!(e.to_smt(), "(not false )");
}

#[test]
fn node_renders_statements_in_order() {
    let mut node = Node::new();
    assert!(node.is_empty());
    node.add_expr(Expr::Value(SymTy::Integer(1)));
    node.add_expr(Expr::Value(SymTy::Integer(2)));
    assert!(!node.is_empty());
    assert_eq!(node.to_smt(), "1 2 ");
}

#[test]
fn graph_formula_nests_children_under_guards() {
    let mut sir = Sir::new();
    let n0 = sir.add_node();
    let n1 = sir.add_node();
    let n2 = sir.add_node();
    sir.add_expr_to_node(n1, Expr::Value(SymTy::Integer(7)));
    sir.add_edge(n0, Edge::new(None, n1));
    sir.add_edge(n0, Edge::new(Some(Expr::Value(SymTy::Bool(true))), n2));
    let formula = sir.to_smt(n0);
    assert_eq!(formula, "(and true (=> true (and true 7 ))(=> true  (and true )))");
}

#[test]
fn path_constraint_conjoins_guards_down_the_chain() {
    let mut sir = Sir::new();
    let n0 = sir.add_node();
    let n1 = sir.add_node();
    let n2 = sir.add_node();
    let g = eq_expr(
        Expr::Ref(nullcheck::structures::Name(0)),
        Expr::Value(SymTy::Integer(1)),
    );
    sir.add_edge(n0, Edge::new(Some(g), n1));
    sir.add_edge(n1, Edge::new(None, n2));
    // root: no incoming edges, so the constraint is the bare seed
    assert_eq!(sir.get_path_constraint(n0).to_smt(), "true ");
    // one guarded hop
    assert_eq!(sir.get_path_constraint(n1).to_smt(), "(and true (= x0 1 ))");
    // the unconditional hop adds no guard
    assert_eq!(sir.get_path_constraint(n2).to_smt(), "(and true (= x0 1 ))");
}

#[test]
fn edges_are_mirrored_backwards() {
    let mut sir = Sir::new();
    let n0 = sir.add_node();
    let n1 = sir.add_node();
    sir.add_edge(n0, Edge::new(None, n1));
    assert_eq!(sir.get_out_edges(n0).len(), 1);
    assert_eq!(sir.get_out_edges(n1).len(), 0);
    assert_eq!(sir.get_in_edges(n1).len(), 1);
    assert_eq!(sir.get_in_edges(n0).len(), 0);
    assert_eq!(sir.get_out_edges(n0)[0].get_target(), n1);
    assert_eq!(sir.get_in_edges(n1)[0].get_target(), n0);
}

#[test]
fn nodes_can_be_extended_through_a_mutable_borrow() {
    let mut sir = Sir::new();
    let n0 = sir.add_node();
    sir.get_node_mut(n0).add_expr(Expr::Value(SymTy::Integer(3)));
    assert_eq!(sir.get_node(n0).to_smt(), "3 ");
    assert_eq!(sir.num_nodes(), 1);
    let mut names = sir.get_all_names();
    assert_eq!(names.next(), None);
}

#[test]
fn node_vec_issues_sequential_ids() {
    let mut v: NodeVec<u32> = NodeVec::new();
    assert_eq!(v.push(10), NodeId(0));
    assert_eq!(v.push(20), NodeId(1));
    assert_eq!(*v.get(NodeId(1)), 20);
}

#[test]
fn name_vec_issues_sequential_names() {
    let mut v: NameVec<u32> = NameVec::new();
    assert_eq!(v.push(10), nullcheck::structures::Name(0));
    assert_eq!(v.push(20), nullcheck::structures::Name(1));
    assert_eq!(*v.get(nullcheck::structures::Name(0)), 10);
}

#[test]
fn name_iter_walks_allocation_order() {
    let mut it = NameIter::new(2);
    assert_eq!(it.next(), Some(nullcheck::structures::Name(0)));
    assert_eq!(it.next(), Some(nullcheck::structures::Name(1)));
    assert_eq!(it.next(), None);
}

#[test]
fn declaration_sorts_render() {
    let d = nullcheck::sir::Declaration::decl_from(nullcheck::mir::StaticTy::RawPtr, None)
        .unwrap();
    assert_eq!(d.sort_smt(), "Int");
    let b = nullcheck::sir::Declaration::decl_from(nullcheck::mir::StaticTy::Bool, None)
        .unwrap();
    assert_eq!(b.sort_smt(), "Bool");
    assert!(nullcheck::sir::Declaration::decl_from(
        nullcheck::mir::StaticTy::Unsupported,
        None
    )
    .is_none());
}
