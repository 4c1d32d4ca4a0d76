//! The symbolic intermediate representation: a rooted graph of nodes, each an
//! ordered conjunction of assertions, joined by guarded edges, together with
//! the declaration table that owns every symbolic name of one analysis run.

use vstd::prelude::*;

use crate::mir::StaticTy;
use crate::structures::{Name, NameIter, NameVec, NodeId, NodeVec};

verus! {

/// A symbolic scalar: the engine is untyped below the split between
/// integers (which also stand for raw pointers) and booleans.
#[derive(Clone, Copy, PartialEq, Eq, Structural, Hash, Debug)]
pub enum SymTy {
    Integer(u128),
    Bool(bool),
}

/// The symbolic value a constant scalar of the given static type denotes;
/// `None` when the type is outside the supported subset.
pub open spec fn scalar_symty(sc: u128, ty: StaticTy) -> Option<SymTy> {
    match ty {
        StaticTy::Int => Some(SymTy::Integer(sc)),
        StaticTy::Uint => Some(SymTy::Integer(sc)),
        StaticTy::RawPtr => Some(SymTy::Integer(sc)),
        StaticTy::Bool => Some(SymTy::Bool(sc == 1)),
        StaticTy::Unsupported => None,
    }
}

impl SymTy {
    /// Reads a constant scalar under its static type: integers and raw
    /// pointers become `Integer`, booleans become `Bool`, anything else is
    /// outside the supported subset.
    pub fn from_scalar(sc: u128, ty: StaticTy) -> (r: Option<SymTy>)
        ensures
            r == scalar_symty(sc, ty),
    {
        match ty {
            StaticTy::Int => Some(SymTy::Integer(sc)),
            StaticTy::Uint => Some(SymTy::Integer(sc)),
            StaticTy::RawPtr => Some(SymTy::Integer(sc)),
            StaticTy::Bool => Some(SymTy::Bool(sc == 1)),
            StaticTy::Unsupported => None,
        }
    }

    /// Wraps a boolean as a symbolic value.
    pub fn from_boolean(b: bool) -> (r: SymTy)
        ensures
            r == SymTy::Bool(b),
    {
        SymTy::Bool(b)
    }
}

/// An operator of the solver's logic.
#[derive(Clone, Copy, PartialEq, Eq, Structural, Debug)]
pub enum Rator {
    Eq,
    Add,
    Sub,
    Mul,
    Div,
    Mod,
    NotEqual,
    GreaterEqual,
    GreaterThan,
    LessEqual,
    LessThan,
    Not,
    Neg,
    And,
}

/// The logical operator a source binary operator maps to; `None` when the
/// operator is outside the supported subset.
pub open spec fn rator_of_bin(op: crate::mir::MirBinOp) -> Option<Rator> {
    match op {
        crate::mir::MirBinOp::Add => Some(Rator::Add),
        crate::mir::MirBinOp::Sub => Some(Rator::Sub),
        crate::mir::MirBinOp::Mul => Some(Rator::Mul),
        crate::mir::MirBinOp::Div => Some(Rator::Div),
        crate::mir::MirBinOp::Rem => Some(Rator::Mod),
        crate::mir::MirBinOp::Eq => Some(Rator::Eq),
        crate::mir::MirBinOp::Lt => Some(Rator::LessThan),
        crate::mir::MirBinOp::Le => Some(Rator::LessEqual),
        crate::mir::MirBinOp::Gt => Some(Rator::GreaterThan),
        crate::mir::MirBinOp::Ge => Some(Rator::GreaterEqual),
        crate::mir::MirBinOp::Ne => Some(Rator::NotEqual),
        crate::mir::MirBinOp::Unsupported => None,
    }
}

impl Rator {
    /// Translates a source binary operator.
    pub fn from_mir_bin(op: &crate::mir::MirBinOp) -> (r: Option<Rator>)
        ensures
            r == rator_of_bin(*op),
    {
        match op {
            crate::mir::MirBinOp::Add => Some(Rator::Add),
            crate::mir::MirBinOp::Sub => Some(Rator::Sub),
            crate::mir::MirBinOp::Mul => Some(Rator::Mul),
            crate::mir::MirBinOp::Div => Some(Rator::Div),
            crate::mir::MirBinOp::Rem => Some(Rator::Mod),
            crate::mir::MirBinOp::Eq => Some(Rator::Eq),
            crate::mir::MirBinOp::Lt => Some(Rator::LessThan),
            crate::mir::MirBinOp::Le => Some(Rator::LessEqual),
            crate::mir::MirBinOp::Gt => Some(Rator::GreaterThan),
            crate::mir::MirBinOp::Ge => Some(Rator::GreaterEqual),
            crate::mir::MirBinOp::Ne => Some(Rator::NotEqual),
            crate::mir::MirBinOp::Unsupported => None,
        }
    }

    /// Translates a source unary operator.
    pub fn from_mir_un(op: &crate::mir::MirUnOp) -> (r: Rator)
        ensures
            r == match *op {
                crate::mir::MirUnOp::Not => Rator::Not,
                crate::mir::MirUnOp::Neg => Rator::Neg,
            },
    {
        match op {
            crate::mir::MirUnOp::Not => Rator::Not,
            crate::mir::MirUnOp::Neg => Rator::Neg,
        }
    }
}

/// A boolean or integer assertion term over symbolic names.
pub enum Expr {
    Value(SymTy),
    Ref(Name),
    BinOp(Rator, Box<Expr>, Box<Expr>),
    UnOp(Rator, Box<Expr>),
}

impl Expr {
    /// A structurally equal copy.
    pub fn duplicate(&self) -> (r: Expr)
        ensures
            r == *self,
        decreases self,
    {
        match self {
            Expr::Value(v) => Expr::Value(*v),
            Expr::Ref(nm) => Expr::Ref(*nm),
            Expr::BinOp(op, a, b) => Expr::BinOp(
                *op,
                Box::new(a.duplicate()),
                Box::new(b.duplicate()),
            ),
            Expr::UnOp(op, a) => Expr::UnOp(*op, Box::new(a.duplicate())),
        }
    }
}

/// An analysis fact attached to a declaration after the fact: the name was
/// dereferenced while the given node was being built.
#[derive(Clone, Copy, PartialEq, Eq, Structural, Debug)]
pub enum MirVariableProp {
    IsDerefed(NodeId),
}

/// The function-local slot of the entry function a name traces back to.
#[derive(Clone, Copy, PartialEq, Eq, Structural, Debug)]
pub struct Origin {
    pub def_id: u64,
    pub local: usize,
}

/// The mathematical content of a declaration.
#[verifier::ext_equal]
pub struct DeclView {
    pub ty: SymTy,
    pub props: Seq<MirVariableProp>,
    pub origin: Option<Origin>,
}

impl DeclView {
    /// This declaration with one more fact attached.
    pub open spec fn with_prop(self, prop: MirVariableProp) -> DeclView {
        DeclView { ty: self.ty, props: self.props.push(prop), origin: self.origin }
    }

    /// A fresh declaration of the same logical type, with no facts and no
    /// source slot: derived and intermediate names carry no origin, so only
    /// the entry function's parameters and return slot ever label a witness.
    pub open spec fn cleared(self) -> DeclView {
        DeclView { ty: self.ty, props: Seq::<MirVariableProp>::empty(), origin: None }
    }
}

/// What is known of one symbolic name: its logical type, the analysis facts
/// attached to it, and optionally the source slot it traces back to.
pub struct Declaration {
    ty: SymTy,
    props: Vec<MirVariableProp>,
    origin: Option<Origin>,
}

impl View for Declaration {
    type V = DeclView;

    closed spec fn view(&self) -> DeclView {
        DeclView { ty: self.ty, props: self.props@, origin: self.origin }
    }
}

/// The declaration a static type gives rise to; `None` outside the
/// supported subset. Booleans carry logical type `Bool`; integers and raw
/// pointers both carry `Integer`.
pub open spec fn decl_of(ty: StaticTy, arg_loc: Option<Origin>) -> Option<DeclView> {
    match ty {
        StaticTy::Bool => Some(
            DeclView {
                ty: SymTy::Bool(false),
                props: Seq::<MirVariableProp>::empty(),
                origin: arg_loc,
            },
        ),
        StaticTy::Int => Some(
            DeclView {
                ty: SymTy::Integer(0),
                props: Seq::<MirVariableProp>::empty(),
                origin: arg_loc,
            },
        ),
        StaticTy::Uint => Some(
            DeclView {
                ty: SymTy::Integer(0),
                props: Seq::<MirVariableProp>::empty(),
                origin: arg_loc,
            },
        ),
        StaticTy::RawPtr => Some(
            DeclView {
                ty: SymTy::Integer(0),
                props: Seq::<MirVariableProp>::empty(),
                origin: arg_loc,
            },
        ),
        StaticTy::Unsupported => None,
    }
}

impl Declaration {
    /// Attaches one analysis fact.
    pub fn add_property(&mut self, prop: MirVariableProp)
        ensures
            final(self)@ == old(self)@.with_prop(prop),
    {
        self.props.push(prop);
    }

    /// A fresh declaration of the same logical type, with no facts and no
    /// source slot: derived and intermediate names carry no origin.
    pub fn new_declaration(&self) -> (r: Declaration)
        ensures
            r@ == self@.cleared(),
    {
        Declaration { ty: self.ty, props: Vec::new(), origin: None }
    }

    /// The logical type, as the default value of that type.
    pub fn sym_ty(&self) -> (r: SymTy)
        ensures
            r == self@.ty,
    {
        self.ty
    }

    /// The attached analysis facts, in attachment order.
    pub fn get_property(&self) -> (r: &Vec<MirVariableProp>)
        ensures
            r@ == self@.props,
    {
        &self.props
    }

    /// The source slot this declaration traces back to, if any.
    pub fn get_location(&self) -> (r: &Option<Origin>)
        ensures
            *r == self@.origin,
    {
        &self.origin
    }

    /// A declaration for a slot of the given static type; `None` when the
    /// type is outside the supported subset.
    pub fn decl_from(ty: StaticTy, arg_loc: Option<Origin>) -> (r: Option<Declaration>)
        ensures
            match r {
                Some(d) => decl_of(ty, arg_loc) == Some(d@),
                None => decl_of(ty, arg_loc) is None,
            },
    {
        let sym = match ty {
            StaticTy::Bool => SymTy::Bool(false),
            StaticTy::Int => SymTy::Integer(0),
            StaticTy::Uint => SymTy::Integer(0),
            StaticTy::RawPtr => SymTy::Integer(0),
            StaticTy::Unsupported => {
                return None;
            },
        };
        Some(Declaration { ty: sym, props: Vec::new(), origin: arg_loc })
    }
}

/// One constraint-graph node: the ordered assertions produced while one
/// frame processed one basic block. Order is kept for diagnostics; the
/// meaning is their conjunction.
pub struct Node {
    statements: Vec<Expr>,
}

impl View for Node {
    type V = Seq<Expr>;

    closed spec fn view(&self) -> Seq<Expr> {
        self.statements@
    }
}

impl Node {
    /// An empty node.
    pub fn new() -> (r: Node)
        ensures
            r@ == Seq::<Expr>::empty(),
    {
        Node { statements: Vec::new() }
    }

    /// Appends one assertion.
    pub fn add_expr(&mut self, ex: Expr)
        ensures
            final(self)@ == old(self)@.push(ex),
    {
        self.statements.push(ex);
    }

    /// Whether no assertion was emitted into this node.
    pub fn is_empty(&self) -> (r: bool)
        ensures
            r == (self@.len() == 0),
    {
        self.statements.is_empty()
    }

    /// Borrows the assertions of this node, in emission order.
    pub fn exprs(&self) -> (r: &Vec<Expr>)
        ensures
            r@ == self@,
    {
        &self.statements
    }
}

/// A directed, optionally guarded transition. A guard of `None` means the
/// transition is unconditional.
pub struct Edge(pub Option<Expr>, pub NodeId);

impl Edge {
    /// The guard of this edge, `None` when unconditional.
    pub open spec fn guard(self) -> Option<Expr> {
        self.0
    }

    /// The node this edge points at.
    pub open spec fn target(self) -> NodeId {
        self.1
    }

    /// A new edge with the given guard and target.
    pub fn new(precondition: Option<Expr>, nid: NodeId) -> (r: Edge)
        ensures
            r.guard() == precondition,
            r.target() == nid,
    {
        Edge(precondition, nid)
    }

    /// Borrows the guard.
    pub fn guard_ref(&self) -> (r: &Option<Expr>)
        ensures
            *r == self.guard(),
    {
        &self.0
    }

    /// A copy of the guard.
    pub fn get_precondition(&self) -> (r: Option<Expr>)
        ensures
            r == self.guard(),
    {
        match &self.0 {
            Some(e) => Some(e.duplicate()),
            None => None,
        }
    }

    /// The target node.
    pub fn get_target(&self) -> (r: NodeId)
        ensures
            r == self.target(),
    {
        self.1
    }
}

/// The symbolic intermediate representation of one analysis run: the
/// declaration table and the constraint graph, with each edge stored both
/// forward and backward.
pub struct Sir {
    declarations: NameVec<Declaration>,
    nodes: NodeVec<Node>,
    forward_edges: NodeVec<Vec<Edge>>,
    backward_edges: NodeVec<Vec<Edge>>,
}

impl Sir {
    /// The declaration table, in allocation order.
    pub closed spec fn decls(self) -> Seq<DeclView> {
        Seq::new(self.declarations@.len(), |i: int| self.declarations@[i]@)
    }

    /// The assertions of each node, in allocation order.
    pub closed spec fn node_stmts(self) -> Seq<Seq<Expr>> {
        Seq::new(self.nodes@.len(), |i: int| self.nodes@[i]@)
    }

    /// Forward edge lists, one per node.
    pub closed spec fn fwd(self) -> Seq<Seq<Edge>> {
        Seq::new(self.forward_edges@.len(), |i: int| self.forward_edges@[i]@)
    }

    /// Backward edge lists, one per node.
    pub closed spec fn bwd(self) -> Seq<Seq<Edge>> {
        Seq::new(self.backward_edges@.len(), |i: int| self.backward_edges@[i]@)
    }

    /// Structural soundness: the per-node tables agree in length, every
    /// forward edge points strictly forward at an existing node, and every
    /// backward edge points strictly backward. Node allocation order
    /// therefore orients the graph, which keeps the whole-graph formula and
    /// path reconstruction well founded.
    pub open spec fn wf(self) -> bool {
        &&& self.node_stmts().len() == self.fwd().len()
        &&& self.node_stmts().len() == self.bwd().len()
        &&& forall|n: int, j: int|
            0 <= n < self.fwd().len() && 0 <= j < self.fwd()[n].len() ==> n < (
            #[trigger] self.fwd()[n][j]).target().0 < self.node_stmts().len()
        &&& forall|n: int, j: int|
            0 <= n < self.bwd().len() && 0 <= j < self.bwd()[n].len() ==> (
            #[trigger] self.bwd()[n][j]).target().0 < n
    }

    /// An empty representation: no declarations, no nodes.
    pub fn new() -> (r: Sir)
        ensures
            r.decls() == Seq::<DeclView>::empty(),
            r.node_stmts() == Seq::<Seq<Expr>>::empty(),
            r.fwd() == Seq::<Seq<Edge>>::empty(),
            r.bwd() == Seq::<Seq<Edge>>::empty(),
            r.wf(),
    {
        let r = Sir {
            declarations: NameVec::new(),
            nodes: NodeVec::new(),
            forward_edges: NodeVec::new(),
            backward_edges: NodeVec::new(),
        };
        proof {
            assert(r.decls() =~= Seq::<DeclView>::empty());
            assert(r.node_stmts() =~= Seq::<Seq<Expr>>::empty());
            assert(r.fwd() =~= Seq::<Seq<Edge>>::empty());
            assert(r.bwd() =~= Seq::<Seq<Edge>>::empty());
        }
        r
    }

    /// Appends a declaration; the returned name is bound to it forever.
    pub fn add_declaration(&mut self, decl: Declaration) -> (nm: Name)
        ensures
            final(self).decls() == old(self).decls().push(decl@),
            nm.0 == old(self).decls().len(),
            final(self).node_stmts() == old(self).node_stmts(),
            final(self).fwd() == old(self).fwd(),
            final(self).bwd() == old(self).bwd(),
    {
        let nm = self.declarations.push(decl);
        proof {
            assert(final(self).decls() =~= old(self).decls().push(decl@));
            assert(final(self).node_stmts() =~= old(self).node_stmts());
            assert(final(self).fwd() =~= old(self).fwd());
            assert(final(self).bwd() =~= old(self).bwd());
        }
        nm
    }

    /// Borrows the declaration a name is bound to.
    pub fn get_declaration(&self, nm: Name) -> (r: &Declaration)
        requires
            nm.0 < self.decls().len(),
        ensures
            r@ == self.decls()[nm.0 as int],
    {
        self.declarations.get(nm)
    }

    /// Attaches an analysis fact to the declaration a name is bound to.
    pub fn add_property_to_declaration(&mut self, nm: Name, prop: MirVariableProp)
        requires
            nm.0 < old(self).decls().len(),
        ensures
            final(self).decls() == old(self).decls().update(
                nm.0 as int,
                old(self).decls()[nm.0 as int].with_prop(prop),
            ),
            final(self).node_stmts() == old(self).node_stmts(),
            final(self).fwd() == old(self).fwd(),
            final(self).bwd() == old(self).bwd(),
    {
        let d = self.declarations.get_mut(nm);
        d.add_property(prop);
        proof {
            assert(final(self).decls() =~= old(self).decls().update(
                nm.0 as int,
                old(self).decls()[nm.0 as int].with_prop(prop),
            ));
            assert(final(self).node_stmts() =~= old(self).node_stmts());
            assert(final(self).fwd() =~= old(self).fwd());
            assert(final(self).bwd() =~= old(self).bwd());
        }
    }

    /// The number of declarations issued so far.
    pub fn num_declarations(&self) -> (n: usize)
        ensures
            n == self.decls().len(),
    {
        self.declarations.len()
    }

    /// Yields every declared name in allocation order.
    pub fn get_all_names(&self) -> (r: NameIter)
        ensures
            r.curr_index == 0,
            r.num_items == self.decls().len(),
    {
        NameIter::new(self.declarations.len())
    }

    /// The number of nodes allocated so far.
    pub fn num_nodes(&self) -> (n: usize)
        ensures
            n == self.node_stmts().len(),
    {
        self.nodes.len()
    }

    /// Borrows a node.
    pub fn get_node(&self, nid: NodeId) -> (r: &Node)
        requires
            nid.0 < self.node_stmts().len(),
        ensures
            r@ == self.node_stmts()[nid.0 as int],
    {
        self.nodes.get(nid)
    }

    /// Mutably borrows a node.
    pub fn get_node_mut(&mut self, nid: NodeId) -> (r: &mut Node)
        requires
            nid.0 < old(self).node_stmts().len(),
        ensures
            r@ == old(self).node_stmts()[nid.0 as int],
            final(self).node_stmts() == old(self).node_stmts().update(
                nid.0 as int,
                final(r)@,
            ),
            final(self).decls() == old(self).decls(),
            final(self).fwd() == old(self).fwd(),
            final(self).bwd() == old(self).bwd(),
    {
        self.nodes.get_mut(nid)
    }

    /// Borrows the forward edges out of a node.
    pub fn get_out_edges(&self, nid: NodeId) -> (r: &Vec<Edge>)
        requires
            nid.0 < self.fwd().len(),
        ensures
            r@ == self.fwd()[nid.0 as int],
    {
        self.forward_edges.get(nid)
    }

    /// Borrows the backward edges into a node.
    pub fn get_in_edges(&self, nid: NodeId) -> (r: &Vec<Edge>)
        requires
            nid.0 < self.bwd().len(),
        ensures
            r@ == self.bwd()[nid.0 as int],
    {
        self.backward_edges.get(nid)
    }

    /// Allocates an empty node with empty edge lists. Identifiers are a
    /// monotonic counter and are never reused.
    pub fn add_node(&mut self) -> (nid: NodeId)
        ensures
            nid.0 == old(self).node_stmts().len(),
            final(self).node_stmts() == old(self).node_stmts().push(Seq::<Expr>::empty()),
            final(self).fwd() == old(self).fwd().push(Seq::<Edge>::empty()),
            final(self).bwd() == old(self).bwd().push(Seq::<Edge>::empty()),
            final(self).decls() == old(self).decls(),
            old(self).wf() ==> final(self).wf(),
    {
        let nid = self.nodes.push(Node::new());
        let _oid = self.forward_edges.push(Vec::new());
        let _bid = self.backward_edges.push(Vec::new());
        proof {
            assert(final(self).node_stmts() =~= old(self).node_stmts().push(
                Seq::<Expr>::empty(),
            ));
            assert(final(self).fwd() =~= old(self).fwd().push(Seq::<Edge>::empty()));
            assert(final(self).bwd() =~= old(self).bwd().push(Seq::<Edge>::empty()));
            assert(final(self).decls() =~= old(self).decls());
        }
        nid
    }

    /// Appends an assertion to an open node.
    pub fn add_expr_to_node(&mut self, nid: NodeId, expr: Expr)
        requires
            nid.0 < old(self).node_stmts().len(),
        ensures
            final(self).node_stmts() == old(self).node_stmts().update(
                nid.0 as int,
                old(self).node_stmts()[nid.0 as int].push(expr),
            ),
            final(self).decls() == old(self).decls(),
            final(self).fwd() == old(self).fwd(),
            final(self).bwd() == old(self).bwd(),
    {
        let node = self.nodes.get_mut(nid);
        node.add_expr(expr);
        proof {
            assert(final(self).node_stmts() =~= old(self).node_stmts().update(
                nid.0 as int,
                old(self).node_stmts()[nid.0 as int].push(expr),
            ));
            assert(final(self).decls() =~= old(self).decls());
            assert(final(self).fwd() =~= old(self).fwd());
            assert(final(self).bwd() =~= old(self).bwd());
        }
    }

    /// Records a guarded transition in the source node's forward list and
    /// its mirror, with the same guard, in the target node's backward list.
    /// Edges only ever point at nodes allocated later than their source.
    pub fn add_edge(&mut self, nid: NodeId, edge: Edge)
        requires
            old(self).wf(),
            nid.0 < old(self).node_stmts().len(),
            edge.target().0 < old(self).node_stmts().len(),
            nid.0 < edge.target().0,
        ensures
            final(self).wf(),
            final(self).fwd() == old(self).fwd().update(
                nid.0 as int,
                old(self).fwd()[nid.0 as int].push(edge),
            ),
            final(self).bwd() == old(self).bwd().update(
                edge.target().0 as int,
                old(self).bwd()[edge.target().0 as int].push(
                    Edge(edge.guard(), NodeId(nid.0)),
                ),
            ),
            final(self).node_stmts() == old(self).node_stmts(),
            final(self).decls() == old(self).decls(),
    {
        let target = edge.get_target();
        let back_guard = edge.get_precondition();
        let back = self.backward_edges.get_mut(target);
        back.push(Edge::new(back_guard, NodeId(nid.0)));
        let fwdl = self.forward_edges.get_mut(nid);
        fwdl.push(edge);
        proof {
            assert(final(self).fwd() =~= old(self).fwd().update(
                nid.0 as int,
                old(self).fwd()[nid.0 as int].push(edge),
            ));
            assert(final(self).bwd() =~= old(self).bwd().update(
                edge.target().0 as int,
                old(self).bwd()[edge.target().0 as int].push(
                    Edge(edge.guard(), NodeId(nid.0)),
                ),
            ));
            assert(final(self).node_stmts() =~= old(self).node_stmts());
            assert(final(self).decls() =~= old(self).decls());
        }
    }
}

/// The engine's exploration discipline keeps the graph a rooted tree:
/// each node has at most one incoming edge, the one from its generating
/// step. Divergence shows up as distinct subtrees; convergent control
/// flow is not re-unified. Path reconstruction relies on this.
pub open spec fn tree_disciplined(s: Sir) -> bool {
    forall|n: int| 0 <= n < s.bwd().len() ==> (#[trigger] s.bwd()[n]).len() <= 1
}

/// Every backward edge points strictly backward in allocation order.
pub open spec fn bwd_edges_wf(bwd: Seq<Seq<Edge>>) -> bool {
    forall|n: int, j: int|
        0 <= n < bwd.len() && 0 <= j < bwd[n].len() ==> (#[trigger] bwd[n][j]).target().0 < n
}

/// The guards along the chain of incoming edges from `nid` up to the root,
/// nearest edge first. When a node has more than one incoming edge the
/// last-recorded one is followed; under the engine's tree discipline there
/// is at most one.
pub open spec fn chain_guards(bwd: Seq<Seq<Edge>>, nid: int) -> Seq<Option<Expr>>
    decreases nid,
        when 0 <= nid < bwd.len() && bwd_edges_wf(bwd)
{
    if bwd[nid].len() == 0 {
        Seq::<Option<Expr>>::empty()
    } else {
        let e = bwd[nid].last();
        seq![e.guard()] + chain_guards(bwd, e.target().0 as int)
    }
}

/// Drops the absent guards of unconditional edges, keeping order.
pub open spec fn somes(s: Seq<Option<Expr>>) -> Seq<Expr>
    decreases s.len(),
{
    if s.len() == 0 {
        Seq::<Expr>::empty()
    } else {
        match s[0] {
            Some(e) => seq![e] + somes(s.drop_first()),
            None => somes(s.drop_first()),
        }
    }
}

/// The left fold of a guard list under conjunction, seeded with `true`.
pub open spec fn and_fold(s: Seq<Expr>) -> Expr
    decreases s.len(),
{
    if s.len() == 0 {
        Expr::Value(SymTy::Bool(true))
    } else {
        Expr::BinOp(Rator::And, Box::new(and_fold(s.drop_last())), Box::new(s.last()))
    }
}

/// The path constraint of a node: the conjunction of the guards on the
/// chain of incoming edges from the root down to it.
pub open spec fn path_constraint_spec(s: Sir, nid: int) -> Expr {
    and_fold(somes(chain_guards(s.bwd(), nid)))
}

impl Sir {
    /// Reconstructs the conjunction of guards along the chain of incoming
    /// edges from the graph root down to `nid`.
    pub fn get_path_constraint(&self, nid: NodeId) -> (r: Expr)
        requires
            self.wf(),
            nid.0 < self.node_stmts().len(),
        ensures
            r == path_constraint_spec(*self, nid.0 as int),
    {
        let mut guards: Vec<Expr> = Vec::new();
        let mut cid = nid;
        proof {
            assert(guards@ + somes(chain_guards(self.bwd(), cid.0 as int)) =~= somes(
                chain_guards(self.bwd(), nid.0 as int),
            ));
        }
        while self.get_in_edges(cid).len() != 0
            invariant
                self.wf(),
                cid.0 < self.bwd().len(),
                somes(chain_guards(self.bwd(), nid.0 as int)) == guards@ + somes(
                    chain_guards(self.bwd(), cid.0 as int),
                ),
            decreases cid.0,
        {
            let edges = self.get_in_edges(cid);
            let e = &edges[edges.len() - 1];
            let g = e.get_precondition();
            let ghost chain_here = chain_guards(self.bwd(), cid.0 as int);
            let ghost chain_next = chain_guards(self.bwd(), e.target().0 as int);
            proof {
                assert(self.bwd()[cid.0 as int].last() == *e);
                assert(chain_here == seq![e.guard()] + chain_next);
                assert((seq![e.guard()] + chain_next).drop_first() =~= chain_next);
                match e.guard() {
                    Some(x) => {
                        assert(somes(chain_here) == seq![x] + somes(chain_next));
                        assert((guards@.push(x)) + somes(chain_next) =~= guards@ + (seq![x]
                            + somes(chain_next)));
                    },
                    None => {
                        assert(somes(chain_here) == somes(chain_next));
                    },
                }
            }
            match g {
                Some(x) => {
                    guards.push(x);
                },
                None => {},
            }
            cid = e.get_target();
        }
        proof {
            assert(somes(chain_guards(self.bwd(), cid.0 as int)) =~= Seq::<Expr>::empty());
            assert(guards@ + Seq::<Expr>::empty() =~= guards@);
        }
        let mut acc = Expr::Value(SymTy::from_boolean(true));
        let mut i: usize = 0;
        proof {
            assert(guards@.take(0) =~= Seq::<Expr>::empty());
        }
        while i < guards.len()
            invariant
                i <= guards@.len(),
                acc == and_fold(guards@.take(i as int)),
            decreases guards@.len() - i,
        {
            proof {
                assert(guards@.take(i + 1).drop_last() =~= guards@.take(i as int));
                assert(guards@.take(i + 1).last() == guards@[i as int]);
            }
            acc = Expr::BinOp(Rator::And, Box::new(acc), Box::new(guards[i].duplicate()));
            i = i + 1;
        }
        proof {
            assert(guards@.take(guards@.len() as int) =~= guards@);
        }
        acc
    }
}

} // verus!
