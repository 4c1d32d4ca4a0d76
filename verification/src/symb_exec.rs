//! The path exploration engine: a worklist-driven, depth-first walk of the
//! input control-flow graph. Each in-flight path is a frame with its own
//! memory snapshot and per-block visit counters; branching forks frames,
//! and a per-path unroll bound prunes re-visits, which guarantees a finite
//! constraint graph for any input, cycles included.

use vstd::arithmetic::power::pow;
use vstd::prelude::*;

use crate::eval::{eval_expr_spec, holds};
use crate::memory::{operand_spec, operand_supported, resolve_spec, write_fresh_spec, Memory};
use crate::mir::{
    lemma_fanout_bound, succ_count, terminator_wf, ExecError, FnBody, Place, Rvalue, Statement,
    StaticTy, Terminator,
};
use crate::sir::{and_fold, decl_of, rator_of_bin, scalar_symty, tree_disciplined, Edge, Expr,
    Origin, Rator, Sir, SymTy};
use crate::structures::{Name, NodeId};

verus! {

/// How many times one path may revisit the same block before it is pruned.
/// Pruning trades completeness for guaranteed termination; it never
/// fabricates a path.
pub const MAX_UNROLL: usize = 5;

/// Per-block visit counters are valid for a body when there is one per
/// block and none exceeds the unroll bound.
pub open spec fn counts_wf(c: Seq<usize>, nblocks: nat) -> bool {
    &&& c.len() == nblocks
    &&& forall|i: int| 0 <= i < c.len() ==> (#[trigger] c[i]) <= MAX_UNROLL
}

/// How many scheduling steps a path with these counters can still take:
/// the room left below the unroll bound, summed over all blocks.
pub open spec fn potential(c: Seq<usize>) -> nat
    decreases c.len(),
{
    if c.len() == 0 {
        0
    } else {
        potential(c.drop_last()) + (if c.last() <= MAX_UNROLL {
            (MAX_UNROLL - c.last()) as nat
        } else {
            0
        })
    }
}

/// All-zero counters have the full potential.
pub proof fn lemma_potential_zero(c: Seq<usize>)
    requires
        forall|i: int| 0 <= i < c.len() ==> (#[trigger] c[i]) == 0,
    ensures
        potential(c) == MAX_UNROLL * c.len(),
    decreases c.len(),
{
    if c.len() > 0 {
        lemma_potential_zero(c.drop_last());
        assert(MAX_UNROLL * c.len() == MAX_UNROLL * (c.len() - 1) + MAX_UNROLL) by {
            vstd::arithmetic::mul::lemma_mul_is_distributive_add(
                MAX_UNROLL as int,
                c.len() as int - 1,
                1,
            );
        }
    }
}

/// Bumping one counter that is still below the bound costs exactly one
/// unit of potential.
pub proof fn lemma_potential_update(c: Seq<usize>, t: int)
    requires
        0 <= t < c.len(),
        c[t] < MAX_UNROLL,
    ensures
        potential(c.update(t, (c[t] + 1) as usize)) == potential(c) - 1,
    decreases c.len(),
{
    let u = c.update(t, (c[t] + 1) as usize);
    if t == c.len() - 1 {
        assert(u.drop_last() =~= c.drop_last());
    } else {
        assert(u.drop_last() =~= c.drop_last().update(t, (c[t] + 1) as usize));
        lemma_potential_update(c.drop_last(), t);
        assert(u.last() == c.last());
    }
}

/// Copies visit counters for a forked frame.
fn copy_counts(v: &Vec<usize>) -> (r: Vec<usize>)
    ensures
        r@ == v@,
{
    let mut copied: Vec<usize> = Vec::new();
    let mut i: usize = 0;
    while i < v.len()
        invariant
            i <= v@.len(),
            copied@ == v@.take(i as int),
        decreases v@.len() - i,
    {
        copied.push(v[i]);
        proof {
            assert(copied@ =~= v@.take(i + 1));
        }
        i = i + 1;
    }
    proof {
        assert(v@.take(v@.len() as int) =~= v@);
    }
    copied
}

/// One in-flight symbolic execution path: where it is, the memory snapshot
/// it carries, the guard it was spawned under, the node it will be linked
/// from, and its own visit counters. Frames are plain values; forked
/// frames share nothing mutable.
pub struct Frame {
    pub generator: Option<NodeId>,
    pub precondition: Option<Expr>,
    pub current_memory: Memory,
    pub seen_counts: Vec<usize>,
    pub current_block: usize,
}

impl Frame {
    /// Frame soundness against the body being explored.
    pub open spec fn wf(self, body: FnBody) -> bool {
        &&& self.current_memory.inv()
        &&& counts_wf(self.seen_counts@, body.blocks@.len())
        &&& self.current_block < body.blocks@.len()
    }

    /// The scheduling room this frame has left.
    pub open spec fn potential(self) -> nat {
        potential(self.seen_counts@)
    }

    /// Whether a path with these counters may still be scheduled at the
    /// target block.
    pub fn should_examine(&self, target: usize) -> (r: bool)
        requires
            target < self.seen_counts@.len(),
        ensures
            r == (self.seen_counts@[target as int] < MAX_UNROLL),
    {
        self.seen_counts[target] < MAX_UNROLL
    }

    /// The child frame continuing at `target` under `precondition`, with
    /// the given memory snapshot and this path's history plus one visit of
    /// the target.
    pub fn from_new_loc(
        &self,
        new_generator: NodeId,
        target: usize,
        precondition: Option<Expr>,
        memory: Memory,
    ) -> (r: Frame)
        requires
            target < self.seen_counts@.len(),
            self.seen_counts@[target as int] < MAX_UNROLL,
        ensures
            r.generator == Some(new_generator),
            r.precondition == precondition,
            r.current_memory == memory,
            r.current_block == target,
            r.seen_counts@ == self.seen_counts@.update(
                target as int,
                (self.seen_counts@[target as int] + 1) as usize,
            ),
            r.potential() == potential(self.seen_counts@) - 1,
    {
        let mut counts = copy_counts(&self.seen_counts);
        let bumped = counts[target] + 1;
        let slot = &mut counts[target];
        *slot = bumped;
        proof {
            assert(counts@ =~= self.seen_counts@.update(
                target as int,
                (self.seen_counts@[target as int] + 1) as usize,
            ));
            lemma_potential_update(self.seen_counts@, target as int);
        }
        Frame {
            generator: Some(new_generator),
            precondition,
            current_memory: memory,
            seen_counts: counts,
            current_block: target,
        }
    }
}

/// The symbolic value a constant scalar denotes, defaulting to the raw
/// scalar for types outside the supported subset (the engine never builds
/// a guard from such a type; it aborts first).
pub open spec fn scalar_val(sc: u128, ty: StaticTy) -> SymTy {
    match scalar_symty(sc, ty) {
        Some(v) => v,
        None => SymTy::Integer(sc),
    }
}

/// The guard of one explicit switch branch: the discriminant equals the
/// branch's value.
pub open spec fn eq_guard(v: SymTy, discr: Expr) -> Expr {
    Expr::BinOp(Rator::Eq, Box::new(Expr::Value(v)), Box::new(discr))
}

/// The negation of one explicit branch guard.
pub open spec fn not_guard(v: SymTy, discr: Expr) -> Expr {
    Expr::UnOp(Rator::Not, Box::new(eq_guard(v, discr)))
}

/// The guard of the `otherwise` branch: the conjunction of the negations
/// of every explicit branch guard.
pub open spec fn otherwise_guard(values: Seq<u128>, ty: StaticTy, discr: Expr) -> Expr {
    and_fold(Seq::new(values.len(), |i: int| not_guard(scalar_val(values[i], ty), discr)))
}

/// Builds the switch guards: one equality per explicit value, and the
/// conjunctive negation of all of them for the `otherwise` branch.
/// `None` when the switch type is outside the supported subset.
pub fn build_switch_guards(values: &Vec<u128>, ty: StaticTy, discr: &Expr) -> (r: Option<
    (Vec<Expr>, Expr),
>)
    ensures
        match r {
            Some(gs) => {
                &&& values@.len() > 0 ==> scalar_symty(0, ty) is Some
                &&& gs.0@.len() == values@.len()
                &&& forall|i: int|
                    0 <= i < values@.len() ==> (#[trigger] gs.0@[i]) == eq_guard(
                        scalar_val(values@[i], ty),
                        *discr,
                    )
                &&& gs.1 == otherwise_guard(values@, ty, *discr)
            },
            None => scalar_symty(0, ty) is None,
        },
{
    let ghost negs = Seq::new(
        values@.len(),
        |i: int| not_guard(scalar_val(values@[i], ty), *discr),
    );
    let mut guards: Vec<Expr> = Vec::new();
    let mut other = Expr::Value(SymTy::from_boolean(true));
    let mut i: usize = 0;
    proof {
        assert(negs.take(0) =~= Seq::<Expr>::empty());
    }
    while i < values.len()
        invariant
            i <= values@.len(),
            i > 0 ==> scalar_symty(0, ty) is Some,
            negs == Seq::new(
                values@.len(),
                |j: int| not_guard(scalar_val(values@[j], ty), *discr),
            ),
            guards@.len() == i,
            forall|j: int|
                0 <= j < i ==> (#[trigger] guards@[j]) == eq_guard(
                    scalar_val(values@[j], ty),
                    *discr,
                ),
            other == and_fold(negs.take(i as int)),
        decreases values@.len() - i,
    {
        let v = match SymTy::from_scalar(values[i], ty) {
            Some(v) => v,
            None => {
                return None;
            },
        };
        let g = Expr::BinOp(Rator::Eq, Box::new(Expr::Value(v)), Box::new(discr.duplicate()));
        let ng = Expr::UnOp(Rator::Not, Box::new(g.duplicate()));
        proof {
            assert(g == eq_guard(scalar_val(values@[i as int], ty), *discr));
            assert(ng == negs[i as int]);
            assert(negs.take(i + 1).drop_last() =~= negs.take(i as int));
            assert(negs.take(i + 1).last() == negs[i as int]);
        }
        other = Expr::BinOp(Rator::And, Box::new(other), Box::new(ng));
        guards.push(g);
        i = i + 1;
    }
    proof {
        assert(negs.take(values@.len() as int) =~= negs);
    }
    Some((guards, other))
}

/// Every expression in the list evaluates to a boolean under `env`.
pub open spec fn all_bool(env: Seq<SymTy>, s: Seq<Expr>) -> bool {
    forall|i: int|
        0 <= i < s.len() ==> ((#[trigger] eval_expr_spec(env, s[i])) matches Some(v) && v is Bool)
}

/// A conjunction fold evaluates to the conjunction of its parts.
pub proof fn lemma_and_fold_eval(env: Seq<SymTy>, s: Seq<Expr>)
    requires
        all_bool(env, s),
    ensures
        eval_expr_spec(env, and_fold(s)) == Some(
            SymTy::Bool(forall|i: int| 0 <= i < s.len() ==> holds(env, #[trigger] s[i])),
        ),
    decreases s.len(),
{
    if s.len() == 0 {
    } else {
        assert(all_bool(env, s.drop_last())) by {
            assert(forall|i: int|
                0 <= i < s.len() - 1 ==> s.drop_last()[i] == (#[trigger] s[i]));
        }
        lemma_and_fold_eval(env, s.drop_last());
        let b_rest = forall|i: int|
            0 <= i < s.len() - 1 ==> holds(env, #[trigger] s.drop_last()[i]);
        let b_last = holds(env, s.last());
        assert(eval_expr_spec(env, s.last()) matches Some(v) && v is Bool);
        if b_rest && b_last {
            assert(forall|i: int| 0 <= i < s.len() ==> holds(env, #[trigger] s[i])) by {
                assert(forall|i: int|
                    0 <= i < s.len() - 1 ==> s.drop_last()[i] == (#[trigger] s[i]));
            }
        } else {
            if !b_rest {
                let i = choose|i: int|
                    0 <= i < s.len() - 1 && !holds(env, #[trigger] s.drop_last()[i]);
                assert(s[i] == s.drop_last()[i]);
                assert(!holds(env, s[i]));
            }
            assert(!(forall|i: int| 0 <= i < s.len() ==> holds(env, #[trigger] s[i])));
        }
    }
}

/// The logical operator of a source unary operator.
pub open spec fn un_rator(op: crate::mir::MirUnOp) -> Rator {
    match op {
        crate::mir::MirUnOp::Not => Rator::Not,
        crate::mir::MirUnOp::Neg => Rator::Neg,
    }
}

/// What evaluating a right-hand side does, at the specification level:
/// operands are evaluated left to right against the evolving memory and
/// declaration table, and the produced term mirrors the right-hand side's
/// structure.
pub open spec fn rvalue_spec(
    m: Map<Place, Name>,
    d: Seq<crate::sir::DeclView>,
    rv: Rvalue,
    nid: NodeId,
) -> Option<(Map<Place, Name>, Seq<crate::sir::DeclView>, Expr)> {
    match rv {
        Rvalue::Use(rand) => operand_spec(m, d, rand, nid),
        Rvalue::BinaryOp(op, r1, r2) => match rator_of_bin(op) {
            None => None,
            Some(rt) => match operand_spec(m, d, r1, nid) {
                None => None,
                Some((m1, d1, e1)) => match operand_spec(m1, d1, r2, nid) {
                    None => None,
                    Some((m2, d2, e2)) => Some(
                        (m2, d2, Expr::BinOp(rt, Box::new(e1), Box::new(e2))),
                    ),
                },
            },
        },
        Rvalue::UnaryOp(op, rand) => match operand_spec(m, d, rand, nid) {
            None => None,
            Some((m1, d1, e1)) => Some((m1, d1, Expr::UnOp(un_rator(op), Box::new(e1)))),
        },
        Rvalue::Cast(rand) => operand_spec(m, d, rand, nid),
        Rvalue::Ref(plc) => match resolve_spec(m, d, plc, nid) {
            None => None,
            Some((m1, d1, nm)) => Some((m1, d1, Expr::Ref(nm))),
        },
        Rvalue::Unsupported => None,
    }
}

/// A right-hand side inside the supported subset; its place operands can
/// still fail dynamically on unbound locations.
pub open spec fn rvalue_supported(rv: Rvalue) -> bool {
    match rv {
        Rvalue::Use(rand) => operand_supported(rand),
        Rvalue::BinaryOp(op, r1, r2) => rator_of_bin(op) is Some && operand_supported(r1)
            && operand_supported(r2),
        Rvalue::UnaryOp(op, rand) => operand_supported(rand),
        Rvalue::Cast(rand) => operand_supported(rand),
        Rvalue::Ref(plc) => true,
        Rvalue::Unsupported => false,
    }
}

/// One straight-line statement inside the supported subset.
pub open spec fn stmt_supported(stmt: Statement, body: FnBody) -> bool {
    match stmt {
        Statement::Assign(to, rv) => rvalue_supported(rv),
        Statement::StorageLive(l) => l < body.local_types@.len() && decl_of(
            body.local_types@[l as int],
            None,
        ) is Some,
        Statement::StorageDead(l) => true,
        Statement::Nop => true,
        Statement::Unsupported => false,
    }
}

/// Every statement of a run is inside the supported subset.
pub open spec fn stmts_supported(stmts: Seq<Statement>, body: FnBody) -> bool {
    forall|i: int| 0 <= i < stmts.len() ==> stmt_supported(#[trigger] stmts[i], body)
}

/// A terminator inside the supported subset; its place operands can still
/// fail dynamically on unbound locations.
pub open spec fn term_supported(t: Terminator, body: FnBody) -> bool {
    match t {
        Terminator::Goto { .. } => true,
        Terminator::SwitchInt { discr, switch_ty, values, targets } => operand_supported(discr)
            && scalar_symty(0, switch_ty) is Some,
        Terminator::Assert { cond, .. } => operand_supported(cond),
        Terminator::Call { destination, .. } => destination.derefs == 0 && destination.local
            < body.local_types@.len() && decl_of(
            body.local_types@[destination.local as int],
            None,
        ) is Some,
        Terminator::Return => true,
        Terminator::Unsupported => false,
    }
}

/// Every construct of the body is inside the supported subset: the return
/// slot and arguments have supported types, and every block's statements
/// and terminator do. When this holds, analysis can only abort on a read
/// of a location holding no value.
pub open spec fn body_supported(body: FnBody) -> bool {
    &&& forall|i: int|
        0 <= i <= body.arg_count ==> (#[trigger] body.local_types@[i])
            != StaticTy::Unsupported
    &&& forall|b: int|
        0 <= b < body.blocks@.len() ==> stmts_supported(
            (#[trigger] body.blocks@[b]).statements@,
            body,
        ) && term_supported(body.blocks@[b].terminator, body)
}

/// What one statement does to the memory, the declaration table and the
/// node under construction, at the specification level: an assignment
/// evaluates its right-hand side, rebinds the target to a fresh name and
/// appends the equality `fresh = rhs`; a newly live local is declared
/// (with no origin) and bound; a dead local loses its binding.
pub open spec fn stmt_step(
    m: Map<Place, Name>,
    d: Seq<crate::sir::DeclView>,
    node: Seq<Expr>,
    stmt: Statement,
    nid: NodeId,
    body: FnBody,
) -> Option<(Map<Place, Name>, Seq<crate::sir::DeclView>, Seq<Expr>)> {
    match stmt {
        Statement::Assign(to, rv) => match rvalue_spec(m, d, rv, nid) {
            None => None,
            Some((m1, d1, e)) => match write_fresh_spec(m1, d1, to, nid) {
                None => None,
                Some((m2, d2, nm)) => Some(
                    (
                        m2,
                        d2,
                        node.push(
                            Expr::BinOp(Rator::Eq, Box::new(Expr::Ref(nm)), Box::new(e)),
                        ),
                    ),
                ),
            },
        },
        Statement::StorageLive(l) => if l < body.local_types@.len() {
            match decl_of(body.local_types@[l as int], None) {
                Some(dv) => Some(
                    (
                        m.insert(Place { local: l, derefs: 0 }, Name(d.len() as usize)),
                        d.push(dv),
                        node,
                    ),
                ),
                None => None,
            }
        } else {
            None
        },
        Statement::StorageDead(l) => Some((m.remove(Place { local: l, derefs: 0 }), d, node)),
        Statement::Nop => Some((m, d, node)),
        Statement::Unsupported => None,
    }
}

/// Statements run in program order; the first failure aborts the block.
pub open spec fn stmts_steps(
    m: Map<Place, Name>,
    d: Seq<crate::sir::DeclView>,
    node: Seq<Expr>,
    stmts: Seq<Statement>,
    nid: NodeId,
    body: FnBody,
) -> Option<(Map<Place, Name>, Seq<crate::sir::DeclView>, Seq<Expr>)>
    decreases stmts.len(),
{
    if stmts.len() == 0 {
        Some((m, d, node))
    } else {
        match stmt_step(m, d, node, stmts[0], nid, body) {
            None => None,
            Some((m1, d1, n1)) => stmts_steps(m1, d1, n1, stmts.drop_first(), nid, body),
        }
    }
}

/// Evaluates a right-hand side against the memory snapshot, producing the
/// assertion term it denotes.
fn evaluate_rvalue(mem: &mut Memory, rv: &Rvalue, nid: NodeId, sir: &mut Sir) -> (r: Result<
    Expr,
    ExecError,
>)
    requires
        old(mem).inv(),
    ensures
        final(mem).inv(),
        final(sir).node_stmts() == old(sir).node_stmts(),
        final(sir).fwd() == old(sir).fwd(),
        final(sir).bwd() == old(sir).bwd(),
        match r {
            Ok(e) => rvalue_spec(old(mem)@, old(sir).decls(), *rv, nid) == Some(
                (final(mem)@, final(sir).decls(), e),
            ),
            Err(e) => {
                &&& rvalue_spec(old(mem)@, old(sir).decls(), *rv, nid) is None
                &&& e == ExecError::UnboundPlace || !rvalue_supported(*rv)
            },
        },
{
    match rv {
        Rvalue::Use(rand) => mem.process_operand(rand, nid, sir),
        Rvalue::BinaryOp(binop, rand1, rand2) => {
            let rt = match Rator::from_mir_bin(binop) {
                Some(rt) => rt,
                None => {
                    return Err(ExecError::UnsupportedConstruct);
                },
            };
            let e1 = match mem.process_operand(rand1, nid, sir) {
                Ok(e) => e,
                Err(e) => {
                    return Err(e);
                },
            };
            let e2 = match mem.process_operand(rand2, nid, sir) {
                Ok(e) => e,
                Err(e) => {
                    return Err(e);
                },
            };
            Ok(Expr::BinOp(rt, Box::new(e1), Box::new(e2)))
        },
        Rvalue::UnaryOp(unop, rand) => {
            let rt = Rator::from_mir_un(unop);
            let e1 = match mem.process_operand(rand, nid, sir) {
                Ok(e) => e,
                Err(e) => {
                    return Err(e);
                },
            };
            Ok(Expr::UnOp(rt, Box::new(e1)))
        },
        Rvalue::Cast(rand) => mem.process_operand(rand, nid, sir),
        Rvalue::Ref(plc) => {
            match mem.read_copy(*plc, nid, sir) {
                Ok(nm) => Ok(Expr::Ref(nm)),
                Err(e) => Err(e),
            }
        },
        Rvalue::Unsupported => Err(ExecError::UnsupportedConstruct),
    }
}

/// Processes one block's straight-line statements in program order,
/// emitting one equality assertion per assignment into the node under
/// construction; the block's whole effect is pinned by `stmts_steps`.
fn perform_statements(body: &FnBody, frame: &mut Frame, nid: NodeId, sir: &mut Sir) -> (r: Result<
    (),
    ExecError,
>)
    requires
        body.wf(),
        old(frame).wf(*body),
        old(sir).wf(),
        nid.0 < old(sir).node_stmts().len(),
    ensures
        final(frame).wf(*body),
        final(frame).seen_counts@ == old(frame).seen_counts@,
        final(frame).current_block == old(frame).current_block,
        final(frame).generator == old(frame).generator,
        final(frame).precondition == old(frame).precondition,
        final(sir).wf(),
        final(sir).node_stmts().len() == old(sir).node_stmts().len(),
        forall|j: int|
            0 <= j < old(sir).node_stmts().len() && j != nid.0 ==> final(sir).node_stmts()[j]
                == old(sir).node_stmts()[j],
        final(sir).fwd() == old(sir).fwd(),
        final(sir).bwd() == old(sir).bwd(),
        match r {
            Ok(_) => stmts_steps(
                old(frame).current_memory@,
                old(sir).decls(),
                old(sir).node_stmts()[nid.0 as int],
                body.blocks@[old(frame).current_block as int].statements@,
                nid,
                *body,
            ) == Some(
                (
                    final(frame).current_memory@,
                    final(sir).decls(),
                    final(sir).node_stmts()[nid.0 as int],
                ),
            ),
            Err(e) => {
                &&& stmts_steps(
                    old(frame).current_memory@,
                    old(sir).decls(),
                    old(sir).node_stmts()[nid.0 as int],
                    body.blocks@[old(frame).current_block as int].statements@,
                    nid,
                    *body,
                ) is None
                &&& e == ExecError::UnboundPlace || !stmts_supported(
                    body.blocks@[old(frame).current_block as int].statements@,
                    *body,
                )
            },
        },
{
    let ghost m0 = old(frame).current_memory@;
    let ghost d0 = old(sir).decls();
    let ghost node0 = old(sir).node_stmts()[nid.0 as int];
    let stmts = &body.blocks[frame.current_block].statements;
    let mut i: usize = 0;
    proof {
        assert(stmts@.skip(0) =~= stmts@);
    }
    while i < stmts.len()
        invariant
            body.wf(),
            frame.wf(*body),
            frame.seen_counts@ == old(frame).seen_counts@,
            frame.current_block == old(frame).current_block,
            frame.generator == old(frame).generator,
            frame.precondition == old(frame).precondition,
            sir.wf(),
            sir.node_stmts().len() == old(sir).node_stmts().len(),
            forall|j: int|
                0 <= j < old(sir).node_stmts().len() && j != nid.0 ==> sir.node_stmts()[j]
                    == old(sir).node_stmts()[j],
            sir.fwd() == old(sir).fwd(),
            sir.bwd() == old(sir).bwd(),
            nid.0 < sir.node_stmts().len(),
            i <= stmts@.len(),
            stmts@ == body.blocks@[frame.current_block as int].statements@,
            m0 == old(frame).current_memory@,
            d0 == old(sir).decls(),
            node0 == old(sir).node_stmts()[nid.0 as int],
            stmts_steps(m0, d0, node0, stmts@, nid, *body) == stmts_steps(
                frame.current_memory@,
                sir.decls(),
                sir.node_stmts()[nid.0 as int],
                stmts@.skip(i as int),
                nid,
                *body,
            ),
        decreases stmts@.len() - i,
    {
        let ghost mc = frame.current_memory@;
        let ghost dc = sir.decls();
        let ghost nc = sir.node_stmts()[nid.0 as int];
        proof {
            assert(stmts@.skip(i as int)[0] == stmts@[i as int]);
            assert(stmts@.skip(i as int).drop_first() =~= stmts@.skip(i + 1));
        }
        match &stmts[i] {
            Statement::Assign(to, rv) => {
                let e = match evaluate_rvalue(&mut frame.current_memory, rv, nid, sir) {
                    Ok(e) => e,
                    Err(err) => {
                        proof {
                            if err != ExecError::UnboundPlace {
                                assert(!stmt_supported(stmts@[i as int], *body));
                            }
                        }
                        return Err(err);
                    },
                };
                let new_nm = match frame.current_memory.write_fresh(*to, nid, sir) {
                    Ok(nm) => nm,
                    Err(err) => {
                        return Err(err);
                    },
                };
                let set = Expr::BinOp(Rator::Eq, Box::new(Expr::Ref(new_nm)), Box::new(e));
                sir.add_expr_to_node(nid, set);
            },
            Statement::StorageLive(lcl) => {
                if *lcl >= body.local_types.len() {
                    proof {
                        assert(!stmt_supported(stmts@[i as int], *body));
                    }
                    return Err(ExecError::UnknownLocal);
                }
                let ty = body.local_types[*lcl];
                // Only the entry function's parameters and return slot carry
                // an origin; a newly live local is not witness material.
                match frame.current_memory.add_new_var(
                    crate::mir::Place::base_local(*lcl),
                    ty,
                    None,
                    sir,
                ) {
                    Ok(nm) => {
                        proof {
                            assert(Name(dc.len() as usize) == nm);
                        }
                    },
                    Err(err) => {
                        proof {
                            assert(!stmt_supported(stmts@[i as int], *body));
                        }
                        return Err(err);
                    },
                }
            },
            Statement::StorageDead(lcl) => {
                frame.current_memory.unbind(crate::mir::Place::base_local(*lcl));
            },
            Statement::Nop => {},
            Statement::Unsupported => {
                proof {
                    assert(!stmt_supported(stmts@[i as int], *body));
                }
                return Err(ExecError::UnsupportedConstruct);
            },
        }
        proof {
            assert(stmt_step(mc, dc, nc, stmts@[i as int], nid, *body) == Some(
                (frame.current_memory@, sir.decls(), sir.node_stmts()[nid.0 as int]),
            ));
        }
        i = i + 1;
    }
    proof {
        assert(stmts@.skip(stmts@.len() as int) =~= Seq::<Statement>::empty());
    }
    Ok(())
}

/// The scheduled switch children carry exactly the branch guards: `picks`
/// selects, in increasing order, which branches were not pruned; each
/// child continues at its branch's target under the equality guard of its
/// value, or, for the last branch, under the conjunctive negation of all
/// explicit guards.
pub open spec fn switch_children_ok(
    children: Seq<Frame>,
    picks: Seq<int>,
    values: Seq<u128>,
    targets: Seq<usize>,
    ty: StaticTy,
    dexpr: Expr,
) -> bool {
    &&& picks.len() == children.len()
    &&& forall|k: int| 0 <= k < picks.len() ==> 0 <= #[trigger] picks[k] <= values.len()
    &&& forall|k1: int, k2: int| 0 <= k1 < k2 < picks.len() ==> picks[k1] < picks[k2]
    &&& forall|k: int|
        0 <= k < children.len() ==> (#[trigger] children[k]).current_block == targets[picks[k]]
    &&& forall|k: int|
        0 <= k < children.len() ==> (#[trigger] children[k]).precondition == Some(
            if picks[k] < values.len() {
                eq_guard(scalar_val(values[picks[k]], ty), dexpr)
            } else {
                otherwise_guard(values, ty, dexpr)
            },
        )
}

/// One in-flight path at the specification level: the engine's `Frame`
/// stripped to its mathematical content.
#[verifier::ext_equal]
pub struct GFrame {
    pub generator: Option<NodeId>,
    pub guard: Option<Expr>,
    pub mem: Map<Place, Name>,
    pub counts: Seq<usize>,
    pub block: usize,
}

/// The mathematical content of an engine frame.
pub open spec fn gframe_of(f: Frame) -> GFrame {
    GFrame {
        generator: f.generator,
        guard: f.precondition,
        mem: f.current_memory@,
        counts: f.seen_counts@,
        block: f.current_block,
    }
}

/// The mathematical content of a worklist.
pub open spec fn gframes_of(s: Seq<Frame>) -> Seq<GFrame> {
    Seq::new(s.len(), |i: int| gframe_of(s[i]))
}

/// The child path continuing at `target` under `guard` with memory `mem`:
/// one more visit of the target on this path's own history.
pub open spec fn child_frame(
    counts: Seq<usize>,
    nid: NodeId,
    target: usize,
    guard: Option<Expr>,
    mem: Map<Place, Name>,
) -> GFrame {
    GFrame {
        generator: Some(nid),
        guard,
        mem,
        counts: counts.update(target as int, (counts[target as int] + 1) as usize),
        block: target,
    }
}

/// One child at `target` when its visit count is below the unroll bound,
/// none once the bound is reached.
pub open spec fn sched_one(
    counts: Seq<usize>,
    nid: NodeId,
    target: usize,
    guard: Option<Expr>,
    mem: Map<Place, Name>,
) -> Seq<GFrame> {
    if counts[target as int] < MAX_UNROLL {
        seq![child_frame(counts, nid, target, guard, mem)]
    } else {
        Seq::<GFrame>::empty()
    }
}

/// The children the first `j` switch branches schedule, in branch order:
/// each explicit branch under its equality guard, and — once `j` passes
/// the explicit values — the last branch under the conjunctive negation.
pub open spec fn switch_sched_upto(
    counts: Seq<usize>,
    nid: NodeId,
    values: Seq<u128>,
    targets: Seq<usize>,
    ty: StaticTy,
    dx: Expr,
    mem: Map<Place, Name>,
    j: int,
) -> Seq<GFrame>
    decreases j,
{
    if j <= 0 {
        Seq::<GFrame>::empty()
    } else {
        switch_sched_upto(counts, nid, values, targets, ty, dx, mem, j - 1) + sched_one(
            counts,
            nid,
            targets[j - 1],
            Some(
                if j - 1 < values.len() {
                    eq_guard(scalar_val(values[j - 1], ty), dx)
                } else {
                    otherwise_guard(values, ty, dx)
                },
            ),
            mem,
        )
    }
}

/// What one terminator does, at the specification level, to the node under
/// construction, the declaration table and the worklist: the spec twin of
/// the engine's terminator dispatch, over the state the block's statements
/// left behind.
pub open spec fn term_step(
    counts: Seq<usize>,
    block: usize,
    m: Map<Place, Name>,
    d: Seq<crate::sir::DeclView>,
    node: Seq<Expr>,
    body: FnBody,
    nid: NodeId,
) -> Option<(Seq<Expr>, Seq<crate::sir::DeclView>, Seq<GFrame>)> {
    match body.blocks@[block as int].terminator {
        Terminator::Goto { target } => Some((node, d, sched_one(counts, nid, target, None, m))),
        Terminator::SwitchInt { discr, switch_ty, values, targets } => match operand_spec(
            m,
            d,
            discr,
            nid,
        ) {
            None => None,
            Some((m2, d2, dx)) => if scalar_symty(0, switch_ty) is Some {
                Some(
                    (
                        node,
                        d2,
                        switch_sched_upto(
                            counts,
                            nid,
                            values@,
                            targets@,
                            switch_ty,
                            dx,
                            m2,
                            values@.len() + 1 as int,
                        ),
                    ),
                )
            } else {
                None
            },
        },
        Terminator::Assert { cond, expected, target } => match operand_spec(m, d, cond, nid) {
            None => None,
            Some((m2, d2, ce)) => Some(
                (
                    node.push(
                        Expr::BinOp(
                            Rator::Eq,
                            Box::new(Expr::Value(SymTy::Bool(expected))),
                            Box::new(ce),
                        ),
                    ),
                    d2,
                    sched_one(counts, nid, target, None, m2),
                ),
            ),
        },
        Terminator::Call { destination, next } => if destination.derefs == 0
            && destination.local < body.local_types@.len() {
            match decl_of(body.local_types@[destination.local as int], None) {
                Some(dv) => Some(
                    (
                        node,
                        d.push(dv),
                        sched_one(
                            counts,
                            nid,
                            next,
                            None,
                            m.insert(destination, Name(d.len() as usize)),
                        ),
                    ),
                ),
                None => None,
            }
        } else {
            None
        },
        Terminator::Return => Some((node, d, Seq::<GFrame>::empty())),
        Terminator::Unsupported => None,
    }
}

/// What processing one frame does: the block's statements run over the
/// frame's memory, then its terminator closes the node and schedules the
/// children.
pub open spec fn frame_step(
    fr: GFrame,
    d: Seq<crate::sir::DeclView>,
    body: FnBody,
    nid: NodeId,
) -> Option<(Seq<Expr>, Seq<crate::sir::DeclView>, Seq<GFrame>)> {
    match stmts_steps(
        fr.mem,
        d,
        Seq::<Expr>::empty(),
        body.blocks@[fr.block as int].statements@,
        nid,
        body,
    ) {
        None => None,
        Some((m1, d1, node)) => term_step(fr.counts, fr.block, m1, d1, node, body, nid),
    }
}

/// The constraint graph at the specification level: the declaration table,
/// each node's assertions, each node's generating in-edge (guard and
/// source; the root has none), and each node's out-edges in the order they
/// were recorded.
#[verifier::ext_equal]
pub struct GGraph {
    pub decls: Seq<crate::sir::DeclView>,
    pub nodes: Seq<Seq<Expr>>,
    pub links: Seq<(Option<Expr>, Option<NodeId>)>,
    pub out: Seq<Seq<(Option<Expr>, NodeId)>>,
}

/// A graph value matches its specification-level shadow: same declaration
/// table and node contents, each node's single generating in-edge carries
/// the recorded guard and source (the root has none), and the forward
/// lists carry the recorded out-edges in order.
pub open spec fn graph_matches(s: Sir, g: GGraph) -> bool {
    &&& s.decls() == g.decls
    &&& s.node_stmts() == g.nodes
    &&& s.bwd().len() == g.links.len()
    &&& s.fwd().len() == g.out.len()
    &&& forall|n: int|
        0 <= n < g.links.len() ==> match (#[trigger] g.links[n]).1 {
            Some(src) => s.bwd()[n].len() == 1 && s.bwd()[n][0].guard() == g.links[n].0
                && s.bwd()[n][0].target() == src,
            None => s.bwd()[n].len() == 0,
        }
    &&& forall|n: int|
        0 <= n < g.out.len() ==> (#[trigger] s.fwd()[n]).len() == g.out[n].len()
    &&& forall|n: int, j: int|
        0 <= n < g.out.len() && 0 <= j < g.out[n].len() ==> (#[trigger] s.fwd()[n][j]).guard()
            == g.out[n][j].0 && s.fwd()[n][j].target() == g.out[n][j].1
}

/// The specification-level shadow a tree-disciplined graph induces.
pub open spec fn graph_of(s: Sir) -> GGraph {
    GGraph {
        decls: s.decls(),
        nodes: s.node_stmts(),
        links: Seq::new(
            s.bwd().len(),
            |n: int|
                if s.bwd()[n].len() == 1 {
                    (s.bwd()[n][0].guard(), Some(s.bwd()[n][0].target()))
                } else {
                    (Option::<Expr>::None, Option::<NodeId>::None)
                },
        ),
        out: Seq::new(
            s.fwd().len(),
            |n: int|
                Seq::new(
                    s.fwd()[n].len(),
                    |j: int| (s.fwd()[n][j].guard(), s.fwd()[n][j].target()),
                ),
        ),
    }
}

/// The graph after one processed frame: one new node holding the step's
/// assertions, linked from its generator under its spawn guard, with the
/// step's declaration table.
pub open spec fn graph_after_step(g: GGraph, fr: GFrame, node: Seq<Expr>, d: Seq<
    crate::sir::DeclView,
>) -> GGraph {
    let nid = NodeId(g.nodes.len() as usize);
    let out1 = g.out.push(Seq::<(Option<Expr>, NodeId)>::empty());
    GGraph {
        decls: d,
        nodes: g.nodes.push(node),
        links: g.links.push((fr.guard, fr.generator)),
        out: match fr.generator {
            Some(src) => out1.update(
                src.0 as int,
                out1[src.0 as int].push((fr.guard, nid)),
            ),
            None => out1,
        },
    }
}

/// Exploration at the specification level: pop the top path, run its block
/// and terminator, record the node and its generating edge, and push the
/// scheduled children; empty worklist is done. The fuel only bounds the
/// recursion; any fuel at least the worklist measure never runs out.
pub open spec fn explore(stack: Seq<GFrame>, g: GGraph, body: FnBody, fuel: nat) -> Option<
    GGraph,
>
    decreases fuel,
{
    if stack.len() == 0 {
        Some(g)
    } else if fuel == 0 {
        None
    } else {
        let fr = stack.last();
        let nid = NodeId(g.nodes.len() as usize);
        match frame_step(fr, g.decls, body, nid) {
            None => None,
            Some((node, d, children)) => explore(
                stack.drop_last() + children,
                graph_after_step(g, fr, node, d),
                body,
                (fuel - 1) as nat,
            ),
        }
    }
}

/// Exactly one child at `target` when the frame's visit count there is
/// still below the unroll bound (unguarded, carrying the given memory
/// view), and none — counted as pruned — once the bound is reached.
pub open spec fn one_child_ok(
    children: Seq<Frame>,
    pruned: u64,
    frame: Frame,
    target: usize,
    mem: Map<Place, Name>,
) -> bool {
    if frame.seen_counts@[target as int] < MAX_UNROLL {
        &&& children.len() == 1
        &&& pruned == 0
        &&& children[0].current_block == target
        &&& children[0].precondition is None
        &&& children[0].current_memory@ == mem
    } else {
        &&& children.len() == 0
        &&& pruned == 1
    }
}

/// `picks` holds exactly the branch indices whose targets are still below
/// the unroll bound: a branch is scheduled if and only if its target can
/// still be visited.
pub open spec fn picks_complete(
    picks: Seq<int>,
    frame: Frame,
    nvalues: int,
    targets: Seq<usize>,
) -> bool {
    forall|j: int|
        0 <= j <= nvalues ==> (#[trigger] picks.contains(j) <==> frame.seen_counts@[
            targets[j] as int
        ] < MAX_UNROLL)
}

/// Dispatches on a block's terminator, scheduling the child frames it
/// calls for. Each child is spawned under its guard with its own memory
/// snapshot and one more visit of its target block; a child whose target
/// has exhausted the unroll bound is dropped and counted instead.
fn derive_next_frames(body: &FnBody, frame: Frame, nid: NodeId, sir: &mut Sir) -> (r: Result<
    (Vec<Frame>, u64),
    ExecError,
>)
    requires
        body.wf(),
        frame.wf(*body),
        old(sir).wf(),
        nid.0 < old(sir).node_stmts().len(),
    ensures
        final(sir).wf(),
        final(sir).node_stmts().len() == old(sir).node_stmts().len(),
        final(sir).fwd() == old(sir).fwd(),
        final(sir).bwd() == old(sir).bwd(),
        (body.blocks@[frame.current_block as int].terminator matches Terminator::Goto { .. }
            || body.blocks@[frame.current_block as int].terminator matches
            Terminator::Return) ==> r is Ok,
        match r {
            Ok(out) => {
                &&& (term_step(
                    frame.seen_counts@,
                    frame.current_block,
                    frame.current_memory@,
                    old(sir).decls(),
                    old(sir).node_stmts()[nid.0 as int],
                    *body,
                    nid,
                ) matches Some(ts) && {
                    &&& final(sir).decls() == ts.1
                    &&& final(sir).node_stmts() == old(sir).node_stmts().update(
                        nid.0 as int,
                        ts.0,
                    )
                    &&& gframes_of(out.0@) == ts.2
                })
                &&& out.0@.len() <= succ_count(
                    body.blocks@[frame.current_block as int].terminator,
                )
                &&& forall|i: int|
                    0 <= i < out.0@.len() ==> (#[trigger] out.0@[i]).wf(*body)
                        && out.0@[i].generator == Some(nid) && out.0@[i].potential() + 1
                        == frame.potential()
                &&& match body.blocks@[frame.current_block as int].terminator {
                    Terminator::Goto { target } => {
                        &&& final(sir).node_stmts() == old(sir).node_stmts()
                        &&& final(sir).decls() == old(sir).decls()
                        &&& one_child_ok(out.0@, out.1, frame, target, frame.current_memory@)
                    },
                    Terminator::SwitchInt { discr, switch_ty, values, targets } => {
                        &&& final(sir).node_stmts() == old(sir).node_stmts()
                        &&& operand_spec(frame.current_memory@, old(sir).decls(), discr, nid)
                            matches Some(t) && {
                            &&& final(sir).decls() == t.1
                            &&& out.0@.len() + out.1 == values@.len() + 1
                            &&& forall|k: int|
                                0 <= k < out.0@.len() ==> (
                                #[trigger] out.0@[k]).current_memory@ == t.0
                            &&& exists|picks: Seq<int>|
                                switch_children_ok(
                                    out.0@,
                                    picks,
                                    values@,
                                    targets@,
                                    switch_ty,
                                    t.2,
                                ) && picks_complete(
                                    picks,
                                    frame,
                                    values@.len() as int,
                                    targets@,
                                )
                        }
                    },
                    Terminator::Assert { cond, expected, target } => {
                        &&& operand_spec(frame.current_memory@, old(sir).decls(), cond, nid)
                            matches Some(t) && {
                            &&& final(sir).decls() == t.1
                            &&& final(sir).node_stmts() == old(sir).node_stmts().update(
                                nid.0 as int,
                                old(sir).node_stmts()[nid.0 as int].push(
                                    Expr::BinOp(
                                        Rator::Eq,
                                        Box::new(Expr::Value(SymTy::Bool(expected))),
                                        Box::new(t.2),
                                    ),
                                ),
                            )
                            &&& one_child_ok(out.0@, out.1, frame, target, t.0)
                        }
                    },
                    Terminator::Call { destination, next } => {
                        &&& final(sir).node_stmts() == old(sir).node_stmts()
                        &&& decl_of(
                            body.local_types@[destination.local as int],
                            None,
                        ) matches Some(dv) && {
                            &&& final(sir).decls() == old(sir).decls().push(dv)
                            &&& one_child_ok(
                                out.0@,
                                out.1,
                                frame,
                                next,
                                frame.current_memory@.insert(
                                    destination,
                                    Name(old(sir).decls().len() as usize),
                                ),
                            )
                        }
                    },
                    Terminator::Return => {
                        &&& out.0@.len() == 0
                        &&& out.1 == 0
                        &&& final(sir).node_stmts() == old(sir).node_stmts()
                        &&& final(sir).decls() == old(sir).decls()
                    },
                    Terminator::Unsupported => false,
                }
            },
            Err(e) => {
                &&& e == ExecError::UnboundPlace || !term_supported(
                    body.blocks@[frame.current_block as int].terminator,
                    *body,
                )
                &&& term_step(
                    frame.seen_counts@,
                    frame.current_block,
                    frame.current_memory@,
                    old(sir).decls(),
                    old(sir).node_stmts()[nid.0 as int],
                    *body,
                    nid,
                ) is None
            },
        },
{
    let ghost gcounts = frame.seen_counts@;
    let ghost node0 = old(sir).node_stmts()[nid.0 as int];
    let term = &body.blocks[frame.current_block].terminator;
    match term {
        Terminator::Goto { target } => {
            let mut children: Vec<Frame> = Vec::new();
            let mut pruned_here: u64 = 0;
            if frame.should_examine(*target) {
                let mem = frame.current_memory.fork();
                children.push(frame.from_new_loc(nid, *target, None, mem));
                proof {
                    assert(gframe_of(children@[0]) =~= child_frame(
                        gcounts,
                        nid,
                        *target,
                        None,
                        frame.current_memory@,
                    ));
                    assert(gframes_of(children@) =~= sched_one(
                        gcounts,
                        nid,
                        *target,
                        None,
                        frame.current_memory@,
                    ));
                }
            } else {
                pruned_here = 1;
                proof {
                    assert(gframes_of(children@) =~= sched_one(
                        gcounts,
                        nid,
                        *target,
                        None,
                        frame.current_memory@,
                    ));
                }
            }
            proof {
                assert(sir.node_stmts() =~= old(sir).node_stmts().update(nid.0 as int, node0));
            }
            Ok((children, pruned_here))
        },
        Terminator::SwitchInt { discr, switch_ty, values, targets } => {
            let mut new_mem = frame.current_memory.fork();
            let compare_to = match new_mem.process_operand(discr, nid, sir) {
                Ok(e) => e,
                Err(err) => {
                    return Err(err);
                },
            };
            let ghost dexpr = compare_to;
            let ghost mem_after = new_mem@;
            let built = match build_switch_guards(values, *switch_ty, &compare_to) {
                Some(b) => b,
                None => {
                    return Err(ExecError::UnsupportedConstruct);
                },
            };
            let (guards, other) = built;
            let mut children: Vec<Frame> = Vec::new();
            let ghost mut picks: Seq<int> = Seq::empty();
            let mut pruned_here: u64 = 0;
            let n = values.len();
            let tlen = targets.len();
            proof {
                assert(tlen == n + 1);
            }
            let mut i: usize = 0;
            while i < n
                invariant
                    body.wf(),
                    frame.wf(*body),
                    new_mem.inv(),
                    new_mem@ == mem_after,
                    n == values@.len(),
                    guards@.len() == n,
                    targets@.len() == n + 1,
                    forall|j: int|
                        0 <= j < n ==> (#[trigger] guards@[j]) == eq_guard(
                            scalar_val(values@[j], *switch_ty),
                            dexpr,
                        ),
                    terminator_wf(
                        body.blocks@[frame.current_block as int].terminator,
                        body.blocks@.len(),
                    ),
                    body.blocks@[frame.current_block as int].terminator matches
                        Terminator::SwitchInt { targets: t2, .. } && t2@ == targets@,
                    i <= n,
                    children@.len() + pruned_here == i,
                    forall|j: int|
                        0 <= j < children@.len() ==> (#[trigger] children@[j]).wf(*body)
                            && children@[j].generator == Some(nid) && children@[j].potential()
                            + 1 == frame.potential() && children@[j].current_memory@
                            == mem_after,
                    picks.len() == children@.len(),
                    forall|k: int| 0 <= k < picks.len() ==> 0 <= #[trigger] picks[k] < i,
                    forall|k1: int, k2: int|
                        0 <= k1 < k2 < picks.len() ==> picks[k1] < picks[k2],
                    forall|j: int|
                        0 <= j < i ==> (#[trigger] picks.contains(j) <==> frame.seen_counts@[
                            targets@[j] as int
                        ] < MAX_UNROLL),
                    forall|k: int|
                        0 <= k < children@.len() ==> (#[trigger] children@[k]).current_block
                            == targets@[picks[k]],
                    forall|k: int|
                        0 <= k < children@.len() ==> (#[trigger] children@[k]).precondition
                            == Some(eq_guard(scalar_val(values@[picks[k]], *switch_ty), dexpr)),
                    gframes_of(children@) == switch_sched_upto(
                        gcounts,
                        nid,
                        values@,
                        targets@,
                        *switch_ty,
                        dexpr,
                        mem_after,
                        i as int,
                    ),
                    gcounts == frame.seen_counts@,
                decreases n - i,
            {
                let t = targets[i];
                let ghost picks_pre = picks;
                let ghost gprev = gframes_of(children@);
                if frame.should_examine(t) {
                    let g = guards[i].duplicate();
                    let child = frame.from_new_loc(nid, t, Some(g), new_mem.fork());
                    children.push(child);
                    proof {
                        picks = picks.push(i as int);
                        assert(picks.contains(i as int)) by {
                            assert(picks[picks.len() - 1] == i as int);
                        }
                        assert(gframe_of(children@.last()) =~= child_frame(
                            gcounts,
                            nid,
                            t,
                            Some(eq_guard(scalar_val(values@[i as int], *switch_ty), dexpr)),
                            mem_after,
                        ));
                        assert(gframes_of(children@) =~= gprev + sched_one(
                            gcounts,
                            nid,
                            t,
                            Some(eq_guard(scalar_val(values@[i as int], *switch_ty), dexpr)),
                            mem_after,
                        ));
                    }
                } else {
                    pruned_here = pruned_here + 1;
                    proof {
                        if picks.contains(i as int) {
                            let k = choose|k: int|
                                0 <= k < picks.len() && picks[k] == i as int;
                            assert(false);
                        }
                        assert(gframes_of(children@) =~= gprev + sched_one(
                            gcounts,
                            nid,
                            t,
                            Some(eq_guard(scalar_val(values@[i as int], *switch_ty), dexpr)),
                            mem_after,
                        ));
                    }
                }
                proof {
                    assert forall|j: int| 0 <= j < i implies (#[trigger] picks.contains(j)
                        <==> picks_pre.contains(j)) by {
                        if picks.contains(j) {
                            let k = choose|k: int| 0 <= k < picks.len() && picks[k] == j;
                            if k < picks_pre.len() {
                                assert(picks_pre[k] == j);
                            }
                        }
                        if picks_pre.contains(j) {
                            let k = choose|k: int|
                                0 <= k < picks_pre.len() && picks_pre[k] == j;
                            assert(picks[k] == j);
                        }
                    }
                }
                i = i + 1;
            }
            let t_other = targets[n];
            let ghost picks_pre = picks;
            let ghost gprev = gframes_of(children@);
            if frame.should_examine(t_other) {
                let child = frame.from_new_loc(nid, t_other, Some(other), new_mem);
                children.push(child);
                proof {
                    picks = picks.push(n as int);
                    assert(picks.contains(n as int)) by {
                        assert(picks[picks.len() - 1] == n as int);
                    }
                    assert(gframe_of(children@.last()) =~= child_frame(
                        gcounts,
                        nid,
                        t_other,
                        Some(otherwise_guard(values@, *switch_ty, dexpr)),
                        mem_after,
                    ));
                    assert(gframes_of(children@) =~= gprev + sched_one(
                        gcounts,
                        nid,
                        t_other,
                        Some(otherwise_guard(values@, *switch_ty, dexpr)),
                        mem_after,
                    ));
                }
            } else {
                pruned_here = pruned_here + 1;
                proof {
                    if picks.contains(n as int) {
                        let k = choose|k: int| 0 <= k < picks.len() && picks[k] == n as int;
                        assert(false);
                    }
                    assert(gframes_of(children@) =~= gprev + sched_one(
                        gcounts,
                        nid,
                        t_other,
                        Some(otherwise_guard(values@, *switch_ty, dexpr)),
                        mem_after,
                    ));
                }
            }
            proof {
                assert forall|j: int| 0 <= j < n implies (#[trigger] picks.contains(j)
                    <==> picks_pre.contains(j)) by {
                    if picks.contains(j) {
                        let k = choose|k: int| 0 <= k < picks.len() && picks[k] == j;
                        if k < picks_pre.len() {
                            assert(picks_pre[k] == j);
                        }
                    }
                    if picks_pre.contains(j) {
                        let k = choose|k: int| 0 <= k < picks_pre.len() && picks_pre[k] == j;
                        assert(picks[k] == j);
                    }
                }
                assert(switch_children_ok(
                    children@,
                    picks,
                    values@,
                    targets@,
                    *switch_ty,
                    dexpr,
                ));
                assert(picks_complete(picks, frame, values@.len() as int, targets@));
                assert(gframes_of(children@) == switch_sched_upto(
                    gcounts,
                    nid,
                    values@,
                    targets@,
                    *switch_ty,
                    dexpr,
                    mem_after,
                    values@.len() + 1 as int,
                ));
                assert(sir.node_stmts() =~= old(sir).node_stmts().update(nid.0 as int, node0));
            }
            Ok((children, pruned_here))
        },
        Terminator::Assert { cond, expected, target } => {
            let mut mem = frame.current_memory.fork();
            let test_val = SymTy::from_boolean(*expected);
            let rand = match mem.process_operand(cond, nid, sir) {
                Ok(e) => e,
                Err(err) => {
                    return Err(err);
                },
            };
            let ghost ce = rand;
            let assert_expr = Expr::BinOp(
                Rator::Eq,
                Box::new(Expr::Value(test_val)),
                Box::new(rand),
            );
            sir.add_expr_to_node(nid, assert_expr);
            proof {
                assert(sir.node_stmts() == old(sir).node_stmts().update(
                    nid.0 as int,
                    old(sir).node_stmts()[nid.0 as int].push(
                        Expr::BinOp(
                            Rator::Eq,
                            Box::new(Expr::Value(SymTy::Bool(*expected))),
                            Box::new(ce),
                        ),
                    ),
                ));
            }
            let ghost m2 = mem@;
            let mut children: Vec<Frame> = Vec::new();
            let mut pruned_here: u64 = 0;
            if frame.should_examine(*target) {
                children.push(frame.from_new_loc(nid, *target, None, mem));
                proof {
                    assert(gframe_of(children@[0]) =~= child_frame(gcounts, nid, *target, None, m2));
                    assert(gframes_of(children@) =~= sched_one(gcounts, nid, *target, None, m2));
                }
            } else {
                pruned_here = 1;
                proof {
                    assert(gframes_of(children@) =~= sched_one(gcounts, nid, *target, None, m2));
                }
            }
            Ok((children, pruned_here))
        },
        Terminator::Call { destination, next } => {
            if destination.derefs != 0 {
                return Err(ExecError::UnsupportedConstruct);
            }
            if destination.local >= body.local_types.len() {
                return Err(ExecError::UnknownLocal);
            }
            let ty = body.local_types[destination.local];
            let mut mem = frame.current_memory.fork();
            let ghost d0len = sir.decls().len();
            match mem.add_new_var(*destination, ty, None, sir) {
                Ok(nm) => {
                    proof {
                        assert(Name(d0len as usize) == nm);
                    }
                },
                Err(err) => {
                    return Err(err);
                },
            }
            let ghost m2 = mem@;
            let mut children: Vec<Frame> = Vec::new();
            let mut pruned_here: u64 = 0;
            if frame.should_examine(*next) {
                children.push(frame.from_new_loc(nid, *next, None, mem));
                proof {
                    assert(gframe_of(children@[0]) =~= child_frame(gcounts, nid, *next, None, m2));
                    assert(gframes_of(children@) =~= sched_one(gcounts, nid, *next, None, m2));
                }
            } else {
                pruned_here = 1;
                proof {
                    assert(gframes_of(children@) =~= sched_one(gcounts, nid, *next, None, m2));
                }
            }
            proof {
                assert(m2 =~= frame.current_memory@.insert(
                    *destination,
                    Name(d0len as usize),
                ));
                assert(sir.node_stmts() =~= old(sir).node_stmts().update(nid.0 as int, node0));
            }
            Ok((children, pruned_here))
        },
        Terminator::Return => {
            let children: Vec<Frame> = Vec::new();
            proof {
                assert(gframes_of(children@) =~= Seq::<GFrame>::empty());
                assert(sir.node_stmts() =~= old(sir).node_stmts().update(nid.0 as int, node0));
            }
            Ok((children, 0))
        },
        Terminator::Unsupported => Err(ExecError::UnsupportedConstruct),
    }
}

/// The root memory of a run: the return slot and each argument bound to
/// the name with the same index, and nothing else.
pub open spec fn entry_bindings(arg_count: usize) -> Map<Place, Name> {
    Map::new(|p: Place| p.derefs == 0 && p.local <= arg_count, |p: Place| Name(p.local))
}

/// A context as one run starts: an empty graph and exactly the root
/// frame, which no node generated.
pub open spec fn rooted_start(ctx: ExecutionContext) -> bool {
    &&& ctx.graph().node_stmts().len() == 0
    &&& ctx.frames().len() == 1
    &&& ctx.frames()[0].generator is None
}

/// The root path of a fresh run: at the entry block, unguarded, with the
/// entry bindings and untouched visit counters.
pub open spec fn init_gframe(body: FnBody) -> GFrame {
    GFrame {
        generator: None,
        guard: None,
        mem: entry_bindings(body.arg_count),
        counts: Seq::new(body.blocks@.len(), |i: int| 0usize),
        block: 0,
    }
}

/// The declaration table of a fresh run: one origin-tagged declaration for
/// the return slot and one per argument, in slot order.
pub open spec fn init_decls(body: FnBody) -> Seq<crate::sir::DeclView> {
    Seq::new(
        (body.arg_count + 1) as nat,
        |i: int|
            decl_of(
                body.local_types@[i],
                Some(Origin { def_id: body.def_id, local: i as usize }),
            ).unwrap(),
    )
}

/// The graph of a fresh run: the entry declarations and nothing else.
pub open spec fn init_ggraph(body: FnBody) -> GGraph {
    GGraph {
        decls: init_decls(body),
        nodes: Seq::<Seq<Expr>>::empty(),
        links: Seq::<(Option<Expr>, Option<NodeId>)>::empty(),
        out: Seq::<Seq<(Option<Expr>, NodeId)>>::empty(),
    }
}

/// What exploring a body from scratch produces: `Some` of the whole
/// constraint graph when every read along every explored path finds a
/// value, `None` when some path aborts. The fuel is the root worklist
/// measure, which exploration never exhausts.
pub open spec fn explore_body(body: FnBody) -> Option<GGraph> {
    explore(
        seq![init_gframe(body)],
        init_ggraph(body),
        body,
        pow((body.fanout() + 1) as int, (MAX_UNROLL * body.blocks@.len()) as nat) as nat,
    )
}

/// A frame's generator node, if any, exists in the graph.
pub open spec fn gen_ok(f: Frame, sir: Sir) -> bool {
    match f.generator {
        Some(g) => g.0 < sir.node_stmts().len(),
        None => true,
    }
}

/// The weight one frame contributes to the termination measure: the
/// branching bound raised to the frame's remaining potential.
pub open spec fn frame_weight(f: Frame, body: FnBody) -> int {
    pow((body.fanout() + 1) as int, f.potential())
}

/// The termination measure of the whole worklist.
pub open spec fn stack_measure(frames: Seq<Frame>, body: FnBody) -> int
    decreases frames.len(),
{
    if frames.len() == 0 {
        0
    } else {
        stack_measure(frames.drop_last(), body) + frame_weight(frames.last(), body)
    }
}

/// Every frame weighs at least one unit.
pub proof fn lemma_weight_pos(f: Frame, body: FnBody)
    ensures
        frame_weight(f, body) >= 1,
{
    vstd::arithmetic::power::lemma_pow_positive((body.fanout() + 1) as int, f.potential());
}

/// The measure is never negative.
pub proof fn lemma_measure_nonneg(frames: Seq<Frame>, body: FnBody)
    ensures
        stack_measure(frames, body) >= 0,
    decreases frames.len(),
{
    if frames.len() > 0 {
        lemma_measure_nonneg(frames.drop_last(), body);
        lemma_weight_pos(frames.last(), body);
    }
}

/// Replacing one frame of weight `K^p` by at most `K - 1` children of
/// weight `K^(p-1)` each strictly shrinks the measure.
pub proof fn lemma_step_decrease(body: FnBody, p: nat, k: nat)
    requires
        k <= body.fanout(),
        p >= 1,
    ensures
        k * pow((body.fanout() + 1) as int, (p - 1) as nat) < pow((body.fanout() + 1) as int, p),
{
    let kk = (body.fanout() + 1) as int;
    vstd::arithmetic::power::lemma_pow_positive(kk, (p - 1) as nat);
    assert(pow(kk, p) == kk * pow(kk, (p - 1) as nat)) by {
        reveal_with_fuel(pow, 2);
    }
    vstd::arithmetic::mul::lemma_mul_strict_inequality(
        k as int,
        kk,
        pow(kk, (p - 1) as nat),
    );
}

/// Law: for a switch over an integer-like discriminant and any concrete
/// discriminant value, each explicit branch guard holds exactly when the
/// discriminant equals the branch's value, and the `otherwise` guard holds
/// exactly when no explicit value matches. With the explicit values
/// pairwise distinct, exactly one of the guards therefore holds for every
/// discriminant.
pub proof fn lemma_switch_guards_partition(
    values: Seq<u128>,
    ty: StaticTy,
    discr: Expr,
    env: Seq<SymTy>,
    dv: u128,
)
    requires
        ty == StaticTy::Int || ty == StaticTy::Uint || ty == StaticTy::RawPtr,
        eval_expr_spec(env, discr) == Some(SymTy::Integer(dv)),
    ensures
        forall|i: int|
            0 <= i < values.len() ==> (holds(env, eq_guard(scalar_val(values[i], ty), discr))
                <==> values[i] == dv),
        holds(env, otherwise_guard(values, ty, discr)) <==> !values.contains(dv),
{
    assert forall|i: int| 0 <= i < values.len() implies (holds(
        env,
        eq_guard(scalar_val(values[i], ty), discr),
    ) <==> values[i] == dv) by {
        reveal_with_fuel(eval_expr_spec, 3);
        assert(scalar_val(values[i], ty) == SymTy::Integer(values[i]));
        assert(eval_expr_spec(env, Expr::Value(SymTy::Integer(values[i]))) == Some(
            SymTy::Integer(values[i]),
        ));
    }
    let negs = Seq::new(values.len(), |i: int| not_guard(scalar_val(values[i], ty), discr));
    assert forall|i: int| 0 <= i < negs.len() implies (#[trigger] eval_expr_spec(
        env,
        negs[i],
    )) == Some(SymTy::Bool(values[i] != dv)) by {
        reveal_with_fuel(eval_expr_spec, 4);
        assert(scalar_val(values[i], ty) == SymTy::Integer(values[i]));
        assert(eval_expr_spec(env, Expr::Value(SymTy::Integer(values[i]))) == Some(
            SymTy::Integer(values[i]),
        ));
        assert(eval_expr_spec(env, eq_guard(scalar_val(values[i], ty), discr)) == Some(
            SymTy::Bool(values[i] == dv),
        ));
    }
    lemma_and_fold_eval(env, negs);
    if forall|i: int| 0 <= i < negs.len() ==> holds(env, #[trigger] negs[i]) {
        if values.contains(dv) {
            let i = choose|i: int| 0 <= i < values.len() && values[i] == dv;
            assert(holds(env, negs[i]));
            assert(false);
        }
    } else {
        let i = choose|i: int| 0 <= i < negs.len() && !holds(env, #[trigger] negs[i]);
        assert(values[i] == dv);
        assert(values.contains(dv));
    }
}

} // verus!

verus! {

/// What one engine run produced: the constraint graph with its declaration
/// table, the entry node of the global formula, and how many paths the
/// unroll bound pruned. A nonzero count means exploration was incomplete:
/// absence of a finding is then no safety proof.
pub struct SymbolicRun {
    pub sir: Sir,
    pub entry: NodeId,
    pub pruned: u64,
}

/// The engine instance driving one analysis run: the body under
/// exploration, the worklist of in-flight frames, and the constraint graph
/// being produced. Nothing is shared between two instances.
pub struct ExecutionContext {
    body: FnBody,
    stack: Vec<Frame>,
    result: Sir,
    pruned: u64,
}

impl ExecutionContext {
    /// The body under exploration.
    pub closed spec fn fn_body(self) -> FnBody {
        self.body
    }

    /// The worklist, bottom first.
    pub closed spec fn frames(self) -> Seq<Frame> {
        self.stack@
    }

    /// The constraint graph produced so far.
    pub closed spec fn graph(self) -> Sir {
        self.result
    }

    /// How many paths were pruned so far.
    pub closed spec fn pruned_count(self) -> u64 {
        self.pruned
    }

    /// Engine soundness: the body and graph are well formed, and every
    /// queued frame is sound for the body with its generator node present
    /// in the graph.
    pub open spec fn wf(self) -> bool {
        &&& self.fn_body().wf()
        &&& self.graph().wf()
        &&& forall|i: int|
            0 <= i < self.frames().len() ==> (#[trigger] self.frames()[i]).wf(self.fn_body())
        &&& forall|i: int|
            0 <= i < self.frames().len() ==> gen_ok(#[trigger] self.frames()[i], self.graph())
    }

    /// Sets up one run: a root frame at the entry block, with one
    /// declaration for the return slot and one per argument, each tagged
    /// with its source slot, bound into a fresh memory.
    pub fn create_from_entry(body: FnBody) -> (r: Result<ExecutionContext, ExecError>)
        requires
            body.wf(),
        ensures
            match r {
                Ok(ctx) => {
                    &&& ctx.wf()
                    &&& ctx.fn_body() == body
                    &&& rooted_start(ctx)
                    &&& ctx.graph().node_stmts().len() == 0
                    &&& ctx.pruned_count() == 0
                    &&& ctx.graph().decls().len() == body.arg_count + 1
                    &&& forall|i: int|
                        0 <= i <= body.arg_count ==> decl_of(
                            body.local_types@[i],
                            Some(Origin { def_id: body.def_id, local: i as usize }),
                        ) == Some(#[trigger] ctx.graph().decls()[i])
                    &&& ctx.frames()[0].current_block == 0
                    &&& ctx.frames()[0].precondition is None
                    &&& forall|j: int|
                        0 <= j < ctx.frames()[0].seen_counts@.len() ==> (
                        #[trigger] ctx.frames()[0].seen_counts@[j]) == 0
                    &&& ctx.frames()[0].current_memory@ == entry_bindings(body.arg_count)
                    &&& stack_measure(ctx.frames(), body) == pow(
                        (body.fanout() + 1) as int,
                        (MAX_UNROLL * body.blocks@.len()) as nat,
                    )
                },
                Err(e) => {
                    &&& e == ExecError::UnsupportedConstruct
                    &&& exists|i: int|
                        0 <= i <= body.arg_count && body.local_types@[i]
                            == StaticTy::Unsupported
                },
            },
            (forall|i: int|
                0 <= i <= body.arg_count ==> (#[trigger] body.local_types@[i])
                    != StaticTy::Unsupported) ==> r is Ok,
    {
        let mut result = Sir::new();
        let mut mem = Memory::new();
        let nlocals = body.local_types.len();
        let mut i: usize = 0;
        proof {
            assert(mem@ =~= Map::new(
                |p: Place| p.derefs == 0 && p.local < 0,
                |p: Place| Name(p.local),
            ));
        }
        while i <= body.arg_count
            invariant
                body.wf(),
                mem.inv(),
                result.wf(),
                result.node_stmts().len() == 0,
                nlocals == body.local_types@.len(),
                body.arg_count < nlocals,
                i <= body.arg_count + 1,
                result.decls().len() == i,
                forall|j: int|
                    0 <= j < i ==> decl_of(
                        body.local_types@[j],
                        Some(Origin { def_id: body.def_id, local: j as usize }),
                    ) == Some(#[trigger] result.decls()[j]),
                mem@ == Map::new(
                    |p: Place| p.derefs == 0 && p.local < i,
                    |p: Place| Name(p.local),
                ),
            decreases body.arg_count + 1 - i,
        {
            let ty = body.local_types[i];
            let origin = Some(Origin { def_id: body.def_id, local: i });
            match mem.add_new_var(Place::base_local(i), ty, origin, &mut result) {
                Ok(nm) => {
                    proof {
                        assert(nm == Name(i));
                        assert(mem@ =~= Map::new(
                            |p: Place| p.derefs == 0 && p.local < i + 1,
                            |p: Place| Name(p.local),
                        ));
                    }
                },
                Err(e) => {
                    proof {
                        assert(body.local_types@[i as int] == StaticTy::Unsupported);
                    }
                    return Err(e);
                },
            }
            i = i + 1;
        }
        proof {
            assert(mem@ =~= entry_bindings(body.arg_count));
        }
        let nblocks = body.blocks.len();
        let mut counts: Vec<usize> = Vec::new();
        while counts.len() < nblocks
            invariant
                counts@.len() <= nblocks,
                forall|j: int| 0 <= j < counts@.len() ==> (#[trigger] counts@[j]) == 0,
            decreases nblocks - counts@.len(),
        {
            counts.push(0);
        }
        let frm = Frame {
            generator: None,
            precondition: None,
            current_memory: mem,
            seen_counts: counts,
            current_block: 0,
        };
        proof {
            lemma_potential_zero(frm.seen_counts@);
        }
        let ghost frm_view = frm;
        let mut stack: Vec<Frame> = Vec::new();
        stack.push(frm);
        proof {
            assert(stack@.drop_last() =~= Seq::<Frame>::empty());
            assert(stack@.last() == frm_view);
            assert(frm_view.seen_counts@.len() == body.blocks@.len());
            assert(frm_view.potential() == (MAX_UNROLL * body.blocks@.len()) as nat);
            assert(stack_measure(Seq::<Frame>::empty(), body) == 0);
            assert(stack_measure(stack@, body) == stack_measure(stack@.drop_last(), body)
                + frame_weight(stack@.last(), body));
            assert(stack_measure(stack@, body) == frame_weight(frm_view, body));
        }
        Ok(ExecutionContext { body, stack, result, pruned: 0 })
    }

    /// Runs the worklist to exhaustion and returns the constraint graph,
    /// the entry node, and the prune count. Termination is guaranteed by
    /// the per-path unroll bound, and the graph stays finite: the run
    /// allocates at most as many nodes as the initial worklist measure,
    /// a function of the unroll bound, the block count and the widest
    /// branch fan-out alone.
    pub fn evaluate(self) -> (r: Result<SymbolicRun, ExecError>)
        requires
            self.wf(),
            self.frames().len() >= 1,
        ensures
            match r {
                Ok(run) => {
                    &&& run.sir.wf()
                    &&& tree_disciplined(run.sir) || !tree_disciplined(self.graph())
                    &&& run.entry.0 < run.sir.node_stmts().len()
                    &&& rooted_start(self) ==> run.entry.0 == 0 && forall|n: int|
                        0 <= n < run.sir.bwd().len() ==> (#[trigger] run.sir.bwd()[n]).len()
                            == (if n == 0 { 0int } else { 1int })
                    &&& run.sir.node_stmts().len() <= self.graph().node_stmts().len()
                        + stack_measure(self.frames(), self.fn_body())
                    &&& tree_disciplined(self.graph()) ==> (explore(
                        gframes_of(self.frames()),
                        graph_of(self.graph()),
                        self.fn_body(),
                        stack_measure(self.frames(), self.fn_body()) as nat,
                    ) matches Some(gf) && graph_matches(run.sir, gf))
                },
                Err(e) => {
                    &&& e == ExecError::UnboundPlace || !body_supported(self.fn_body())
                    &&& tree_disciplined(self.graph()) ==> explore(
                        gframes_of(self.frames()),
                        graph_of(self.graph()),
                        self.fn_body(),
                        stack_measure(self.frames(), self.fn_body()) as nat,
                    ) is None
                },
            },
    {
        let ghost rooted = rooted_start(self);
        let ghost fbody = self.fn_body();
        let ghost tree0 = tree_disciplined(self.graph());
        let ghost g0 = graph_of(self.graph());
        let ghost fuel0 = stack_measure(self.frames(), self.fn_body()) as nat;
        let ghost e0 = explore(gframes_of(self.frames()), g0, self.fn_body(), fuel0);
        let ExecutionContext { body, mut stack, mut result, mut pruned } = self;
        let ghost mut gg = g0;
        let ghost mut fuel = fuel0;
        proof {
            assert(body == fbody);
            assert(g0 == graph_of(result));
            lemma_measure_nonneg(stack@, body);
            if tree0 {
                assert(graph_matches(result, gg)) by {
                    assert forall|n: int| 0 <= n < gg.links.len() implies match (
                    #[trigger] gg.links[n]).1 {
                        Some(src) => result.bwd()[n].len() == 1 && result.bwd()[n][0].guard()
                            == gg.links[n].0 && result.bwd()[n][0].target() == src,
                        None => result.bwd()[n].len() == 0,
                    } by {
                        assert(result.bwd()[n].len() <= 1);
                    }
                }
            }
        }
        let ghost n0 = result.node_stmts().len() as int;
        let ghost m0 = stack_measure(stack@, body);
        let mut entry: Option<NodeId> = None;
        while stack.len() > 0
            invariant
                body == fbody,
                fbody == self.fn_body(),
                tree0 == tree_disciplined(self.graph()),
                e0 == explore(
                    gframes_of(self.frames()),
                    graph_of(self.graph()),
                    self.fn_body(),
                    stack_measure(self.frames(), self.fn_body()) as nat,
                ),
                body.wf(),
                result.wf(),
                tree_disciplined(result) || !tree_disciplined(self.graph()),
                forall|i: int| 0 <= i < stack@.len() ==> (#[trigger] stack@[i]).wf(body),
                forall|i: int| 0 <= i < stack@.len() ==> gen_ok(#[trigger] stack@[i], result),
                result.node_stmts().len() + stack_measure(stack@, body) <= n0 + m0,
                match entry {
                    Some(e) => e.0 < result.node_stmts().len(),
                    None => stack@.len() >= 1,
                },
                rooted ==> match entry {
                    None => stack@.len() == 1 && stack@[0].generator is None
                        && result.node_stmts().len() == 0,
                    Some(e) => e.0 == 0 && forall|i: int|
                        0 <= i < stack@.len() ==> (#[trigger] stack@[i]).generator is Some,
                },
                rooted ==> forall|n: int|
                    0 <= n < result.bwd().len() ==> (#[trigger] result.bwd()[n]).len() == (
                    if n == 0 {
                        0int
                    } else {
                        1int
                    }),
                tree0 ==> graph_matches(result, gg),
                tree0 ==> explore(gframes_of(stack@), gg, body, fuel) == e0,
                fuel >= stack_measure(stack@, body),
            decreases stack_measure(stack@, body),
        {
            let ghost m_head = stack_measure(stack@, body);
            let ghost stack_pre = stack@;
            let ghost gg_head = gg;
            let ghost fuel_head = fuel;
            let mut frame = stack.pop().unwrap();
            let ghost gfr0 = gframe_of(frame);
            proof {
                assert(stack@ =~= stack_pre.drop_last());
                lemma_measure_nonneg(stack@, body);
                assert(gframes_of(stack_pre).last() == gfr0);
                assert(gframes_of(stack_pre).len() == stack_pre.len());
            }
            let ghost rest_g = stack@;
            let ghost sm_mid = stack_measure(stack@, body);
            let ghost p = frame.potential();
            let ghost cb = frame.current_block;
            let ghost w_frame = frame_weight(frame, body);
            proof {
                assert(stack_pre.last() == frame);
                assert(m_head == sm_mid + w_frame);
                lemma_weight_pos(frame, body);
                assert(fuel_head >= 1);
            }
            let gen = frame.generator;
            let prec: Option<Expr> = match &frame.precondition {
                Some(e) => Some(e.duplicate()),
                None => None,
            };
            proof {
                assert(prec == gfr0.guard);
                assert(gen == gfr0.generator);
            }
            let nid = result.add_node();
            proof {
                if tree0 {
                    assert(NodeId(gg.nodes.len() as usize) == nid);
                }
            }
            if entry.is_none() {
                entry = Some(nid);
            }
            match perform_statements(&body, &mut frame, nid, &mut result) {
                Ok(_) => {},
                Err(e) => {
                    proof {
                        if e != ExecError::UnboundPlace {
                            assert(!body_supported(body)) by {
                                if body_supported(body) {
                                    assert(stmts_supported(
                                        body.blocks@[cb as int].statements@,
                                        body,
                                    ));
                                }
                            }
                            assert(!body_supported(fbody));
                        }
                        if tree0 {
                            assert(frame_step(gfr0, gg.decls, body, nid) is None);
                            assert(explore(gframes_of(stack_pre), gg, body, fuel) is None);
                            assert(e0 is None);
                        }
                    }
                    return Err(e);
                },
            }
            let ghost m1v = frame.current_memory@;
            let ghost d1v = result.decls();
            let ghost node1v = result.node_stmts()[nid.0 as int];
            let derived = match derive_next_frames(&body, frame, nid, &mut result) {
                Ok(t) => t,
                Err(e) => {
                    proof {
                        if e != ExecError::UnboundPlace {
                            assert(!body_supported(body)) by {
                                if body_supported(body) {
                                    assert(term_supported(
                                        body.blocks@[cb as int].terminator,
                                        body,
                                    ));
                                }
                            }
                            assert(!body_supported(fbody));
                        }
                        if tree0 {
                            assert(term_step(gfr0.counts, gfr0.block, m1v, d1v, node1v, body, nid)
                                is None);
                            assert(frame_step(gfr0, gg.decls, body, nid) is None);
                            assert(explore(gframes_of(stack_pre), gg, body, fuel) is None);
                            assert(e0 is None);
                        }
                    }
                    return Err(e);
                },
            };
            let (mut children, pr) = derived;
            let ghost tval = term_step(gfr0.counts, gfr0.block, m1v, d1v, node1v, body, nid)
                .unwrap();
            pruned = if pruned <= u64::MAX - pr {
                pruned + pr
            } else {
                u64::MAX
            };
            let ghost k_total = children@.len() as int;
            let ghost w_child = pow((body.fanout() + 1) as int, (p - 1) as nat);
            let ghost children_pre = children@;
            proof {
                vstd::arithmetic::mul::lemma_mul_basics(w_child);
                if k_total > 0 {
                    assert(children_pre[0].potential() + 1 == p);
                }
                assert(children_pre.take(0) =~= Seq::<Frame>::empty());
                assert(rest_g + children_pre.take(0) =~= rest_g);
                assert(children_pre.skip(0) =~= children_pre);
            }
            while children.len() > 0
                invariant
                    body.wf(),
                    result.wf(),
                    nid.0 < result.node_stmts().len(),
                    forall|i: int| 0 <= i < stack@.len() ==> (#[trigger] stack@[i]).wf(body),
                    forall|i: int|
                        0 <= i < stack@.len() ==> gen_ok(#[trigger] stack@[i], result),
                    rooted ==> forall|i: int|
                        0 <= i < stack@.len() ==> (#[trigger] stack@[i]).generator is Some,
                    forall|i: int|
                        0 <= i < children@.len() ==> (#[trigger] children@[i]).wf(body)
                            && children@[i].generator == Some(nid) && children@[i].potential()
                            + 1 == p,
                    children@.len() <= k_total,
                    w_child == pow((body.fanout() + 1) as int, (p - 1) as nat),
                    stack_measure(stack@, body) == sm_mid + (k_total - children@.len())
                        * w_child,
                    k_total == children_pre.len(),
                    children@ == children_pre.skip(k_total - children@.len()),
                    stack@ == rest_g + children_pre.take(k_total - children@.len()),
                decreases children@.len(),
            {
                let ghost stack_mid = stack@;
                let ghost pushed = k_total - children@.len();
                let c = children.remove(0);
                proof {
                    assert(children_pre.skip(pushed)[0] == children_pre[pushed]);
                    assert(c == children_pre[pushed]);
                    assert(children@ =~= children_pre.skip(pushed + 1));
                    assert(c.potential() + 1 == p);
                    assert(c.potential() == (p - 1) as nat);
                    assert(frame_weight(c, body) == pow(
                        (body.fanout() + 1) as int,
                        c.potential(),
                    ));
                    assert(pow((body.fanout() + 1) as int, c.potential()) == pow(
                        (body.fanout() + 1) as int,
                        (p - 1) as nat,
                    ));
                    assert(frame_weight(c, body) == w_child);
                }
                stack.push(c);
                proof {
                    assert(stack@.drop_last() =~= stack_mid);
                    assert(stack@.last() == c);
                    assert(stack@ =~= rest_g + children_pre.take(pushed + 1));
                    vstd::arithmetic::mul::lemma_mul_is_distributive_add_other_way(
                        w_child,
                        pushed,
                        1,
                    );
                    vstd::arithmetic::mul::lemma_mul_basics(w_child);
                }
            }
            proof {
                assert(children_pre.take(k_total) =~= children_pre);
                assert(stack@ == rest_g + children_pre);
            }
            match gen {
                Some(g) => {
                    proof {
                        assert(result.bwd()[nid.0 as int].len() == 0);
                    }
                    result.add_edge(g, Edge::new(prec, nid));
                },
                None => {},
            }
            proof {
                assert(w_frame == pow((body.fanout() + 1) as int, p));
                vstd::arithmetic::mul::lemma_mul_basics(w_child);
                if k_total == 0 {
                    vstd::arithmetic::power::lemma_pow_positive((body.fanout() + 1) as int, p);
                } else {
                    assert(children_pre[0].potential() + 1 == p);
                    assert(p >= 1);
                    assert(k_total <= succ_count(body.blocks@[cb as int].terminator));
                    lemma_fanout_bound(body.blocks@, cb as int, body.blocks@.len() as int);
                    lemma_step_decrease(body, p, k_total as nat);
                }
                lemma_measure_nonneg(stack@, body);
                assert(stack_measure(stack@, body) < m_head);
                if tree0 {
                    let gg2 = graph_after_step(gg_head, gfr0, tval.0, tval.1);
                    assert(frame_step(gfr0, gg_head.decls, body, nid) == Some(tval));
                    assert(gframes_of(children_pre) == tval.2);
                    assert(gframes_of(stack@) =~= gframes_of(stack_pre).drop_last()
                        + gframes_of(children_pre));
                    assert(explore(gframes_of(stack_pre), gg_head, body, fuel_head) == explore(
                        gframes_of(stack@),
                        gg2,
                        body,
                        (fuel_head - 1) as nat,
                    ));
                    assert(result.decls() == gg2.decls);
                    assert(result.node_stmts() =~= gg2.nodes);
                    assert(result.bwd().len() == gg2.links.len());
                    assert(result.fwd().len() == gg2.out.len());
                    assert forall|n: int| 0 <= n < gg2.links.len() implies match (
                    #[trigger] gg2.links[n]).1 {
                        Some(src) => result.bwd()[n].len() == 1 && result.bwd()[n][0].guard()
                            == gg2.links[n].0 && result.bwd()[n][0].target() == src,
                        None => result.bwd()[n].len() == 0,
                    } by {
                        if n < gg_head.links.len() {
                            assert(gg2.links[n] == gg_head.links[n]);
                        }
                    }
                    assert forall|n: int| 0 <= n < gg2.out.len() implies (
                    #[trigger] result.fwd()[n]).len() == gg2.out[n].len() by {
                        if n < gg_head.out.len() {
                            match gfr0.generator {
                                Some(src) => {
                                    if n != src.0 {
                                        assert(gg2.out[n] == gg_head.out[n]);
                                    }
                                },
                                None => {
                                    assert(gg2.out[n] == gg_head.out[n]);
                                },
                            }
                        }
                    }
                    assert forall|n: int, j: int|
                        0 <= n < gg2.out.len() && 0 <= j < gg2.out[n].len() implies (
                    #[trigger] result.fwd()[n][j]).guard() == gg2.out[n][j].0
                        && result.fwd()[n][j].target() == gg2.out[n][j].1 by {
                        if n < gg_head.out.len() {
                            match gfr0.generator {
                                Some(src) => {
                                    if n != src.0 {
                                        assert(gg2.out[n] == gg_head.out[n]);
                                    } else if j < gg_head.out[n].len() {
                                        assert(gg2.out[n][j] == gg_head.out[n][j]);
                                    }
                                },
                                None => {
                                    assert(gg2.out[n] == gg_head.out[n]);
                                },
                            }
                        }
                    }
                    assert(graph_matches(result, gg2));
                }
                gg = graph_after_step(gg_head, gfr0, tval.0, tval.1);
                fuel = (fuel_head - 1) as nat;
            }
        }
        proof {
            if tree0 {
                assert(gframes_of(stack@) =~= Seq::<GFrame>::empty());
                assert(explore(gframes_of(stack@), gg, body, fuel) == Some(gg));
                assert(e0 == Some(gg));
            }
        }
        match entry {
            Some(e) => Ok(SymbolicRun { sir: result, entry: e, pruned }),
            None => Err(ExecError::UnsupportedConstruct),
        }
    }
}

} // verus!
