//! The bug synthesizer and the finding type. For every dereference fact in
//! the declaration table this builds the solver query "the dereferenced
//! name equals zero, and the path to the dereference is taken"; a caller
//! runs the queries against a solver and hands a satisfying model back to
//! be turned into a structured finding with a human-readable witness. No
//! finding is ever synthesized without a model.

use vstd::prelude::*;

use crate::digits::dec_digits;
use crate::mir::{ExecError, FnBody, SourceSpan, StaticTy};
use crate::sir::{path_constraint_spec, DeclView, Expr, MirVariableProp, Origin, Rator, Sir,
    SymTy};
use crate::structures::{Name, NodeId};
use crate::symb_exec::{
    body_supported, explore_body, graph_matches, graph_of, gframes_of, init_gframe,
    init_ggraph, ExecutionContext, SymbolicRun,
};

verus! {

/// The node recorded in a dereference fact.
pub open spec fn prop_node(p: MirVariableProp) -> NodeId {
    match p {
        MirVariableProp::IsDerefed(n) => n,
    }
}

/// The dereference occurrences of one declaration, in attachment order,
/// keeping only facts whose node exists in a graph of `ncount` nodes.
pub open spec fn decl_occurrences(i: int, props: Seq<MirVariableProp>, ncount: nat) -> Seq<
    (int, NodeId),
>
    decreases props.len(),
{
    if props.len() == 0 {
        Seq::<(int, NodeId)>::empty()
    } else {
        decl_occurrences(i, props.drop_last(), ncount) + (if prop_node(props.last()).0 < ncount {
            seq![(i, prop_node(props.last()))]
        } else {
            Seq::<(int, NodeId)>::empty()
        })
    }
}

/// Every dereference occurrence of every declaration, in declaration
/// order, then attachment order.
pub open spec fn deref_occurrences(decls: Seq<DeclView>, ncount: nat) -> Seq<(int, NodeId)>
    decreases decls.len(),
{
    if decls.len() == 0 {
        Seq::<(int, NodeId)>::empty()
    } else {
        deref_occurrences(decls.drop_last(), ncount) + decl_occurrences(
            decls.len() - 1,
            decls.last().props,
            ncount,
        )
    }
}

/// The assertion that a name holds the integer zero: the shape of the
/// null-dereference question.
pub open spec fn eq_zero_expr(nm: Name) -> Expr {
    Expr::BinOp(
        Rator::Eq,
        Box::new(Expr::Ref(nm)),
        Box::new(Expr::Value(SymTy::Integer(0))),
    )
}

/// One prepared solver query: is the path to this dereference occurrence
/// reachable while the dereferenced name equals zero?
pub struct DerefQuery {
    pub name: Name,
    pub node: NodeId,
    pub constraints: Vec<Expr>,
}

/// A query is sound for an occurrence when it names it and carries exactly
/// the occurrence's path constraint and the zero equality.
pub open spec fn query_ok(q: DerefQuery, occ: (int, NodeId), s: Sir) -> bool {
    &&& q.name.0 == occ.0
    &&& q.node == occ.1
    &&& q.constraints@.len() == 2
    &&& q.constraints@[0] == path_constraint_spec(s, occ.1.0 as int)
    &&& q.constraints@[1] == eq_zero_expr(q.name)
}

/// Builds one query per dereference occurrence recorded in the graph's
/// declaration table, in declaration order.
pub fn synthesize_queries(sir: &Sir) -> (r: Vec<DerefQuery>)
    requires
        sir.wf(),
    ensures
        r@.len() == deref_occurrences(sir.decls(), sir.node_stmts().len()).len(),
        forall|k: int|
            0 <= k < r@.len() ==> query_ok(
                #[trigger] r@[k],
                deref_occurrences(sir.decls(), sir.node_stmts().len())[k],
                *sir,
            ),
{
    let ghost decls = sir.decls();
    let ghost ncount = sir.node_stmts().len();
    let mut out: Vec<DerefQuery> = Vec::new();
    let ndecls = sir.num_declarations();
    let nnodes = sir.num_nodes();
    let mut i: usize = 0;
    proof {
        assert(decls.take(0) =~= Seq::<DeclView>::empty());
    }
    while i < ndecls
        invariant
            sir.wf(),
            decls == sir.decls(),
            ncount == sir.node_stmts().len(),
            ndecls == decls.len(),
            nnodes == ncount,
            i <= ndecls,
            out@.len() == deref_occurrences(decls.take(i as int), ncount).len(),
            forall|k: int|
                0 <= k < out@.len() ==> query_ok(
                    #[trigger] out@[k],
                    deref_occurrences(decls.take(i as int), ncount)[k],
                    *sir,
                ),
        decreases ndecls - i,
    {
        let decl = sir.get_declaration(Name(i));
        let props = decl.get_property();
        let ghost dprops = decls[i as int].props;
        let nprops = props.len();
        let mut j: usize = 0;
        proof {
            assert(dprops.take(0) =~= Seq::<MirVariableProp>::empty());
        }
        while j < nprops
            invariant
                sir.wf(),
                decls == sir.decls(),
                ncount == sir.node_stmts().len(),
                nnodes == ncount,
                i < decls.len(),
                props@ == dprops,
                dprops == decls[i as int].props,
                nprops == dprops.len(),
                j <= nprops,
                out@.len() == deref_occurrences(decls.take(i as int), ncount).len()
                    + decl_occurrences(i as int, dprops.take(j as int), ncount).len(),
                forall|k: int|
                    0 <= k < out@.len() ==> query_ok(
                        #[trigger] out@[k],
                        (deref_occurrences(decls.take(i as int), ncount) + decl_occurrences(
                            i as int,
                            dprops.take(j as int),
                            ncount,
                        ))[k],
                        *sir,
                    ),
            decreases nprops - j,
        {
            proof {
                assert(dprops.take(j + 1).drop_last() =~= dprops.take(j as int));
                assert(dprops.take(j + 1).last() == dprops[j as int]);
            }
            let MirVariableProp::IsDerefed(nid) = props[j];
            if nid.0 < nnodes {
                let pc = sir.get_path_constraint(nid);
                let mut constraints: Vec<Expr> = Vec::new();
                constraints.push(pc);
                constraints.push(
                    Expr::BinOp(
                        Rator::Eq,
                        Box::new(Expr::Ref(Name(i))),
                        Box::new(Expr::Value(SymTy::Integer(0))),
                    ),
                );
                let q = DerefQuery { name: Name(i), node: nid, constraints };
                out.push(q);
            }
            j = j + 1;
        }
        proof {
            assert(dprops.take(nprops as int) =~= dprops);
            assert(decls.take(i + 1).drop_last() =~= decls.take(i as int));
            assert(decls.take(i + 1).last() == decls[i as int]);
        }
        i = i + 1;
    }
    proof {
        assert(decls.take(ndecls as int) =~= decls);
    }
    out
}

/// The model bindings that trace back to a source slot: the solver's
/// assignment filtered down to names carrying an origin, in model order.
pub open spec fn bindings_spec(decls: Seq<DeclView>, model: Seq<(Name, SymTy)>) -> Seq<
    (Origin, SymTy),
>
    decreases model.len(),
{
    if model.len() == 0 {
        Seq::<(Origin, SymTy)>::empty()
    } else {
        bindings_spec(decls, model.drop_last()) + (if model.last().0.0 < decls.len()
            && decls[model.last().0.0 as int].origin is Some {
            seq![(decls[model.last().0.0 as int].origin.unwrap(), model.last().1)]
        } else {
            Seq::<(Origin, SymTy)>::empty()
        })
    }
}

/// Filters a solver model down to the names that trace back to a source
/// slot, producing the minimal witness material.
pub fn model_bindings(sir: &Sir, model: &Vec<(Name, SymTy)>) -> (r: Vec<(Origin, SymTy)>)
    ensures
        r@ == bindings_spec(sir.decls(), model@),
{
    let mut out: Vec<(Origin, SymTy)> = Vec::new();
    let ndecls = sir.num_declarations();
    let mut i: usize = 0;
    proof {
        assert(model@.take(0) =~= Seq::<(Name, SymTy)>::empty());
    }
    while i < model.len()
        invariant
            ndecls == sir.decls().len(),
            i <= model@.len(),
            out@ == bindings_spec(sir.decls(), model@.take(i as int)),
        decreases model@.len() - i,
    {
        proof {
            assert(model@.take(i + 1).drop_last() =~= model@.take(i as int));
            assert(model@.take(i + 1).last() == model@[i as int]);
        }
        let (nm, val) = model[i];
        if nm.0 < ndecls {
            match sir.get_declaration(nm).get_location() {
                Some(origin) => {
                    out.push((*origin, val));
                },
                None => {},
            }
        }
        i = i + 1;
    }
    proof {
        assert(model@.take(model@.len() as int) =~= model@);
    }
    out
}

/// The label of one argument in a witness listing.
pub open spec fn arg_label(lcl: nat) -> Seq<char> {
    "Argument "@ + dec_digits(lcl) + ": "@
}

/// The rendering of one witness value.
pub open spec fn symty_text(v: SymTy) -> Seq<char> {
    match v {
        SymTy::Integer(n) => "Integer("@ + dec_digits(n as nat) + ")"@,
        SymTy::Bool(b) => if b {
            "Bool(true)"@
        } else {
            "Bool(false)"@
        },
    }
}

/// The first model value bound to the given slot of the given function.
pub open spec fn lookup_model(
    model: Seq<(Origin, SymTy)>,
    def_id: u64,
    lcl: usize,
) -> Option<SymTy>
    decreases model.len(),
{
    if model.len() == 0 {
        None
    } else if model[0].0 == (Origin { def_id, local: lcl }) {
        Some(model[0].1)
    } else {
        lookup_model(model.drop_first(), def_id, lcl)
    }
}

/// The witness pairs for arguments `1 ..= k`: a label and a value for each
/// argument the model assigns.
pub open spec fn witness_pairs(
    model: Seq<(Origin, SymTy)>,
    def_id: u64,
    k: nat,
) -> Seq<(Seq<char>, Seq<char>)>
    decreases k,
{
    if k == 0 {
        Seq::<(Seq<char>, Seq<char>)>::empty()
    } else {
        witness_pairs(model, def_id, (k - 1) as nat) + (match lookup_model(
            model,
            def_id,
            k as usize,
        ) {
            Some(v) => seq![(arg_label(k), symty_text(v))],
            None => Seq::<(Seq<char>, Seq<char>)>::empty(),
        })
    }
}

/// The witness listing: a heading, then one line per assigned argument.
pub open spec fn witness_text(pairs: Seq<(Seq<char>, Seq<char>)>) -> Seq<char>
    decreases pairs.len(),
{
    if pairs.len() == 0 {
        "Witness:\n"@
    } else {
        witness_text(pairs.drop_last()) + pairs.last().0 + pairs.last().1 + "\n"@
    }
}

/// The mathematical content of a finding.
pub struct ErrorInfoView {
    pub error_type: Seq<char>,
    pub assignments: Seq<(Seq<char>, Seq<char>)>,
    pub def_id: u64,
    pub span: SourceSpan,
}

/// One structured finding: the error kind, the identity and source span of
/// the entry function, and the argument assignment demonstrating the bug.
pub struct ErrorInfo {
    error_type: String,
    assignments: Vec<(String, String)>,
    def_id: u64,
    span: SourceSpan,
}

impl View for ErrorInfo {
    type V = ErrorInfoView;

    closed spec fn view(&self) -> ErrorInfoView {
        ErrorInfoView {
            error_type: self.error_type@,
            assignments: Seq::new(
                self.assignments@.len(),
                |i: int| (self.assignments@[i].0@, self.assignments@[i].1@),
            ),
            def_id: self.def_id,
            span: self.span,
        }
    }
}

/// Looks up the first model value bound to the given slot.
fn find_binding(model: &Vec<(Origin, SymTy)>, def_id: u64, lcl: usize) -> (r: Option<SymTy>)
    ensures
        r == lookup_model(model@, def_id, lcl),
{
    let mut i: usize = 0;
    proof {
        assert(model@.skip(0) =~= model@);
    }
    while i < model.len()
        invariant
            i <= model@.len(),
            lookup_model(model@, def_id, lcl) == lookup_model(
                model@.skip(i as int),
                def_id,
                lcl,
            ),
        decreases model@.len() - i,
    {
        let (origin, val) = model[i];
        proof {
            assert(model@.skip(i as int)[0] == model@[i as int]);
            assert(model@.skip(i as int).drop_first() =~= model@.skip(i + 1));
        }
        if origin.def_id == def_id && origin.local == lcl {
            return Some(val);
        }
        i = i + 1;
    }
    proof {
        assert(model@.skip(model@.len() as int) =~= Seq::<(Origin, SymTy)>::empty());
    }
    None
}

/// Appends the rendering of one witness value.
fn append_symty_text(out: &mut String, v: SymTy)
    ensures
        final(out)@ == old(out)@ + symty_text(v),
{
    match v {
        SymTy::Integer(n) => {
            out.append("Integer(");
            crate::digits::append_dec(out, n);
            out.append(")");
            proof {
                assert(final(out)@ =~= old(out)@ + symty_text(v));
            }
        },
        SymTy::Bool(b) => {
            if b {
                out.append("Bool(true)");
            } else {
                out.append("Bool(false)");
            }
        },
    }
}

impl ErrorInfo {
    /// Builds a finding from a satisfying model: the error kind is a null
    /// dereference, and each entry-function argument the model assigns
    /// becomes one labeled witness pair, in argument order.
    pub fn from_model(
        def_id: u64,
        span: SourceSpan,
        arg_count: usize,
        model: &Vec<(Origin, SymTy)>,
    ) -> (r: ErrorInfo)
        requires
            arg_count < usize::MAX,
        ensures
            r@.error_type == "Null Dereference"@,
            r@.def_id == def_id,
            r@.span == span,
            r@.assignments == witness_pairs(model@, def_id, arg_count as nat),
    {
        let mut assignments: Vec<(String, String)> = Vec::new();
        let mut lcl: usize = 1;
        while lcl <= arg_count
            invariant
                arg_count < usize::MAX,
                1 <= lcl <= arg_count + 1,
                Seq::new(
                    assignments@.len(),
                    |i: int| (assignments@[i].0@, assignments@[i].1@),
                ) == witness_pairs(model@, def_id, (lcl - 1) as nat),
            decreases arg_count + 1 - lcl,
        {
            match find_binding(model, def_id, lcl) {
                Some(v) => {
                    let mut label = String::from_str("Argument ");
                    crate::digits::append_dec(&mut label, lcl as u128);
                    label.append(": ");
                    let mut valtext = String::new();
                    append_symty_text(&mut valtext, v);
                    proof {
                        assert(label@ =~= arg_label(lcl as nat));
                        assert(valtext@ =~= symty_text(v));
                    }
                    assignments.push((label, valtext));
                },
                None => {},
            }
            proof {
                assert(Seq::new(
                    assignments@.len(),
                    |i: int| (assignments@[i].0@, assignments@[i].1@),
                ) =~= witness_pairs(model@, def_id, lcl as nat));
            }
            lcl = lcl + 1;
        }
        let r = ErrorInfo {
            error_type: String::from_str("Null Dereference"),
            assignments,
            def_id,
            span,
        };
        proof {
            assert(r@.assignments =~= witness_pairs(model@, def_id, arg_count as nat));
        }
        r
    }

    /// The source span of the entry function this finding is about.
    pub fn get_span(&self) -> (r: SourceSpan)
        ensures
            r == self@.span,
    {
        self.span
    }

    /// The identity of the entry function this finding is about.
    pub fn get_def_id(&self) -> (r: u64)
        ensures
            r == self@.def_id,
    {
        self.def_id
    }

    /// The error kind.
    pub fn get_type(&self) -> (r: &str)
        ensures
            r@ == self@.error_type,
    {
        self.error_type.as_str()
    }

    /// Renders the witness listing: a heading, then one line per assigned
    /// argument.
    pub fn get_witness(&self) -> (r: String)
        ensures
            r@ == witness_text(self@.assignments),
    {
        let mut total = String::from_str("Witness:\n");
        let mut i: usize = 0;
        proof {
            assert(self@.assignments.take(0) =~= Seq::<(Seq<char>, Seq<char>)>::empty());
            assert(total@ =~= witness_text(self@.assignments.take(0)));
        }
        while i < self.assignments.len()
            invariant
                i <= self.assignments@.len(),
                self@.assignments.len() == self.assignments@.len(),
                forall|j: int|
                    0 <= j < self.assignments@.len() ==> #[trigger] self@.assignments[j] == (
                        self.assignments@[j].0@,
                        self.assignments@[j].1@,
                    ),
                total@ == witness_text(self@.assignments.take(i as int)),
            decreases self.assignments@.len() - i,
        {
            proof {
                assert(self@.assignments.take(i + 1).drop_last() =~= self@.assignments.take(
                    i as int,
                ));
                assert(self@.assignments.take(i + 1).last() == self@.assignments[i as int]);
            }
            let pair = &self.assignments[i];
            total.append(pair.0.as_str());
            total.append(pair.1.as_str());
            total.append("\n");
            i = i + 1;
        }
        proof {
            assert(self@.assignments.take(self@.assignments.len() as int)
                =~= self@.assignments);
        }
        total
    }
}

/// The outcome of one analysis pass over one entry function: a definite
/// all-clear, a definite finding, or no definite answer (the solver failed
/// or exploration was incomplete).
pub enum PassResult {
    AssertiveOk,
    AssertiveError(ErrorInfo),
    Nondefinitive,
}

/// What the external solver said about one query: a model, a proof of
/// unsatisfiability, or a failure (the solver did not start, timed out,
/// or sent something malformed).
pub enum SolverOutcome {
    Sat(Vec<(Name, SymTy)>),
    Unsat,
    Failed,
}

/// Decides what one dereference query's outcome means: a model is a
/// definite finding, no model is a definite all-clear only when no path
/// was pruned, and a solver failure or incomplete exploration decides
/// nothing. A finding is never synthesized without a model, and a solver
/// failure is reported neither as a confirmed bug nor as proven-safe.
pub fn classify_outcome(
    sir: &Sir,
    outcome: SolverOutcome,
    incomplete: bool,
    def_id: u64,
    span: SourceSpan,
    arg_count: usize,
) -> (r: PassResult)
    requires
        arg_count < usize::MAX,
    ensures
        outcome is Failed ==> r is Nondefinitive,
        outcome is Unsat ==> (r is Nondefinitive <==> incomplete),
        outcome is Unsat && !incomplete ==> r is AssertiveOk,
        outcome matches SolverOutcome::Sat(m) ==> (r matches PassResult::AssertiveError(e)
            && e@.error_type == "Null Dereference"@ && e@.def_id == def_id && e@.span == span
            && e@.assignments == witness_pairs(
            bindings_spec(sir.decls(), m@),
            def_id,
            arg_count as nat,
        )),
{
    match outcome {
        SolverOutcome::Sat(m) => {
            let bindings = model_bindings(sir, &m);
            PassResult::AssertiveError(
                ErrorInfo::from_model(def_id, span, arg_count, &bindings),
            )
        },
        SolverOutcome::Unsat => {
            if incomplete {
                // Paths were pruned: absence of a model proves nothing.
                PassResult::Nondefinitive
            } else {
                PassResult::AssertiveOk
            }
        },
        SolverOutcome::Failed => PassResult::Nondefinitive,
    }
}

/// Everything one analysis run prepared for the solver: the symbolic run,
/// the queries to ask, and the labeling material for findings.
pub struct PreparedAnalysis {
    pub run: SymbolicRun,
    pub queries: Vec<DerefQuery>,
    pub def_id: u64,
    pub span: SourceSpan,
    pub arg_count: usize,
}

/// Drives every analysis decision for one entry function: the symbolic
/// execution and the synthesis of one solver query per dereference
/// occurrence. Issuing the queries to the external solver and handing the
/// models back is the caller's part.
pub struct AnalysisHandler {
    start: u64,
    code: FnBody,
}

impl AnalysisHandler {
    /// The body under analysis.
    pub closed spec fn body_of(self) -> FnBody {
        self.code
    }

    /// The identity of the entry function.
    pub closed spec fn start_of(self) -> u64 {
        self.start
    }

    /// A handler for one entry function.
    pub fn new(start: u64, code: FnBody) -> (r: AnalysisHandler)
        requires
            code.wf(),
        ensures
            r.body_of() == code,
            r.body_of().wf(),
            r.start_of() == start,
    {
        AnalysisHandler { start, code }
    }

    /// Explores the body and synthesizes the solver queries: one per
    /// dereference occurrence, each asking whether its path can be taken
    /// with the dereferenced name equal to zero.
    pub fn prepare(self) -> (r: Result<PreparedAnalysis, ExecError>)
        requires
            self.body_of().wf(),
        ensures
            match r {
                Ok(prep) => {
                    &&& prep.run.sir.wf()
                    &&& crate::sir::tree_disciplined(prep.run.sir)
                    &&& prep.run.entry.0 == 0
                    &&& prep.run.entry.0 < prep.run.sir.node_stmts().len()
                    &&& prep.queries@.len() == deref_occurrences(
                        prep.run.sir.decls(),
                        prep.run.sir.node_stmts().len(),
                    ).len()
                    &&& forall|k: int|
                        0 <= k < prep.queries@.len() ==> query_ok(
                            #[trigger] prep.queries@[k],
                            deref_occurrences(
                                prep.run.sir.decls(),
                                prep.run.sir.node_stmts().len(),
                            )[k],
                            prep.run.sir,
                        )
                    &&& prep.def_id == self.body_of().def_id
                    &&& prep.span == self.body_of().span
                    &&& prep.arg_count == self.body_of().arg_count
                    &&& explore_body(self.body_of()) matches Some(gf) && graph_matches(
                        prep.run.sir,
                        gf,
                    )
                },
                Err(e) => {
                    &&& e == ExecError::UnboundPlace || !body_supported(self.body_of())
                    &&& explore_body(self.body_of()) is None || exists|i: int|
                        0 <= i <= self.body_of().arg_count && self.body_of().local_types@[i]
                            == StaticTy::Unsupported
                },
            },
    {
        let ghost cbody = self.body_of();
        let def_id = self.code.def_id;
        let span = self.code.span;
        let arg_count = self.code.arg_count;
        let ctx = match ExecutionContext::create_from_entry(self.code) {
            Ok(c) => c,
            Err(e) => {
                proof {
                    let j = choose|i: int|
                        0 <= i <= cbody.arg_count && cbody.local_types@[i]
                            == StaticTy::Unsupported;
                    assert(!body_supported(cbody)) by {
                        if body_supported(cbody) {
                            assert(cbody.local_types@[j] != StaticTy::Unsupported);
                        }
                    }
                }
                return Err(e);
            },
        };
        proof {
            assert(crate::sir::tree_disciplined(ctx.graph()));
            assert(gframes_of(ctx.frames()) =~= seq![init_gframe(cbody)]) by {
                assert(ctx.frames()[0].seen_counts@ =~= Seq::new(
                    cbody.blocks@.len(),
                    |i: int| 0usize,
                ));
                assert(crate::symb_exec::gframe_of(ctx.frames()[0]) =~= init_gframe(cbody));
            }
            assert(graph_of(ctx.graph()) =~= init_ggraph(cbody)) by {
                assert(ctx.graph().decls() =~= crate::symb_exec::init_decls(cbody));
            }
        }
        let run = match ctx.evaluate() {
            Ok(r) => r,
            Err(e) => {
                return Err(e);
            },
        };
        let queries = synthesize_queries(&run.sir);
        Ok(PreparedAnalysis { run, queries, def_id, span, arg_count })
    }
}

} // verus!
