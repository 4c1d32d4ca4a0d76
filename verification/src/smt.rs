//! Serialization of the constraint graph into the solver's assertion
//! language, and parsing of what the solver sends back. The textual format
//! is pinned here so the solver round trip is reproducible, but it is an
//! internal detail, not a public wire contract.

use vstd::prelude::*;

use crate::digits::{all_digits, dec_digits, dec_value, parse_dec};
use crate::sir::{Declaration, Expr, Node, Rator, Sir, SymTy};
use crate::structures::{name_label, NodeId};

verus! {

/// The rendering of a symbolic scalar, with a trailing separator.
pub open spec fn symty_smt(v: SymTy) -> Seq<char> {
    match v {
        SymTy::Integer(n) => dec_digits(n as nat) + " "@,
        SymTy::Bool(b) => if b {
            "true "@
        } else {
            "false "@
        },
    }
}

/// The rendering of an operator, with a trailing separator. Inequality is
/// special: it opens a negated equality that `expr_smt` closes.
pub open spec fn rator_smt(op: Rator) -> Seq<char> {
    match op {
        Rator::Eq => "= "@,
        Rator::Add => "+ "@,
        Rator::And => "and "@,
        Rator::Div => "div "@,
        Rator::GreaterEqual => ">= "@,
        Rator::GreaterThan => "> "@,
        Rator::LessEqual => "<= "@,
        Rator::LessThan => "< "@,
        Rator::Mod => "mod "@,
        Rator::Mul => "* "@,
        Rator::Neg => "- "@,
        Rator::Not => "not "@,
        Rator::NotEqual => "(not (= "@,
        Rator::Sub => "- "@,
    }
}

/// The rendering of an assertion term.
pub open spec fn expr_smt(e: Expr) -> Seq<char>
    decreases e,
{
    match e {
        Expr::Value(v) => symty_smt(v),
        Expr::Ref(nm) => name_label(nm.0 as nat) + " "@,
        Expr::UnOp(op, a) => "("@ + rator_smt(op) + expr_smt(*a) + ")"@,
        Expr::BinOp(op, a, b) => if op == Rator::NotEqual {
            "(not (= "@ + expr_smt(*a) + expr_smt(*b) + "))"@
        } else {
            "("@ + rator_smt(op) + expr_smt(*a) + expr_smt(*b) + ")"@
        },
    }
}

/// The rendering of a node's assertions, in emission order.
pub open spec fn node_smt(stmts: Seq<Expr>) -> Seq<char>
    decreases stmts.len(),
{
    if stmts.len() == 0 {
        Seq::<char>::empty()
    } else {
        node_smt(stmts.drop_last()) + expr_smt(stmts.last())
    }
}

/// The rendering of everything reachable from node `nid`: the node's own
/// assertions conjoined with one implication per outgoing edge, each
/// guarding the formula of its target subtree.
pub open spec fn formula_smt(s: Sir, nid: int) -> Seq<char>
    decreases s.node_stmts().len() - nid, 1int, 0int,
        when 0 <= nid < s.node_stmts().len() && s.wf()
{
    "(and true "@ + node_smt(s.node_stmts()[nid]) + edges_smt_upto(
        s,
        nid,
        s.fwd()[nid].len() as int,
    ) + ")"@
}

/// The rendering of the first `k` outgoing edges of node `nid`, in order.
pub open spec fn edges_smt_upto(s: Sir, nid: int, k: int) -> Seq<char>
    decreases s.node_stmts().len() - nid, 0int, k,
        when 0 <= nid < s.node_stmts().len() && s.wf() && k <= s.fwd()[nid].len()
{
    if k <= 0 {
        Seq::<char>::empty()
    } else {
        let e = s.fwd()[nid][k - 1];
        edges_smt_upto(s, nid, k - 1) + ("(=> "@ + (match e.guard() {
            Some(g) => expr_smt(g) + " "@,
            None => "true "@,
        }) + formula_smt(s, e.target().0 as int) + ")"@)
    }
}

/// Appends the rendering of a symbolic scalar.
pub fn append_symty_smt(out: &mut String, v: SymTy)
    ensures
        final(out)@ == old(out)@ + symty_smt(v),
{
    match v {
        SymTy::Integer(n) => {
            crate::digits::append_dec(out, n);
            out.append(" ");
            proof {
                assert(final(out)@ =~= old(out)@ + symty_smt(v));
            }
        },
        SymTy::Bool(b) => {
            if b {
                out.append("true ");
            } else {
                out.append("false ");
            }
        },
    }
}

/// Appends the rendering of an operator.
pub fn append_rator_smt(out: &mut String, op: Rator)
    ensures
        final(out)@ == old(out)@ + rator_smt(op),
{
    match op {
        Rator::Eq => out.append("= "),
        Rator::Add => out.append("+ "),
        Rator::And => out.append("and "),
        Rator::Div => out.append("div "),
        Rator::GreaterEqual => out.append(">= "),
        Rator::GreaterThan => out.append("> "),
        Rator::LessEqual => out.append("<= "),
        Rator::LessThan => out.append("< "),
        Rator::Mod => out.append("mod "),
        Rator::Mul => out.append("* "),
        Rator::Neg => out.append("- "),
        Rator::Not => out.append("not "),
        Rator::NotEqual => out.append("(not (= "),
        Rator::Sub => out.append("- "),
    }
}

/// Appends the rendering of an assertion term.
pub fn append_expr_smt(out: &mut String, e: &Expr)
    ensures
        final(out)@ == old(out)@ + expr_smt(*e),
    decreases e,
{
    match e {
        Expr::Value(v) => {
            append_symty_smt(out, *v);
        },
        Expr::Ref(nm) => {
            let id = nm.to_id();
            out.append(id.as_str());
            out.append(" ");
            proof {
                assert(final(out)@ =~= old(out)@ + expr_smt(*e));
            }
        },
        Expr::UnOp(op, a) => {
            out.append("(");
            append_rator_smt(out, *op);
            append_expr_smt(out, a);
            out.append(")");
            proof {
                assert(final(out)@ =~= old(out)@ + expr_smt(*e));
            }
        },
        Expr::BinOp(op, a, b) => {
            if *op == Rator::NotEqual {
                out.append("(not (= ");
                append_expr_smt(out, a);
                append_expr_smt(out, b);
                out.append("))");
                proof {
                    assert(final(out)@ =~= old(out)@ + expr_smt(*e));
                }
            } else {
                out.append("(");
                append_rator_smt(out, *op);
                append_expr_smt(out, a);
                append_expr_smt(out, b);
                out.append(")");
                proof {
                    assert(final(out)@ =~= old(out)@ + expr_smt(*e));
                }
            }
        },
    }
}

impl Expr {
    /// Renders this term for the solver.
    pub fn to_smt(&self) -> (r: String)
        ensures
            r@ == expr_smt(*self),
    {
        let mut out = String::new();
        append_expr_smt(&mut out, self);
        proof {
            assert(out@ =~= expr_smt(*self));
        }
        out
    }
}

impl Node {
    /// Renders this node's assertions, in emission order.
    pub fn to_smt(&self) -> (r: String)
        ensures
            r@ == node_smt(self@),
    {
        let mut out = String::new();
        append_node_smt(&mut out, self);
        proof {
            assert(out@ =~= node_smt(self@));
        }
        out
    }
}

/// Appends the rendering of a node's assertions.
pub fn append_node_smt(out: &mut String, node: &Node)
    ensures
        final(out)@ == old(out)@ + node_smt(node@),
{
    let exprs = node.exprs();
    let mut i: usize = 0;
    proof {
        assert(node@.take(0) =~= Seq::<Expr>::empty());
        assert(old(out)@ + node_smt(node@.take(0)) =~= old(out)@);
    }
    while i < exprs.len()
        invariant
            i <= exprs@.len(),
            exprs@ == node@,
            out@ == old(out)@ + node_smt(node@.take(i as int)),
        decreases exprs@.len() - i,
    {
        proof {
            assert(node@.take(i + 1).drop_last() =~= node@.take(i as int));
            assert(node@.take(i + 1).last() == node@[i as int]);
        }
        append_expr_smt(out, &exprs[i]);
        proof {
            assert(out@ =~= old(out)@ + node_smt(node@.take(i + 1)));
        }
        i = i + 1;
    }
    proof {
        assert(node@.take(node@.len() as int) =~= node@);
    }
}

impl Sir {
    /// Renders the single global formula for all behavior reachable from
    /// `start`.
    pub fn to_smt(&self, start: NodeId) -> (r: String)
        requires
            self.wf(),
            start.0 < self.node_stmts().len(),
        ensures
            r@ == formula_smt(*self, start.0 as int),
    {
        let mut out = String::new();
        self.append_formula(start, &mut out);
        proof {
            assert(out@ =~= formula_smt(*self, start.0 as int));
        }
        out
    }

    /// Appends the formula of the subtree rooted at `nid`.
    fn append_formula(&self, nid: NodeId, out: &mut String)
        requires
            self.wf(),
            nid.0 < self.node_stmts().len(),
        ensures
            final(out)@ == old(out)@ + formula_smt(*self, nid.0 as int),
        decreases self.node_stmts().len() - nid.0,
    {
        out.append("(and true ");
        let node = self.get_node(nid);
        append_node_smt(out, node);
        let ghost mid = old(out)@ + "(and true "@ + node_smt(self.node_stmts()[nid.0 as int]);
        proof {
            assert(out@ =~= mid);
            assert(edges_smt_upto(*self, nid.0 as int, 0) =~= Seq::<char>::empty());
            assert(mid + edges_smt_upto(*self, nid.0 as int, 0) =~= mid);
        }
        let edges = self.get_out_edges(nid);
        let mut k: usize = 0;
        while k < edges.len()
            invariant
                self.wf(),
                nid.0 < self.node_stmts().len(),
                k <= edges@.len(),
                edges@ == self.fwd()[nid.0 as int],
                mid == old(out)@ + "(and true "@ + node_smt(self.node_stmts()[nid.0 as int]),
                out@ == mid + edges_smt_upto(*self, nid.0 as int, k as int),
            decreases edges@.len() - k,
        {
            let ghost before = out@;
            let e = &edges[k];
            out.append("(=> ");
            match e.guard_ref() {
                Some(g) => {
                    append_expr_smt(out, g);
                    out.append(" ");
                },
                None => {
                    out.append("true ");
                },
            }
            self.append_formula(e.get_target(), out);
            out.append(")");
            proof {
                assert(out@ =~= mid + edges_smt_upto(*self, nid.0 as int, k + 1));
            }
            k = k + 1;
        }
        out.append(")");
        proof {
            assert(final(out)@ =~= old(out)@ + formula_smt(*self, nid.0 as int));
        }
    }
}

impl Declaration {
    /// The solver sort of this declaration's logical type.
    pub fn sort_smt(&self) -> (r: &'static str)
        ensures
            match self@.ty {
                SymTy::Integer(_) => r@ == "Int"@,
                SymTy::Bool(_) => r@ == "Bool"@,
            },
    {
        match self.sym_ty() {
            SymTy::Integer(_) => "Int",
            SymTy::Bool(_) => "Bool",
        }
    }
}

/// Whether `s` reads exactly `Int`.
fn str_is_int(s: &str) -> (r: bool)
    ensures
        r == (s@ == "Int"@),
{
    proof {
        reveal_strlit("Int");
    }
    let n = s.unicode_len();
    if n != 3 {
        return false;
    }
    let r = s.get_char(0) == 'I' && s.get_char(1) == 'n' && s.get_char(2) == 't';
    proof {
        if r {
            assert(s@ =~= "Int"@);
        }
    }
    r
}

/// Whether `s` reads exactly `Bool`.
fn str_is_bool(s: &str) -> (r: bool)
    ensures
        r == (s@ == "Bool"@),
{
    proof {
        reveal_strlit("Bool");
    }
    let n = s.unicode_len();
    if n != 4 {
        return false;
    }
    let r = s.get_char(0) == 'B' && s.get_char(1) == 'o' && s.get_char(2) == 'o' && s.get_char(3)
        == 'l';
    proof {
        if r {
            assert(s@ =~= "Bool"@);
        }
    }
    r
}

/// Whether `s` reads exactly `true`.
fn str_is_true(s: &str) -> (r: bool)
    ensures
        r == (s@ == "true"@),
{
    proof {
        reveal_strlit("true");
    }
    let n = s.unicode_len();
    if n != 4 {
        return false;
    }
    let r = s.get_char(0) == 't' && s.get_char(1) == 'r' && s.get_char(2) == 'u' && s.get_char(3)
        == 'e';
    proof {
        if r {
            assert(s@ =~= "true"@);
        }
    }
    r
}

/// Whether `s` reads exactly `false`.
fn str_is_false(s: &str) -> (r: bool)
    ensures
        r == (s@ == "false"@),
{
    proof {
        reveal_strlit("false");
    }
    let n = s.unicode_len();
    if n != 5 {
        return false;
    }
    let r = s.get_char(0) == 'f' && s.get_char(1) == 'a' && s.get_char(2) == 'l' && s.get_char(3)
        == 's' && s.get_char(4) == 'e';
    proof {
        if r {
            assert(s@ =~= "false"@);
        }
    }
    r
}

/// Reads a solver sort back as a logical type: `Int` or `Bool`, anything
/// else is outside the expected model grammar.
pub fn parse_type(s: &str) -> (r: Option<SymTy>)
    ensures
        r == if s@ == "Int"@ {
            Some(SymTy::Integer(0))
        } else if s@ == "Bool"@ {
            Some(SymTy::Bool(false))
        } else {
            None::<SymTy>
        },
{
    if str_is_int(s) {
        Some(SymTy::Integer(0))
    } else if str_is_bool(s) {
        Some(SymTy::Bool(false))
    } else {
        None
    }
}

/// Reads a model value of the given logical type back from the solver's
/// plain rendering: a decimal numeral for integers, `true` or `false` for
/// booleans. Anything else is outside the expected model grammar.
pub fn parse_value(s: &str, ty: SymTy) -> (r: Option<SymTy>)
    ensures
        match ty {
            SymTy::Integer(_) => match r {
                Some(v) => {
                    &&& v matches SymTy::Integer(n)
                    &&& s@.len() > 0
                    &&& all_digits(s@)
                    &&& (v matches SymTy::Integer(n) ==> n as nat == dec_value(s@))
                },
                None => s@.len() == 0 || !all_digits(s@) || dec_value(s@) > u128::MAX,
            },
            SymTy::Bool(_) => r == if s@ == "true"@ {
                Some(SymTy::Bool(true))
            } else if s@ == "false"@ {
                Some(SymTy::Bool(false))
            } else {
                None::<SymTy>
            },
        },
{
    match ty {
        SymTy::Integer(_) => {
            let n = s.unicode_len();
            proof {
                assert(s@.subrange(0, s@.len() as int) =~= s@);
            }
            match parse_dec(s, 0, n) {
                Some(v) => Some(SymTy::Integer(v)),
                None => None,
            }
        },
        SymTy::Bool(_) => {
            if str_is_true(s) {
                Some(SymTy::Bool(true))
            } else if str_is_false(s) {
                Some(SymTy::Bool(false))
            } else {
                None
            }
        },
    }
}

} // verus!
