use nullcheck::analysis::{classify_outcome, model_bindings, ErrorInfo, PassResult,
    SolverOutcome};
use nullcheck::eval::eval_expr;
use nullcheck::mir::SourceSpan;
use nullcheck::sir::{Declaration, Expr, Origin, Rator, Sir, SymTy};
use nullcheck::structures::Name;

fn span() -> SourceSpan {
    SourceSpan { lo: 1, hi: 2 }
}

#[test]
fn bindings_keep_only_named_origins() {
    let mut sir = Sir::new();
    let with_origin = Declaration::decl_from(
        nullcheck::mir::StaticTy::RawPtr,
        Some(Origin { def_id: 4, local: 1 }),
    )
    .unwrap();
    let without = Declaration::decl_from(nullcheck::mir::StaticTy::Int, None).unwrap();
    let a = sir.add_declaration(with_origin);
    let b = sir.add_declaration(without);
    let model = vec![(a, SymTy::Integer(0)), (b, SymTy::Integer(9))];
    let bindings = model_bindings(&sir, &model);
    assert_eq!(bindings.len(), 1);
    assert_eq!(bindings[0].0, Origin { def_id: 4, local: 1 });
    assert_eq!(bindings[0].1, SymTy::Integer(0));
}

#[test]
fn bindings_ignore_names_outside_the_table() {
    let sir = Sir::new();
    let model = vec![(Name(5), SymTy::Integer(1))];
    assert_eq!(model_bindings(&sir, &model).len(), 0);
}

#[test]
fn witness_lists_arguments_in_order() {
    let model = vec![
        (Origin { def_id: 4, local: 2 }, SymTy::Bool(true)),
        (Origin { def_id: 4, local: 1 }, SymTy::Integer(0)),
    ];
    let finding = ErrorInfo::from_model(4, span(), 2, &model);
    assert_eq!(finding.get_type(), "Null Dereference");
    assert_eq!(
        finding.get_witness(),
        "Witness:\nArgument 1: Integer(0)\nArgument 2: Bool(true)\n"
    );
}

#[test]
fn witness_skips_unassigned_arguments() {
    let model = vec![(Origin { def_id: 4, local: 2 }, SymTy::Integer(3))];
    let finding = ErrorInfo::from_model(4, span(), 3, &model);
    assert_eq!(finding.get_witness(), "Witness:\nArgument 2: Integer(3)\n");
}

#[test]
fn witness_takes_the_first_binding_per_argument() {
    let model = vec![
        (Origin { def_id: 4, local: 1 }, SymTy::Integer(0)),
        (Origin { def_id: 4, local: 1 }, SymTy::Integer(8)),
    ];
    let finding = ErrorInfo::from_model(4, span(), 1, &model);
    assert_eq!(finding.get_witness(), "Witness:\nArgument 1: Integer(0)\n");
}

#[test]
fn witness_ignores_other_functions_bindings() {
    let model = vec![(Origin { def_id: 9, local: 1 }, SymTy::Integer(0))];
    let finding = ErrorInfo::from_model(4, span(), 1, &model);
    assert_eq!(finding.get_witness(), "Witness:\n");
    assert_eq!(finding.get_span(), span());
    assert_eq!(finding.get_def_id(), 4);
}

#[test]
fn evaluation_covers_arithmetic_edges() {
    let env: Vec<SymTy> = vec![];
    let int = |n: u128| Box::new(Expr::Value(SymTy::Integer(n)));
    // division and remainder by zero have no modeled value
    let div0 = Expr::BinOp(Rator::Div, int(4), int(0));
    assert_eq!(eval_expr(&env, &div0), None);
    let rem = Expr::BinOp(Rator::Mod, int(7), int(3));
    assert_eq!(eval_expr(&env, &rem), Some(SymTy::Integer(1)));
    // overflow past the modeled domain has no value
    let ovf = Expr::BinOp(Rator::Add, int(u128::MAX), int(1));
    assert_eq!(eval_expr(&env, &ovf), None);
    let mul_ovf = Expr::BinOp(Rator::Mul, int(u128::MAX), int(2));
    assert_eq!(eval_expr(&env, &mul_ovf), None);
    // subtraction below zero leaves the modeled domain
    let neg = Expr::BinOp(Rator::Sub, int(1), int(2));
    assert_eq!(eval_expr(&env, &neg), None);
    // ill-sorted applications have no value
    let bad = Expr::BinOp(
        Rator::And,
        int(1),
        Box::new(Expr::Value(SymTy::Bool(true))),
    );
    assert_eq!(eval_expr(&env, &bad), None);
    let cmp = Expr::BinOp(Rator::LessThan, int(2), int(5));
    assert_eq!(eval_expr(&env, &cmp), Some(SymTy::Bool(true)));
}

#[test]
fn solver_failure_decides_nothing() {
    let sir = Sir::new();
    let r = classify_outcome(&sir, SolverOutcome::Failed, false, 4, span(), 1);
    assert!(matches!(r, PassResult::Nondefinitive));
}

#[test]
fn no_model_is_an_all_clear_only_without_pruning() {
    let sir = Sir::new();
    let complete = classify_outcome(&sir, SolverOutcome::Unsat, false, 4, span(), 1);
    assert!(matches!(complete, PassResult::AssertiveOk));
    let pruned = classify_outcome(&sir, SolverOutcome::Unsat, true, 4, span(), 1);
    assert!(matches!(pruned, PassResult::Nondefinitive));
}

#[test]
fn a_model_becomes_a_finding_with_its_witness() {
    let mut sir = Sir::new();
    let p = Declaration::decl_from(
        nullcheck::mir::StaticTy::RawPtr,
        Some(Origin { def_id: 4, local: 1 }),
    )
    .unwrap();
    let nm = sir.add_declaration(p);
    let model = vec![(nm, SymTy::Integer(0))];
    let r = classify_outcome(&sir, SolverOutcome::Sat(model), false, 4, span(), 1);
    match r {
        PassResult::AssertiveError(e) => {
            assert_eq!(e.get_type(), "Null Dereference");
            assert_eq!(e.get_witness(), "Witness:\nArgument 1: Integer(0)\n");
        },
        _ => panic!("a model must produce a finding"),
    }
}
