use nullcheck::analysis::{model_bindings, synthesize_queries, AnalysisHandler};
use nullcheck::eval::eval_expr;
use nullcheck::mir::{
    BasicBlockData, ExecError, FnBody, Operand, Place, Rvalue, SourceSpan, Statement, StaticTy,
    Terminator,
};
use nullcheck::sir::{MirVariableProp, SymTy};
use nullcheck::structures::{Name, NodeId};
use nullcheck::symb_exec::{build_switch_guards, ExecutionContext, SymbolicRun};

const FN_ID: u64 = 11;

fn body(arg_count: usize, local_types: Vec<StaticTy>, blocks: Vec<BasicBlockData>) -> FnBody {
    let b = FnBody {
        def_id: FN_ID,
        span: SourceSpan { lo: 3, hi: 9 },
        arg_count,
        local_types,
        blocks,
    };
    assert!(b.check());
    b
}

fn run(b: FnBody) -> SymbolicRun {
    ExecutionContext::create_from_entry(b)
        .unwrap()
        .evaluate()
        .unwrap()
}

fn ret_place() -> Place {
    Place::base_local(0)
}

fn arg_place() -> Place {
    Place::base_local(1)
}

fn deref_arg() -> Place {
    Place::base_local(1).deref()
}

/// Collects every (name index, node) dereference tag in the run.
fn tags(run: &SymbolicRun) -> Vec<(usize, NodeId)> {
    let mut out = Vec::new();
    for i in 0..run.sir.num_declarations() {
        for p in run.sir.get_declaration(Name(i)).get_property() {
            let MirVariableProp::IsDerefed(n) = p;
            out.push((i, *n));
        }
    }
    out
}

/// An environment assigning `p` (name 1) the given value and zero to every
/// other declared name.
fn env_with_p(run: &SymbolicRun, p: u128) -> Vec<SymTy> {
    let mut env = Vec::new();
    for i in 0..run.sir.num_declarations() {
        env.push(SymTy::Integer(if i == 1 { p } else { 0 }));
    }
    env
}

/// `f(p: pointer) -> int { if p != 0 { return *p } else { return 0 } }`:
/// the switch sends the zero pointer to the plain return and everything
/// else to the dereference.
fn guarded_safe_deref() -> FnBody {
    body(
        1,
        vec![StaticTy::Int, StaticTy::RawPtr],
        vec![
            BasicBlockData {
                statements: vec![],
                terminator: Terminator::SwitchInt {
                    discr: Operand::Copy(arg_place()),
                    switch_ty: StaticTy::RawPtr,
                    values: vec![0],
                    targets: vec![1, 2],
                },
            },
            BasicBlockData {
                statements: vec![Statement::Assign(
                    ret_place(),
                    Rvalue::Use(Operand::Constant(0, StaticTy::Int)),
                )],
                terminator: Terminator::Return,
            },
            BasicBlockData {
                statements: vec![Statement::Assign(
                    ret_place(),
                    Rvalue::Use(Operand::Copy(deref_arg())),
                )],
                terminator: Terminator::Return,
            },
        ],
    )
}

#[test]
fn guarded_safe_deref_is_unreachable_at_null() {
    let run = run(guarded_safe_deref());
    let t = tags(&run);
    assert_eq!(t.len(), 1, "exactly one dereference tag");
    assert_eq!(t[0].0, 1, "the tag sits on the pointer argument");
    let queries = synthesize_queries(&run.sir);
    assert_eq!(queries.len(), 1);
    // With p = 0 the path constraint of the dereference node is false, so
    // the query "p = 0 and the path is taken" has no model: no finding.
    let env = env_with_p(&run, 0);
    assert_eq!(
        eval_expr(&env, &queries[0].constraints[0]),
        Some(SymTy::Bool(false))
    );
    // A nonzero pointer reaches the dereference, but then fails the
    // zero-equality half of the query.
    let env7 = env_with_p(&run, 7);
    assert_eq!(
        eval_expr(&env7, &queries[0].constraints[0]),
        Some(SymTy::Bool(true))
    );
    assert_eq!(
        eval_expr(&env7, &queries[0].constraints[1]),
        Some(SymTy::Bool(false))
    );
}

/// `f(p: pointer) -> int { return *p }`: nothing guards the dereference.
fn unguarded_deref() -> FnBody {
    body(
        1,
        vec![StaticTy::Int, StaticTy::RawPtr],
        vec![BasicBlockData {
            statements: vec![Statement::Assign(
                ret_place(),
                Rvalue::Use(Operand::Copy(deref_arg())),
            )],
            terminator: Terminator::Return,
        }],
    )
}

#[test]
fn unguarded_deref_is_reachable_at_null() {
    let run = run(unguarded_deref());
    let t = tags(&run);
    assert_eq!(t.len(), 1);
    assert_eq!(t[0], (1, NodeId(0)));
    let queries = synthesize_queries(&run.sir);
    assert_eq!(queries.len(), 1);
    // The path constraint is the always-true seed; p = 0 satisfies the
    // whole query, so p = 0 is a witness.
    assert_eq!(queries[0].constraints[0].to_smt(), "true ");
    let env = env_with_p(&run, 0);
    assert_eq!(
        eval_expr(&env, &queries[0].constraints[0]),
        Some(SymTy::Bool(true))
    );
    assert_eq!(
        eval_expr(&env, &queries[0].constraints[1]),
        Some(SymTy::Bool(true))
    );
}

#[test]
fn unguarded_deref_finding_names_the_argument() {
    let b = unguarded_deref();
    let span = b.span;
    let handler = AnalysisHandler::new(FN_ID, b);
    let prep = handler.prepare().unwrap();
    assert_eq!(prep.queries.len(), 1);
    // A model as the solver would hand it back for the satisfiable query.
    let model = vec![
        (Name(0), SymTy::Integer(0)),
        (Name(1), SymTy::Integer(0)),
        (Name(2), SymTy::Integer(0)),
        (Name(3), SymTy::Integer(0)),
    ];
    let bindings = model_bindings(&prep.run.sir, &model);
    let finding =
        nullcheck::analysis::ErrorInfo::from_model(prep.def_id, prep.span, prep.arg_count, &bindings);
    assert_eq!(finding.get_type(), "Null Dereference");
    assert_eq!(finding.get_def_id(), FN_ID);
    assert_eq!(finding.get_span(), span);
    assert_eq!(finding.get_witness(), "Witness:\nArgument 1: Integer(0)\n");
}

/// `f(p: pointer) -> int { if p == 0 { return *p } else { return 0 } }`:
/// the guard sends exactly the null pointer into the dereference.
fn inverted_guard_deref() -> FnBody {
    body(
        1,
        vec![StaticTy::Int, StaticTy::RawPtr],
        vec![
            BasicBlockData {
                statements: vec![],
                terminator: Terminator::SwitchInt {
                    discr: Operand::Copy(arg_place()),
                    switch_ty: StaticTy::RawPtr,
                    values: vec![0],
                    targets: vec![1, 2],
                },
            },
            BasicBlockData {
                statements: vec![Statement::Assign(
                    ret_place(),
                    Rvalue::Use(Operand::Copy(deref_arg())),
                )],
                terminator: Terminator::Return,
            },
            BasicBlockData {
                statements: vec![Statement::Assign(
                    ret_place(),
                    Rvalue::Use(Operand::Constant(0, StaticTy::Int)),
                )],
                terminator: Terminator::Return,
            },
        ],
    )
}

#[test]
fn inverted_guard_still_finds_the_null_deref() {
    let run = run(inverted_guard_deref());
    let t = tags(&run);
    assert_eq!(t.len(), 1);
    assert_eq!(t[0].0, 1);
    let queries = synthesize_queries(&run.sir);
    assert_eq!(queries.len(), 1);
    // p = 0 takes the guarded path and satisfies the zero equality: the
    // query has a model and the witness is p = 0.
    let env = env_with_p(&run, 0);
    assert_eq!(
        eval_expr(&env, &queries[0].constraints[0]),
        Some(SymTy::Bool(true))
    );
    assert_eq!(
        eval_expr(&env, &queries[0].constraints[1]),
        Some(SymTy::Bool(true))
    );
    // Any other pointer value stays clear of the dereference path.
    let env9 = env_with_p(&run, 9);
    assert_eq!(
        eval_expr(&env9, &queries[0].constraints[0]),
        Some(SymTy::Bool(false))
    );
}

#[test]
fn infinite_loop_terminates_within_the_unroll_bound() {
    // One block that jumps to itself: an unbounded loop in the source.
    let b = body(
        0,
        vec![StaticTy::Int],
        vec![BasicBlockData {
            statements: vec![],
            terminator: Terminator::Goto { target: 0 },
        }],
    );
    let run = run(b);
    // The entry visit plus one node per allowed re-visit, then the path is
    // pruned once, observably.
    assert_eq!(run.sir.num_nodes(), 6);
    assert_eq!(run.pruned, 1);
}

#[test]
fn switch_guards_partition_concrete_discriminants() {
    let values = vec![1u128, 2u128];
    let discr = nullcheck::sir::Expr::Ref(Name(0));
    let (guards, otherwise) =
        build_switch_guards(&values, StaticTy::Int, &discr).unwrap();
    assert_eq!(guards.len(), 2);
    for d in [0u128, 1, 2, 3, 77] {
        let env = vec![SymTy::Integer(d)];
        let mut true_count = 0;
        for g in &guards {
            if eval_expr(&env, g) == Some(SymTy::Bool(true)) {
                true_count += 1;
            }
        }
        if eval_expr(&env, &otherwise) == Some(SymTy::Bool(true)) {
            true_count += 1;
        }
        assert_eq!(true_count, 1, "exactly one guard holds for {}", d);
    }
}

#[test]
fn moved_out_place_cannot_be_read_again() {
    // local 2 <- move p; then a later read of p must fail, not return the
    // stale name.
    let b = body(
        1,
        vec![StaticTy::Int, StaticTy::RawPtr, StaticTy::RawPtr],
        vec![BasicBlockData {
            statements: vec![
                Statement::StorageLive(2),
                Statement::Assign(Place::base_local(2), Rvalue::Use(Operand::Move(arg_place()))),
                Statement::Assign(ret_place(), Rvalue::Use(Operand::Copy(arg_place()))),
            ],
            terminator: Terminator::Return,
        }],
    );
    let r = ExecutionContext::create_from_entry(b).unwrap().evaluate();
    assert!(matches!(r, Err(ExecError::UnboundPlace)));
}

#[test]
fn repeated_deref_reuses_the_memoized_name() {
    // Two reads of *p in the same block: one tag, not two.
    let b = body(
        1,
        vec![StaticTy::Int, StaticTy::RawPtr],
        vec![BasicBlockData {
            statements: vec![
                Statement::Assign(ret_place(), Rvalue::Use(Operand::Copy(deref_arg()))),
                Statement::Assign(ret_place(), Rvalue::Use(Operand::Copy(deref_arg()))),
            ],
            terminator: Terminator::Return,
        }],
    );
    let run = run(b);
    let t = tags(&run);
    assert_eq!(t.len(), 1, "the second read must not re-tag the pointer");
    assert_eq!(t[0], (1, NodeId(0)));
}

#[test]
fn forked_branches_deref_independently() {
    // Both switch arms dereference p: each path materializes its own read,
    // so the pointer is tagged once per node where a dereference happens.
    let b = body(
        1,
        vec![StaticTy::Int, StaticTy::RawPtr],
        vec![
            BasicBlockData {
                statements: vec![],
                terminator: Terminator::SwitchInt {
                    discr: Operand::Copy(arg_place()),
                    switch_ty: StaticTy::RawPtr,
                    values: vec![0],
                    targets: vec![1, 2],
                },
            },
            BasicBlockData {
                statements: vec![Statement::Assign(
                    ret_place(),
                    Rvalue::Use(Operand::Copy(deref_arg())),
                )],
                terminator: Terminator::Return,
            },
            BasicBlockData {
                statements: vec![Statement::Assign(
                    ret_place(),
                    Rvalue::Use(Operand::Copy(deref_arg())),
                )],
                terminator: Terminator::Return,
            },
        ],
    );
    let run = run(b);
    let t = tags(&run);
    assert_eq!(t.len(), 2);
    assert_ne!(t[0].1, t[1].1, "one tag per distinct node");
    let queries = synthesize_queries(&run.sir);
    assert_eq!(queries.len(), 2);
}

#[test]
fn nested_deref_tags_each_level_once() {
    // ret <- **p: resolving the inner projection tags p, resolving the
    // outer one tags the freshly materialized pointee.
    let b = body(
        1,
        vec![StaticTy::Int, StaticTy::RawPtr],
        vec![BasicBlockData {
            statements: vec![Statement::Assign(
                ret_place(),
                Rvalue::Use(Operand::Copy(deref_arg().deref())),
            )],
            terminator: Terminator::Return,
        }],
    );
    let run = run(b);
    let t = tags(&run);
    assert_eq!(t.len(), 2);
    assert_ne!(t[0].0, t[1].0, "each level tags its own pointer name");
    assert_eq!(t[0].1, NodeId(0));
    assert_eq!(t[1].1, NodeId(0));
}

#[test]
fn call_allocates_an_unconstrained_destination() {
    // ret <- call(); the destination is rebound to a fresh unconstrained
    // name and execution continues at the next block.
    let b = body(
        0,
        vec![StaticTy::Int],
        vec![
            BasicBlockData {
                statements: vec![],
                terminator: Terminator::Call { destination: ret_place(), next: 1 },
            },
            BasicBlockData {
                statements: vec![],
                terminator: Terminator::Return,
            },
        ],
    );
    let run = run(b);
    assert_eq!(run.sir.num_nodes(), 2);
    // return slot plus the fresh call result
    assert_eq!(run.sir.num_declarations(), 2);
    assert_eq!(tags(&run).len(), 0);
}

#[test]
fn unsupported_constructs_abort_the_function() {
    let b = body(
        0,
        vec![StaticTy::Int],
        vec![BasicBlockData {
            statements: vec![Statement::Unsupported],
            terminator: Terminator::Return,
        }],
    );
    let r = ExecutionContext::create_from_entry(b).unwrap().evaluate();
    assert!(matches!(r, Err(ExecError::UnsupportedConstruct)));

    let b2 = body(
        0,
        vec![StaticTy::Int],
        vec![BasicBlockData {
            statements: vec![],
            terminator: Terminator::Unsupported,
        }],
    );
    let r2 = ExecutionContext::create_from_entry(b2).unwrap().evaluate();
    assert!(matches!(r2, Err(ExecError::UnsupportedConstruct)));
}

#[test]
fn unsupported_local_type_aborts_before_exploring() {
    let b = FnBody {
        def_id: FN_ID,
        span: SourceSpan { lo: 0, hi: 0 },
        arg_count: 1,
        local_types: vec![StaticTy::Int, StaticTy::Unsupported],
        blocks: vec![BasicBlockData {
            statements: vec![],
            terminator: Terminator::Return,
        }],
    };
    assert!(b.check());
    let r = ExecutionContext::create_from_entry(b);
    assert!(matches!(r, Err(ExecError::UnsupportedConstruct)));
}

#[test]
fn storage_dead_unbinds_the_local() {
    let b = body(
        0,
        vec![StaticTy::Int, StaticTy::Int],
        vec![BasicBlockData {
            statements: vec![
                Statement::StorageLive(1),
                Statement::StorageDead(1),
                Statement::Assign(ret_place(), Rvalue::Use(Operand::Copy(Place::base_local(1)))),
            ],
            terminator: Terminator::Return,
        }],
    );
    let r = ExecutionContext::create_from_entry(b).unwrap().evaluate();
    assert!(matches!(r, Err(ExecError::UnboundPlace)));
}

#[test]
fn malformed_bodies_fail_the_check() {
    let stray_target = FnBody {
        def_id: FN_ID,
        span: SourceSpan { lo: 0, hi: 0 },
        arg_count: 0,
        local_types: vec![StaticTy::Int],
        blocks: vec![BasicBlockData {
            statements: vec![],
            terminator: Terminator::Goto { target: 4 },
        }],
    };
    assert!(!stray_target.check());
    let no_blocks = FnBody {
        def_id: FN_ID,
        span: SourceSpan { lo: 0, hi: 0 },
        arg_count: 0,
        local_types: vec![StaticTy::Int],
        blocks: vec![],
    };
    assert!(!no_blocks.check());
    let missing_arg_slot = FnBody {
        def_id: FN_ID,
        span: SourceSpan { lo: 0, hi: 0 },
        arg_count: 1,
        local_types: vec![StaticTy::Int],
        blocks: vec![BasicBlockData {
            statements: vec![],
            terminator: Terminator::Return,
        }],
    };
    assert!(!missing_arg_slot.check());
}

#[test]
fn assert_terminator_records_the_expectation() {
    // assert(flag == true) then return; the assertion is recorded as a
    // fact on the path, not forked.
    let b = body(
        1,
        vec![StaticTy::Int, StaticTy::Bool],
        vec![
            BasicBlockData {
                statements: vec![],
                terminator: Terminator::Assert {
                    cond: Operand::Copy(arg_place()),
                    expected: true,
                    target: 1,
                },
            },
            BasicBlockData {
                statements: vec![],
                terminator: Terminator::Return,
            },
        ],
    );
    let run = run(b);
    assert_eq!(run.sir.num_nodes(), 2);
    let node = run.sir.get_node(NodeId(0));
    assert_eq!(node.to_smt(), "(= true x1 )");
}
