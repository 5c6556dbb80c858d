use chakobsa::block::Terminator;
use chakobsa::inst::InstKind;
use chakobsa::interp::{run, RtValue};
use chakobsa::lexer::{Span, TokenKind};
use chakobsa::parser::{parse, ParseError};
use chakobsa::types::Type;
use chakobsa::validate::validate_module;
use chakobsa::value::{BlockId, ValueId};

fn exec(src: &str, entry: &str, args: &[RtValue]) -> RtValue {
    let module = parse(src).unwrap_or_else(|e| panic!("parse error: {e:?}"));
    validate_module(&module).unwrap_or_else(|e| panic!("ir failed validation: {e:?}"));
    run(&module, entry, args)
        .unwrap_or_else(|e| panic!("interpreter error: {e:?}"))
        .expect("function has a return type, so it must return a value")
}

#[test]
fn programs_straight_line_arithmetic() {
    let src = "fn add(a: i64, b: i64) -> i64 { return a + b; }";
    assert_eq!(exec(src, "add", &[RtValue::I64(3), RtValue::I64(4)]), RtValue::I64(7));
}

#[test]
fn operator_precedence_matches_conventional_arithmetic() {
    let src = "fn f() -> i64 { return 2 + 3 * 4 - 1; }";
    assert_eq!(exec(src, "f", &[]), RtValue::I64(13));
}

#[test]
fn if_else_branch_and_phi() {
    let src = r#"
        fn abs(x: i64) -> i64 {
            if x < 0 {
                return -x;
            } else {
                return x;
            }
        }
    "#;
    assert_eq!(exec(src, "abs", &[RtValue::I64(-7)]), RtValue::I64(7));
    assert_eq!(exec(src, "abs", &[RtValue::I64(7)]), RtValue::I64(7));
}

#[test]
fn if_without_else_falls_through_to_a_real_phi() {
    let src = r#"
        fn clamp_positive(x: i64) -> i64 {
            let y = x;
            if x < 0 {
                y = 0;
            }
            return y;
        }
    "#;
    assert_eq!(exec(src, "clamp_positive", &[RtValue::I64(-5)]), RtValue::I64(0));
    assert_eq!(exec(src, "clamp_positive", &[RtValue::I64(5)]), RtValue::I64(5));
}

#[test]
fn programs_while_loop_with_a_loop_carried_variable() {
    let src = r#"
        fn sum_to(n: i64) -> i64 {
            let acc = 0;
            let i = 0;
            while i < n {
                acc = acc + i;
                i = i + 1;
            }
            return acc;
        }
    "#;
    assert_eq!(exec(src, "sum_to", &[RtValue::I64(5)]), RtValue::I64(10));
    assert_eq!(exec(src, "sum_to", &[RtValue::I64(0)]), RtValue::I64(0));
    assert_eq!(exec(src, "sum_to", &[RtValue::I64(1)]), RtValue::I64(0));
}

#[test]
fn programs_nested_while_loops() {
    let src = r#"
        fn count_pairs(n: i64) -> i64 {
            let count = 0;
            let i = 0;
            while i < n {
                let j = 0;
                while j < n {
                    count = count + 1;
                    j = j + 1;
                }
                i = i + 1;
            }
            return count;
        }
    "#;
    assert_eq!(exec(src, "count_pairs", &[RtValue::I64(3)]), RtValue::I64(9));
}

#[test]
fn programs_recursive_function() {
    let src = r#"
        fn fact(n: i64) -> i64 {
            if n <= 1 {
                return 1;
            } else {
                return n * fact(n - 1);
            }
        }
    "#;
    assert_eq!(exec(src, "fact", &[RtValue::I64(5)]), RtValue::I64(120));
}

#[test]
fn mutually_recursive_functions_resolve_via_the_forward_signature_pass() {
    let src = r#"
        fn is_even(n: i64) -> bool {
            if n == 0 {
                return true;
            } else {
                return is_odd(n - 1);
            }
        }
        fn is_odd(n: i64) -> bool {
            if n == 0 {
                return false;
            } else {
                return is_even(n - 1);
            }
        }
    "#;
    let module = parse(src).unwrap();
    validate_module(&module).unwrap();
    assert_eq!(run(&module, "is_even", &[RtValue::I64(10)]).unwrap(), Some(RtValue::Bool(true)));
    assert_eq!(run(&module, "is_odd", &[RtValue::I64(10)]).unwrap(), Some(RtValue::Bool(false)));
}

#[test]
fn programs_short_circuit_and_never_evaluates_the_rhs_when_the_lhs_is_false() {
    let src = r#"
        fn f(x: i64) -> bool {
            return x != 0 and 10 / x > 1;
        }
    "#;
    assert_eq!(exec(src, "f", &[RtValue::I64(0)]), RtValue::Bool(false));
    assert_eq!(exec(src, "f", &[RtValue::I64(1)]), RtValue::Bool(true));
    assert_eq!(exec(src, "f", &[RtValue::I64(20)]), RtValue::Bool(false));
}

#[test]
fn programs_short_circuit_or_never_evaluates_the_rhs_when_the_lhs_is_true() {
    let src = r#"
        fn f(x: i64) -> bool {
            return x == 0 or 10 / x > 1;
        }
    "#;
    assert_eq!(exec(src, "f", &[RtValue::I64(0)]), RtValue::Bool(true));
    assert_eq!(exec(src, "f", &[RtValue::I64(20)]), RtValue::Bool(false));
    assert_eq!(exec(src, "f", &[RtValue::I64(1)]), RtValue::Bool(true));
}

#[test]
fn programs_not_and_boolean_literals() {
    let src = "fn f(x: bool) -> bool { return not x; }";
    assert_eq!(exec(src, "f", &[RtValue::Bool(true)]), RtValue::Bool(false));
    assert_eq!(exec(src, "f", &[RtValue::Bool(false)]), RtValue::Bool(true));
}

#[test]
fn programs_a_call_used_inside_a_larger_expression() {
    let src = r#"
        fn square(x: i64) -> i64 { return x * x; }
        fn sum_of_squares(a: i64, b: i64) -> i64 { return square(a) + square(b); }
    "#;
    assert_eq!(
        exec(src, "sum_of_squares", &[RtValue::I64(3), RtValue::I64(4)]),
        RtValue::I64(25)
    );
}

#[test]
fn comments_and_whitespace_are_ignored() {
    let src =
        "// header comment\nfn f() -> i64 {\n  // body comment\n  return 42; // trailing\n}\n";
    assert_eq!(exec(src, "f", &[]), RtValue::I64(42));
}

#[test]
fn a_short_circuit_while_condition_branches_from_the_block_where_it_ends() {
    let src = "fn f(n: i64) -> i64 { let i = 0; while i < n and i < 10 { i = i + 1; } return i; }";
    let module = parse(src).unwrap();
    assert_eq!(validate_module(&module), Ok(()));
    assert_eq!(run(&module, "f", &[RtValue::I64(20)]), Ok(Some(RtValue::I64(10))));
    assert_eq!(run(&module, "f", &[RtValue::I64(4)]), Ok(Some(RtValue::I64(4))));
    let src_or = "fn g(n: i64) -> i64 { let i = 0; while i < 2 or i < n { i = i + 1; } return i; }";
    assert_eq!(exec(src_or, "g", &[RtValue::I64(0)]), RtValue::I64(2));
    assert_eq!(exec(src_or, "g", &[RtValue::I64(5)]), RtValue::I64(5));
}

#[test]
fn parsed_blocks_are_numbered_from_zero_with_the_entry_first() {
    let module = parse("fn f(x: i64) -> i64 { if x < 0 { return 0; } return x; }").unwrap();
    let f = &module.functions[0];
    assert_eq!(f.entry.0, 0);
    for (i, b) in f.blocks.iter().enumerate() {
        assert_eq!(b.id.0 as usize, i);
    }
}

#[test]
fn arithmetic_wraps_on_overflow() {
    let src = "fn f(x: i64) -> i64 { return x * 2; }";
    assert_eq!(exec(src, "f", &[RtValue::I64(i64::MAX)]), RtValue::I64(-2));
}

#[test]
fn division_truncates_toward_zero_and_remainder_keeps_the_dividends_sign() {
    let src = "fn d(a: i64, b: i64) -> i64 { return a / b; } fn m(a: i64, b: i64) -> i64 { return a % b; }";
    assert_eq!(exec(src, "d", &[RtValue::I64(-7), RtValue::I64(2)]), RtValue::I64(-3));
    assert_eq!(exec(src, "m", &[RtValue::I64(-7), RtValue::I64(2)]), RtValue::I64(-1));
}

#[test]
fn a_function_that_can_fall_off_its_end_is_rejected_at_its_closing_brace() {
    assert_eq!(
        parse("fn f() -> i64 { let x = 1; }"),
        Err(ParseError::UnexpectedToken {
            expected: "'return'".into(),
            found: TokenKind::RBrace,
            span: Span { start: 27, end: 28 },
        })
    );
    assert!(matches!(
        parse("fn f(c: bool) -> i64 { if c { return 1; } }"),
        Err(ParseError::UnexpectedToken { found: TokenKind::RBrace, .. })
    ));
    assert!(matches!(
        parse("fn f(n: i64) -> i64 { while n > 0 { return n; } }"),
        Err(ParseError::UnexpectedToken { found: TokenKind::RBrace, .. })
    ));
    let both = parse("fn f(c: bool) -> i64 { if c { return 1; } else { return 2; } }").unwrap();
    assert_eq!(validate_module(&both), Ok(()));
}

#[test]
fn an_inner_let_does_not_rebind_the_outer_variable() {
    let src = "fn f(c: bool) -> i64 { let x = 1; if c { let x = true; } return x; }";
    let module = parse(src).unwrap();
    assert_eq!(validate_module(&module), Ok(()));
    assert_eq!(run(&module, "f", &[RtValue::Bool(true)]), Ok(Some(RtValue::I64(1))));
    assert_eq!(run(&module, "f", &[RtValue::Bool(false)]), Ok(Some(RtValue::I64(1))));
    let assigned = "fn g(c: bool) -> i64 { let x = 1; if c { let y = 5; x = y + 1; } return x; }";
    assert_eq!(exec(assigned, "g", &[RtValue::Bool(true)]), RtValue::I64(6));
    assert_eq!(exec(assigned, "g", &[RtValue::Bool(false)]), RtValue::I64(1));
}

#[test]
fn every_value_a_parsed_function_reads_is_defined() {
    // Every operand names a parameter or an instruction.
    let src = r#"
        fn g(x: i64) -> i64 { return x * 2; }
        fn f(n: i64) -> i64 {
            let a = 1;
            let b = 2;
            let i = 0;
            while i < n and b > 0 {
                let t = a;
                a = b;
                b = t + g(i);
                i = i + 1;
            }
            if a > b or not (a == 3) { a = -a; }
            return a;
        }
    "#;
    let module = parse(src).unwrap();
    for f in &module.functions {
        let mut ids: Vec<u32> = (0..f.params.len() as u32).collect();
        for b in &f.blocks {
            for inst in &b.instructions {
                ids.push(inst.id.0);
            }
        }
        let defined = |v: &ValueId| ids.contains(&v.0);
        for b in &f.blocks {
            for inst in &b.instructions {
                match &inst.kind {
                    InstKind::Bin(_, x, y) => assert!(defined(x) && defined(y)),
                    InstKind::Un(_, x) => assert!(defined(x)),
                    InstKind::Call { args, .. } => assert!(args.iter().all(|a| defined(a))),
                    InstKind::Phi(inc) => assert!(inc.iter().all(|(_, v)| defined(v))),
                    InstKind::ConstI64(_) | InstKind::ConstBool(_) => {}
                }
            }
            match &b.terminator {
                Some(Terminator::Branch { cond, .. }) => assert!(defined(cond)),
                Some(Terminator::Return(Some(v))) => assert!(defined(v)),
                _ => {}
            }
        }
    }
    assert_eq!(validate_module(&module), Ok(()));
}

#[test]
fn every_phi_of_a_parsed_function_has_one_entry_per_predecessor() {
    let src = r#"
        fn f(n: i64) -> i64 {
            let a = 0;
            let b = 1;
            let i = 0;
            while i < n and b < 1000 {
                let t = a + b;
                a = b;
                b = t;
                if a > 10 { a = a - 1; } else { b = b + 1; }
                i = i + 1;
            }
            return a;
        }
    "#;
    let module = parse(src).unwrap();
    let f = &module.functions[0];
    let mut phis = 0;
    for b in &f.blocks {
        let preds: Vec<BlockId> = f
            .blocks
            .iter()
            .filter(|x| match &x.terminator {
                Some(Terminator::Jump(t)) => *t == b.id,
                Some(Terminator::Branch { then_block, else_block, .. }) => *then_block == b.id || *else_block == b.id,
                _ => false,
            })
            .map(|x| x.id)
            .collect();
        for inst in &b.instructions {
            if let InstKind::Phi(inc) = &inst.kind {
                phis += 1;
                assert_eq!(inc.len(), preds.len());
                assert!(inc.iter().all(|(from, _)| preds.contains(from)));
            }
        }
    }
    assert!(phis > 0);
    assert_eq!(validate_module(&module), Ok(()));
}

#[test]
fn an_empty_source_is_a_module_without_functions() {
    assert_eq!(parse("").unwrap().functions.len(), 0);
    assert_eq!(parse("  // nothing here\n").unwrap().functions.len(), 0);
}

#[test]
fn functions_keep_their_declared_order_parameters_and_return_types() {
    let src = "fn g(a: i64, flag: bool) -> bool { return flag; } fn f() -> i64 { return 1; }";
    let module = parse(src).unwrap();
    assert_eq!(module.functions.len(), 2);
    let g = &module.functions[0];
    assert_eq!(g.name, "g");
    assert_eq!(g.params, vec![("a".to_string(), Type::I64), ("flag".to_string(), Type::Bool)]);
    assert_eq!(g.ret_ty, Some(Type::Bool));
    assert_eq!(g.entry, BlockId(0));
    let f = &module.functions[1];
    assert_eq!(f.name, "f");
    assert!(f.params.is_empty());
    assert_eq!(f.ret_ty, Some(Type::I64));
    assert_eq!(validate_module(&module), Ok(()));
}

#[test]
fn and_or_become_branches_and_phis_not_instructions() {
    let src = "fn f(a: bool, b: bool) -> bool { return a and b or not a; }";
    let module = parse(src).unwrap();
    assert_eq!(validate_module(&module), Ok(()));
    let f = &module.functions[0];
    let mut phis = 0;
    for b in &f.blocks {
        for inst in &b.instructions {
            match &inst.kind {
                InstKind::Phi(_) => phis += 1,
                InstKind::Bin(op, _, _) => panic!("unexpected binary instruction {op:?}"),
                _ => {}
            }
        }
    }
    // One phi per `and` and `or`, and one for reading `a` where the `and` joins.
    assert_eq!(phis, 3);
    for (a, b, want) in [(true, true, true), (true, false, false), (false, true, true), (false, false, true)] {
        assert_eq!(run(&module, "f", &[RtValue::Bool(a), RtValue::Bool(b)]), Ok(Some(RtValue::Bool(want))));
    }
}

#[test]
fn an_or_of_two_literals_branches_to_a_short_block_and_joins_in_a_phi() {
    let module = parse("fn f() -> bool { return true or false; }").unwrap();
    let f = &module.functions[0];
    assert_eq!(f.blocks.len(), 4);
    let lhs = f.blocks[0].instructions[0].id;
    assert_eq!(f.blocks[0].instructions.len(), 1);
    assert_eq!(f.blocks[0].instructions[0].kind, InstKind::ConstBool(true));
    assert_eq!(
        f.blocks[0].terminator,
        Some(Terminator::Branch { cond: lhs, then_block: BlockId(1), else_block: BlockId(2) })
    );
    assert_eq!(f.blocks[1].instructions.len(), 1);
    assert_eq!(f.blocks[1].instructions[0].kind, InstKind::ConstBool(true));
    assert_eq!(f.blocks[1].terminator, Some(Terminator::Jump(BlockId(3))));
    assert_eq!(f.blocks[2].instructions.len(), 1);
    assert_eq!(f.blocks[2].instructions[0].kind, InstKind::ConstBool(false));
    assert_eq!(f.blocks[2].terminator, Some(Terminator::Jump(BlockId(3))));
    let short = f.blocks[1].instructions[0].id;
    let rhs = f.blocks[2].instructions[0].id;
    assert_eq!(f.blocks[3].instructions.len(), 1);
    assert_eq!(f.blocks[3].instructions[0].ty, Type::Bool);
    assert_eq!(f.blocks[3].instructions[0].kind, InstKind::Phi(vec![(BlockId(1), short), (BlockId(2), rhs)]));
    assert_eq!(f.blocks[3].terminator, Some(Terminator::Return(Some(f.blocks[3].instructions[0].id))));
    assert_eq!(run(&module, "f", &[]), Ok(Some(RtValue::Bool(true))));
}

#[test]
fn an_and_of_two_literals_branches_to_the_right_side_when_the_left_is_true() {
    let module = parse("fn f() -> bool { return false and true; }").unwrap();
    let f = &module.functions[0];
    assert_eq!(f.blocks.len(), 4);
    let lhs = f.blocks[0].instructions[0].id;
    assert_eq!(f.blocks[0].instructions[0].kind, InstKind::ConstBool(false));
    assert_eq!(
        f.blocks[0].terminator,
        Some(Terminator::Branch { cond: lhs, then_block: BlockId(2), else_block: BlockId(1) })
    );
    assert_eq!(f.blocks[1].instructions.len(), 1);
    assert_eq!(f.blocks[1].instructions[0].kind, InstKind::ConstBool(false));
    assert_eq!(f.blocks[2].instructions.len(), 1);
    assert_eq!(f.blocks[2].instructions[0].kind, InstKind::ConstBool(true));
    let short = f.blocks[1].instructions[0].id;
    let rhs = f.blocks[2].instructions[0].id;
    assert_eq!(f.blocks[3].instructions[0].kind, InstKind::Phi(vec![(BlockId(1), short), (BlockId(2), rhs)]));
    assert_eq!(run(&module, "f", &[]), Ok(Some(RtValue::Bool(false))));
}

#[test]
fn an_if_whose_arms_both_return_puts_each_arm_in_its_own_block_and_makes_no_join() {
    let module = parse("fn f() -> i64 { if true { return 1; } else { return 2; } }").unwrap();
    let f = &module.functions[0];
    assert_eq!(f.blocks.len(), 3);
    let cond = f.blocks[0].instructions[0].id;
    assert_eq!(f.blocks[0].instructions[0].kind, InstKind::ConstBool(true));
    assert_eq!(
        f.blocks[0].terminator,
        Some(Terminator::Branch { cond, then_block: BlockId(1), else_block: BlockId(2) })
    );
    assert_eq!(f.blocks[1].instructions.len(), 1);
    assert_eq!(f.blocks[1].instructions[0].kind, InstKind::ConstI64(1));
    assert_eq!(f.blocks[1].terminator, Some(Terminator::Return(Some(f.blocks[1].instructions[0].id))));
    assert_eq!(f.blocks[2].instructions.len(), 1);
    assert_eq!(f.blocks[2].instructions[0].kind, InstKind::ConstI64(2));
    assert_eq!(f.blocks[2].terminator, Some(Terminator::Return(Some(f.blocks[2].instructions[0].id))));
    assert_eq!(validate_module(&module), Ok(()));
    assert_eq!(run(&module, "f", &[]), Ok(Some(RtValue::I64(1))));
}

#[test]
fn a_function_returning_a_literal_becomes_one_block_that_returns_the_constant() {
    let module = parse("fn seven() -> i64 { return 7; }").unwrap();
    assert_eq!(module.functions.len(), 1);
    let f = &module.functions[0];
    assert_eq!(f.name, "seven");
    assert!(f.params.is_empty());
    assert_eq!(f.ret_ty, Some(Type::I64));
    assert_eq!(f.entry, BlockId(0));
    assert_eq!(f.blocks.len(), 1);
    assert_eq!(f.blocks[0].instructions.len(), 1);
    assert_eq!(f.blocks[0].instructions[0].kind, InstKind::ConstI64(7));
    assert_eq!(f.blocks[0].instructions[0].ty, Type::I64);
    assert_eq!(f.blocks[0].terminator, Some(Terminator::Return(Some(f.blocks[0].instructions[0].id))));
    let module = parse("fn no() -> bool { return false; }").unwrap();
    assert_eq!(module.functions[0].blocks[0].instructions[0].kind, InstKind::ConstBool(false));
    assert_eq!(run(&module, "no", &[]), Ok(Some(RtValue::Bool(false))));
}

#[test]
fn a_call_with_literal_arguments_passes_their_constants_in_order() {
    let module =
        parse("fn sub(a: i64, b: i64) -> i64 { return a - b; } fn g() -> i64 { return sub(5, 2); }").unwrap();
    let g = &module.functions[1];
    let insts = &g.blocks[0].instructions;
    assert_eq!(insts.len(), 3);
    assert_eq!(insts[0].kind, InstKind::ConstI64(5));
    assert_eq!(insts[1].kind, InstKind::ConstI64(2));
    assert_eq!(insts[2].kind, InstKind::Call { func: "sub".to_string(), args: vec![insts[0].id, insts[1].id] });
    assert_eq!(insts[2].ty, Type::I64);
    assert_eq!(run(&module, "g", &[]), Ok(Some(RtValue::I64(3))));
}

#[test]
fn a_parenthesised_literal_is_the_literal_itself() {
    let module = parse("fn h() -> i64 { return (4); }").unwrap();
    let insts = &module.functions[0].blocks[0].instructions;
    assert_eq!(insts.len(), 1);
    assert_eq!(insts[0].kind, InstKind::ConstI64(4));
    assert_eq!(
        module.functions[0].blocks[0].terminator,
        Some(Terminator::Return(Some(insts[0].id)))
    );
}
