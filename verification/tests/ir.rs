use chakobsa::block::{BasicBlock, Terminator};
use chakobsa::function::Function;
use chakobsa::inst::{BinOp, InstKind, Instruction, UnOp};
use chakobsa::interp::{run, InterpError, RtValue};
use chakobsa::module::Module;
use chakobsa::types::Type;
use chakobsa::validate::{validate_function, validate_module, IrError};
use chakobsa::value::{BlockId, ValueId};

/// Assembles finished (valid or deliberately broken) functions by hand.
struct FnBuilder {
    func: Function,
    next_value: u32,
}

impl FnBuilder {
    fn new(name: &str, params: Vec<(&str, Type)>, ret_ty: Option<Type>) -> Self {
        let next_value = params.len() as u32;
        FnBuilder {
            func: Function::new(
                name,
                params.into_iter().map(|(n, t)| (n.to_string(), t)).collect(),
                ret_ty,
            ),
            next_value,
        }
    }

    fn param_value(&self, index: u32) -> ValueId {
        ValueId(index)
    }

    fn new_block(&mut self) -> BlockId {
        let id = BlockId(self.func.blocks.len() as u32);
        self.func.blocks.push(BasicBlock::new(id));
        id
    }

    fn block_mut(&mut self, block: BlockId) -> &mut BasicBlock {
        self.func.blocks.iter_mut().find(|b| b.id == block).unwrap()
    }

    fn push(&mut self, block: BlockId, ty: Type, kind: InstKind) -> ValueId {
        let id = ValueId(self.next_value);
        self.next_value += 1;
        self.block_mut(block).instructions.push(Instruction { id, ty, kind });
        id
    }

    fn push_with_id(&mut self, block: BlockId, id: ValueId, ty: Type, kind: InstKind) {
        self.block_mut(block).instructions.push(Instruction { id, ty, kind });
    }

    fn terminate(&mut self, block: BlockId, term: Terminator) {
        self.block_mut(block).terminator = Some(term);
    }

    fn set_entry(&mut self, block: BlockId) {
        self.func.entry = block;
    }

    fn finish(self) -> Function {
        self.func
    }
}

/// fn add(a: i64, b: i64) -> i64 { return a + b; }
fn build_add() -> Function {
    let mut b = FnBuilder::new("add", vec![("a", Type::I64), ("b", Type::I64)], Some(Type::I64));
    let entry = b.new_block();
    b.set_entry(entry);
    let sum = b.push(entry, Type::I64, InstKind::Bin(BinOp::Add, b.param_value(0), b.param_value(1)));
    b.terminate(entry, Terminator::Return(Some(sum)));
    b.finish()
}

/// fn abs(x: i64) -> i64 { if x < 0 { y = -x } else { y = x }; return y; }
fn build_abs() -> Function {
    let mut b = FnBuilder::new("abs", vec![("x", Type::I64)], Some(Type::I64));
    let entry = b.new_block();
    let neg_branch = b.new_block();
    let pos_branch = b.new_block();
    let join = b.new_block();
    b.set_entry(entry);
    let zero = b.push(entry, Type::I64, InstKind::ConstI64(0));
    let is_neg = b.push(entry, Type::Bool, InstKind::Bin(BinOp::CmpLt, b.param_value(0), zero));
    b.terminate(
        entry,
        Terminator::Branch { cond: is_neg, then_block: neg_branch, else_block: pos_branch },
    );
    let negated = b.push(neg_branch, Type::I64, InstKind::Un(UnOp::Neg, b.param_value(0)));
    b.terminate(neg_branch, Terminator::Jump(join));
    b.terminate(pos_branch, Terminator::Jump(join));
    let phi = b.push(
        join,
        Type::I64,
        InstKind::Phi(vec![(neg_branch, negated), (pos_branch, b.param_value(0))]),
    );
    b.terminate(join, Terminator::Return(Some(phi)));
    b.finish()
}

fn module_of(functions: Vec<Function>) -> Module {
    Module { functions }
}

#[test]
fn straight_line_arithmetic_runs() {
    let module = module_of(vec![build_add()]);
    let result = run(&module, "add", &[RtValue::I64(3), RtValue::I64(4)]).unwrap();
    assert_eq!(result, Some(RtValue::I64(7)));
}

#[test]
fn a_branch_with_a_phi_resolves_the_correct_incoming_value() {
    let module = module_of(vec![build_abs()]);
    assert_eq!(run(&module, "abs", &[RtValue::I64(-5)]).unwrap(), Some(RtValue::I64(5)));
    assert_eq!(run(&module, "abs", &[RtValue::I64(5)]).unwrap(), Some(RtValue::I64(5)));
}

#[test]
fn a_while_loop_accumulates_correctly() {
    let mut b = FnBuilder::new("sum_to", vec![("n", Type::I64)], Some(Type::I64));
    let entry = b.new_block();
    let header = b.new_block();
    let body = b.new_block();
    let exit = b.new_block();
    b.set_entry(entry);
    let zero = b.push(entry, Type::I64, InstKind::ConstI64(0));
    b.terminate(entry, Terminator::Jump(header));
    let acc_phi_id = ValueId(10);
    let i_phi_id = ValueId(11);
    b.push_with_id(header, acc_phi_id, Type::I64, InstKind::Phi(vec![]));
    b.push_with_id(header, i_phi_id, Type::I64, InstKind::Phi(vec![]));
    let cond = b.push(header, Type::Bool, InstKind::Bin(BinOp::CmpLt, i_phi_id, b.param_value(0)));
    b.terminate(header, Terminator::Branch { cond, then_block: body, else_block: exit });
    let acc_next = b.push(body, Type::I64, InstKind::Bin(BinOp::Add, acc_phi_id, i_phi_id));
    let one = b.push(body, Type::I64, InstKind::ConstI64(1));
    let i_next = b.push(body, Type::I64, InstKind::Bin(BinOp::Add, i_phi_id, one));
    b.terminate(body, Terminator::Jump(header));
    b.terminate(exit, Terminator::Return(Some(acc_phi_id)));
    let mut func = b.finish();
    for block in &mut func.blocks {
        for inst in &mut block.instructions {
            if inst.id == acc_phi_id {
                inst.kind = InstKind::Phi(vec![(entry, zero), (body, acc_next)]);
            }
            if inst.id == i_phi_id {
                inst.kind = InstKind::Phi(vec![(entry, zero), (body, i_next)]);
            }
        }
    }
    validate_function(&func).expect("hand-built loop must validate");
    let module = module_of(vec![func]);
    assert_eq!(run(&module, "sum_to", &[RtValue::I64(5)]).unwrap(), Some(RtValue::I64(10)));
    assert_eq!(run(&module, "sum_to", &[RtValue::I64(0)]).unwrap(), Some(RtValue::I64(0)));
}

#[test]
fn a_call_to_another_function_runs_it() {
    let mut callee = FnBuilder::new("double", vec![("x", Type::I64)], Some(Type::I64));
    let ce = callee.new_block();
    callee.set_entry(ce);
    let two = callee.push(ce, Type::I64, InstKind::ConstI64(2));
    let doubled = callee.push(ce, Type::I64, InstKind::Bin(BinOp::Mul, callee.param_value(0), two));
    callee.terminate(ce, Terminator::Return(Some(doubled)));
    let mut caller = FnBuilder::new("caller", vec![], Some(Type::I64));
    let cae = caller.new_block();
    caller.set_entry(cae);
    let twenty_one = caller.push(cae, Type::I64, InstKind::ConstI64(21));
    let result = caller.push(
        cae,
        Type::I64,
        InstKind::Call { func: "double".into(), args: vec![twenty_one] },
    );
    caller.terminate(cae, Terminator::Return(Some(result)));
    let module = module_of(vec![callee.finish(), caller.finish()]);
    assert_eq!(run(&module, "caller", &[]).unwrap(), Some(RtValue::I64(42)));
}

#[test]
fn division_by_zero_is_a_typed_runtime_error_not_a_panic() {
    let mut b = FnBuilder::new("f", vec![], Some(Type::I64));
    let entry = b.new_block();
    b.set_entry(entry);
    let ten = b.push(entry, Type::I64, InstKind::ConstI64(10));
    let zero = b.push(entry, Type::I64, InstKind::ConstI64(0));
    let result = b.push(entry, Type::I64, InstKind::Bin(BinOp::Div, ten, zero));
    b.terminate(entry, Terminator::Return(Some(result)));
    let module = module_of(vec![b.finish()]);
    assert_eq!(run(&module, "f", &[]), Err(InterpError::DivideByZero));
}

#[test]
fn calling_an_unknown_entry_function_is_a_typed_error() {
    let module = Module::default();
    assert_eq!(
        run(&module, "nonexistent", &[]),
        Err(InterpError::UnknownFunction("nonexistent".into()))
    );
}

#[test]
fn interp_wrong_argument_count_is_a_typed_error() {
    let module = module_of(vec![build_add()]);
    assert_eq!(
        run(&module, "add", &[RtValue::I64(1)]),
        Err(InterpError::ArgCountMismatch { func: "add".into(), expected: 2, given: 1 })
    );
}

#[test]
fn a_void_function_returns_nothing() {
    let mut b = FnBuilder::new("f", vec![], None);
    let entry = b.new_block();
    b.set_entry(entry);
    b.terminate(entry, Terminator::Return(None));
    let module = module_of(vec![b.finish()]);
    assert_eq!(run(&module, "f", &[]), Ok(None));
}

#[test]
fn remainder_by_zero_is_a_typed_runtime_error() {
    let mut b = FnBuilder::new("f", vec![("x", Type::I64)], Some(Type::I64));
    let entry = b.new_block();
    b.set_entry(entry);
    let zero = b.push(entry, Type::I64, InstKind::ConstI64(0));
    let result = b.push(entry, Type::I64, InstKind::Bin(BinOp::Mod, b.param_value(0), zero));
    b.terminate(entry, Terminator::Return(Some(result)));
    let module = module_of(vec![b.finish()]);
    assert_eq!(run(&module, "f", &[RtValue::I64(5)]), Err(InterpError::DivideByZero));
}

#[test]
fn i64_min_divided_by_minus_one_wraps() {
    let mut b = FnBuilder::new("f", vec![("x", Type::I64), ("y", Type::I64)], Some(Type::I64));
    let entry = b.new_block();
    b.set_entry(entry);
    let q = b.push(entry, Type::I64, InstKind::Bin(BinOp::Div, b.param_value(0), b.param_value(1)));
    b.terminate(entry, Terminator::Return(Some(q)));
    let module = module_of(vec![b.finish()]);
    assert_eq!(
        run(&module, "f", &[RtValue::I64(i64::MIN), RtValue::I64(-1)]),
        Ok(Some(RtValue::I64(i64::MIN)))
    );
}

#[test]
fn a_simple_straight_line_function_validates() {
    assert_eq!(validate_function(&build_add()), Ok(()));
}

#[test]
fn a_function_with_a_branch_and_matching_phi_validates() {
    assert_eq!(validate_function(&build_abs()), Ok(()));
}

#[test]
fn a_block_with_no_terminator_is_rejected() {
    let mut b = FnBuilder::new("f", vec![], Some(Type::I64));
    let entry = b.new_block();
    b.set_entry(entry);
    b.push(entry, Type::I64, InstKind::ConstI64(1));
    assert_eq!(
        validate_function(&b.finish()),
        Err(IrError::MissingTerminator { func: "f".into(), block: entry })
    );
}

#[test]
fn an_empty_block_is_rejected() {
    let mut b = FnBuilder::new("f", vec![], None);
    let entry = b.new_block();
    b.set_entry(entry);
    assert_eq!(
        validate_function(&b.finish()),
        Err(IrError::EmptyBlock { func: "f".into(), block: entry })
    );
}

#[test]
fn an_undefined_operand_is_rejected() {
    let mut b = FnBuilder::new("f", vec![], Some(Type::I64));
    let entry = b.new_block();
    b.set_entry(entry);
    let ghost = ValueId(99);
    let result = b.push(entry, Type::I64, InstKind::Un(UnOp::Neg, ghost));
    b.terminate(entry, Terminator::Return(Some(result)));
    assert_eq!(
        validate_function(&b.finish()),
        Err(IrError::UndefinedValue { func: "f".into(), block: entry, value: ghost })
    );
}

#[test]
fn a_type_mismatched_operand_is_rejected() {
    let mut b = FnBuilder::new("f", vec![], Some(Type::I64));
    let entry = b.new_block();
    b.set_entry(entry);
    let flag = b.push(entry, Type::Bool, InstKind::ConstBool(true));
    let one = b.push(entry, Type::I64, InstKind::ConstI64(1));
    let result = b.push(entry, Type::I64, InstKind::Bin(BinOp::Add, flag, one));
    b.terminate(entry, Terminator::Return(Some(result)));
    assert_eq!(
        validate_function(&b.finish()),
        Err(IrError::TypeMismatch {
            func: "f".into(),
            block: entry,
            value: flag,
            expected: Type::I64,
            actual: Type::Bool,
        })
    );
}

#[test]
fn a_phi_with_wrong_incoming_count_is_rejected() {
    let mut b = FnBuilder::new("f", vec![], Some(Type::I64));
    let entry = b.new_block();
    let a = b.new_block();
    let bb = b.new_block();
    let join = b.new_block();
    b.set_entry(entry);
    let cond = b.push(entry, Type::Bool, InstKind::ConstBool(true));
    b.terminate(entry, Terminator::Branch { cond, then_block: a, else_block: bb });
    let one = b.push(a, Type::I64, InstKind::ConstI64(1));
    b.terminate(a, Terminator::Jump(join));
    b.terminate(bb, Terminator::Jump(join));
    let phi = b.push(join, Type::I64, InstKind::Phi(vec![(a, one)]));
    b.terminate(join, Terminator::Return(Some(phi)));
    assert_eq!(
        validate_function(&b.finish()),
        Err(IrError::PhiArityMismatch {
            func: "f".into(),
            block: join,
            value: phi,
            expected: 2,
            given: 1,
        })
    );
}

#[test]
fn a_phi_naming_a_block_that_is_not_a_predecessor_is_rejected() {
    let mut b = FnBuilder::new("f", vec![], Some(Type::I64));
    let entry = b.new_block();
    let join = b.new_block();
    b.set_entry(entry);
    let one = b.push(entry, Type::I64, InstKind::ConstI64(1));
    b.terminate(entry, Terminator::Jump(join));
    let phi = b.push(join, Type::I64, InstKind::Phi(vec![(join, one)]));
    b.terminate(join, Terminator::Return(Some(phi)));
    assert_eq!(
        validate_function(&b.finish()),
        Err(IrError::PhiUnknownPredecessor { func: "f".into(), block: join, value: phi, named: join })
    );
}

#[test]
fn jumping_to_an_unknown_block_is_rejected() {
    let mut b = FnBuilder::new("f", vec![], None);
    let entry = b.new_block();
    b.set_entry(entry);
    let ghost_block = BlockId(77);
    b.terminate(entry, Terminator::Jump(ghost_block));
    assert_eq!(
        validate_function(&b.finish()),
        Err(IrError::UnknownBlock { func: "f".into(), block: entry, target: ghost_block })
    );
}

#[test]
fn returning_a_value_from_a_void_function_is_rejected() {
    let mut b = FnBuilder::new("f", vec![], None);
    let entry = b.new_block();
    b.set_entry(entry);
    let one = b.push(entry, Type::I64, InstKind::ConstI64(1));
    b.terminate(entry, Terminator::Return(Some(one)));
    assert_eq!(
        validate_function(&b.finish()),
        Err(IrError::UnexpectedReturnValue { func: "f".into(), block: entry })
    );
}

#[test]
fn returning_nothing_from_a_non_void_function_is_rejected() {
    let mut b = FnBuilder::new("f", vec![], Some(Type::I64));
    let entry = b.new_block();
    b.set_entry(entry);
    b.terminate(entry, Terminator::Return(None));
    assert_eq!(
        validate_function(&b.finish()),
        Err(IrError::MissingReturnValue { func: "f".into(), block: entry, expected: Type::I64 })
    );
}

#[test]
fn a_duplicate_value_id_is_rejected() {
    let mut b = FnBuilder::new("f", vec![], Some(Type::I64));
    let entry = b.new_block();
    b.set_entry(entry);
    let dup = ValueId(0);
    b.push_with_id(entry, dup, Type::I64, InstKind::ConstI64(1));
    b.push_with_id(entry, dup, Type::I64, InstKind::ConstI64(2));
    b.terminate(entry, Terminator::Return(Some(dup)));
    assert_eq!(
        validate_function(&b.finish()),
        Err(IrError::DuplicateValue { func: "f".into(), value: dup })
    );
}

#[test]
fn a_duplicate_block_id_is_rejected() {
    let mut b = FnBuilder::new("f", vec![], None);
    let entry = b.new_block();
    b.set_entry(entry);
    b.terminate(entry, Terminator::Return(None));
    let mut func = b.finish();
    let copy = func.blocks[0].clone();
    func.blocks.push(copy);
    assert_eq!(
        validate_function(&func),
        Err(IrError::DuplicateBlock { func: "f".into(), block: entry })
    );
}

#[test]
fn an_unknown_entry_block_is_rejected() {
    let mut b = FnBuilder::new("f", vec![], None);
    let real = b.new_block();
    b.terminate(real, Terminator::Return(None));
    b.set_entry(BlockId(42));
    assert_eq!(
        validate_function(&b.finish()),
        Err(IrError::UnknownEntryBlock { func: "f".into(), block: BlockId(42) })
    );
}

/// fn callee(x: i64) -> i64 { return x; }
/// fn caller() -> i64 { return callee(41); }
fn build_caller_callee() -> Module {
    let mut cb = FnBuilder::new("callee", vec![("x", Type::I64)], Some(Type::I64));
    let cb_entry = cb.new_block();
    cb.set_entry(cb_entry);
    cb.terminate(cb_entry, Terminator::Return(Some(cb.param_value(0))));
    let mut ca = FnBuilder::new("caller", vec![], Some(Type::I64));
    let ca_entry = ca.new_block();
    ca.set_entry(ca_entry);
    let forty_one = ca.push(ca_entry, Type::I64, InstKind::ConstI64(41));
    let result = ca.push(
        ca_entry,
        Type::I64,
        InstKind::Call { func: "callee".into(), args: vec![forty_one] },
    );
    ca.terminate(ca_entry, Terminator::Return(Some(result)));
    module_of(vec![cb.finish(), ca.finish()])
}

#[test]
fn a_well_formed_call_validates() {
    assert_eq!(validate_module(&build_caller_callee()), Ok(()));
}

#[test]
fn calling_an_unknown_function_is_rejected() {
    let mut b = FnBuilder::new("caller", vec![], Some(Type::I64));
    let entry = b.new_block();
    b.set_entry(entry);
    let result = b.push(entry, Type::I64, InstKind::Call { func: "nonexistent".into(), args: vec![] });
    b.terminate(entry, Terminator::Return(Some(result)));
    let module = module_of(vec![b.finish()]);
    assert_eq!(
        validate_module(&module),
        Err(IrError::UnknownCallee {
            func: "caller".into(),
            block: BlockId(0),
            callee: "nonexistent".into(),
        })
    );
}

#[test]
fn calling_with_the_wrong_argument_count_is_rejected() {
    let mut module = build_caller_callee();
    if let InstKind::Call { args, .. } = &mut module.functions[1].blocks[0].instructions[1].kind {
        args.clear();
    }
    assert_eq!(
        validate_module(&module),
        Err(IrError::CallArityMismatch {
            func: "caller".into(),
            block: BlockId(0),
            callee: "callee".into(),
            expected: 1,
            given: 0,
        })
    );
}

#[test]
fn calling_a_void_function_and_using_the_result_is_rejected() {
    let mut cb = FnBuilder::new("log", vec![], None);
    let cb_entry = cb.new_block();
    cb.set_entry(cb_entry);
    cb.terminate(cb_entry, Terminator::Return(None));
    let mut ca = FnBuilder::new("caller", vec![], Some(Type::I64));
    let ca_entry = ca.new_block();
    ca.set_entry(ca_entry);
    let result = ca.push(ca_entry, Type::I64, InstKind::Call { func: "log".into(), args: vec![] });
    ca.terminate(ca_entry, Terminator::Return(Some(result)));
    let module = module_of(vec![cb.finish(), ca.finish()]);
    assert_eq!(
        validate_module(&module),
        Err(IrError::CallToVoidFunctionUsedAsValue {
            func: "caller".into(),
            block: BlockId(0),
            callee: "log".into(),
        })
    );
}

#[test]
fn a_call_result_of_the_wrong_type_is_rejected() {
    let mut module = build_caller_callee();
    module.functions[1].blocks[0].instructions[1].ty = Type::Bool;
    assert_eq!(
        validate_module(&module),
        Err(IrError::TypeMismatch {
            func: "caller".into(),
            block: BlockId(0),
            value: ValueId(1),
            expected: Type::I64,
            actual: Type::Bool,
        })
    );
}

#[test]
fn corrupting_an_operand_reference_is_caught_as_undefined_value() {
    let mut func = build_add();
    if let InstKind::Bin(_, lhs, _) = &mut func.blocks[0].instructions[0].kind {
        *lhs = ValueId(1500);
    }
    assert_eq!(
        validate_function(&func),
        Err(IrError::UndefinedValue { func: "add".into(), block: BlockId(0), value: ValueId(1500) })
    );
}
