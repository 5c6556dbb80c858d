use chakobsa::block::Terminator;
use chakobsa::inst::InstKind;
use chakobsa::ssa_builder::SsaBuilder;
use chakobsa::types::Type;
use chakobsa::value::ValueId;

fn two_params() -> SsaBuilder {
    SsaBuilder::new(
        "f".to_string(),
        vec![("x".to_string(), Type::I64), ("y".to_string(), Type::Bool)],
        Some(Type::I64),
    )
}

#[test]
fn parameters_are_bound_to_the_first_values_in_the_entry_block() {
    let mut b = two_params();
    let entry = b.entry();
    assert_eq!(b.read_variable("y", entry, Type::Bool), ValueId(1));
    assert_eq!(b.read_variable("x", entry, Type::I64), ValueId(0));
    let c = b.emit(entry, Type::I64, InstKind::ConstI64(5));
    assert_eq!(c, ValueId(2));
}

#[test]
fn a_read_in_a_block_that_binds_the_variable_returns_that_binding() {
    let mut b = two_params();
    let entry = b.entry();
    let c = b.emit(entry, Type::I64, InstKind::ConstI64(7));
    b.write_variable("x", entry, c);
    assert_eq!(b.read_variable("x", entry, Type::I64), c);
    assert_eq!(b.read_variable("y", entry, Type::Bool), ValueId(1));
}

#[test]
fn a_read_through_a_single_predecessor_finds_its_binding_without_a_phi() {
    let mut b = two_params();
    let entry = b.entry();
    let next = b.new_block();
    b.terminate(entry, Terminator::Jump(next));
    b.seal_block(next);
    assert_eq!(b.read_variable("x", next, Type::I64), ValueId(0));
    b.terminate(next, Terminator::Return(Some(ValueId(0))));
    let f = b.finish();
    assert!(f.blocks[1].instructions.is_empty());
}

#[test]
fn a_read_in_an_unsealed_block_makes_a_phi_filled_in_at_sealing() {
    let mut b = two_params();
    let entry = b.entry();
    let header = b.new_block();
    b.terminate(entry, Terminator::Jump(header));
    let v = b.read_variable("x", header, Type::I64);
    assert_eq!(v, ValueId(2));
    let body = b.new_block();
    let exit = b.new_block();
    b.terminate(header, Terminator::Branch { cond: ValueId(1), then_block: body, else_block: exit });
    b.seal_block(body);
    b.seal_block(exit);
    let one = b.emit(body, Type::I64, InstKind::ConstI64(1));
    b.write_variable("x", body, one);
    b.terminate(body, Terminator::Jump(header));
    b.seal_block(header);
    b.terminate(exit, Terminator::Return(Some(v)));
    let f = b.finish();
    let phi = &f.blocks[1].instructions[0];
    assert_eq!(phi.id, v);
    assert_eq!(phi.ty, Type::I64);
    match &phi.kind {
        InstKind::Phi(inc) => assert_eq!(inc, &vec![(entry, ValueId(0)), (body, one)]),
        other => panic!("expected a phi, got {other:?}"),
    }
}

#[test]
fn a_read_at_a_join_of_two_predecessors_makes_a_phi_over_both() {
    let mut b = two_params();
    let entry = b.entry();
    let left = b.new_block();
    let right = b.new_block();
    b.terminate(entry, Terminator::Branch { cond: ValueId(1), then_block: left, else_block: right });
    b.seal_block(left);
    b.seal_block(right);
    let l = b.emit(left, Type::I64, InstKind::ConstI64(10));
    b.write_variable("x", left, l);
    let join = b.new_block();
    b.terminate(left, Terminator::Jump(join));
    b.terminate(right, Terminator::Jump(join));
    b.seal_block(join);
    let v = b.read_variable("x", join, Type::I64);
    assert_eq!(b.read_variable("x", join, Type::I64), v);
    b.terminate(join, Terminator::Return(Some(v)));
    let f = b.finish();
    match &f.blocks[3].instructions[0].kind {
        InstKind::Phi(inc) => assert_eq!(inc, &vec![(left, l), (right, ValueId(0))]),
        other => panic!("expected a phi, got {other:?}"),
    }
}
