use cambridge_asm::context::{Context, Io};
use cambridge_asm::error::RtError;
use cambridge_asm::inst::Op;
use cambridge_asm::memory::Memory;
use std::collections::BTreeMap;

fn ctx_with(cells: &[(usize, usize)]) -> Context {
    let mut mem = BTreeMap::new();
    for (a, v) in cells {
        mem.insert(*a, *v);
    }
    Context::new(Memory::new(mem))
}

#[test]
fn modify_applies_function_at_target() {
    let mut ctx = ctx_with(&[(10, 4), (4, 7)]);
    ctx.modify(&Op::Addr(10), |v| v * 3).unwrap();
    assert_eq!(ctx.mem.inner().get(&10), Some(&12));
    ctx.acc = 4;
    ctx.modify(&Op::Indirect(Box::new(Op::Acc)), |v| v + 1).unwrap();
    assert_eq!(ctx.mem.inner().get(&4), Some(&8));
    assert_eq!(ctx.modify(&Op::Addr(99), |v| v), Err(RtError::InvalidAddr(99)));
    assert_eq!(ctx.modify(&Op::Null, |v| v), Err(RtError::NoOperand));
    assert_eq!(ctx.modify(&Op::Literal(3), |v| v), Err(RtError::InvalidOperand));
}

#[test]
fn read_and_registers() {
    let mut ctx = ctx_with(&[(1, 2), (2, 30)]);
    ctx.gprs[5] = 11;
    assert_eq!(ctx.read(&Op::Gpr(5)), Ok(11));
    assert_eq!(ctx.read(&Op::Indirect(Box::new(Op::Addr(1)))), Ok(30));
    assert_eq!(ctx.read(&Op::Gpr(30)), Err(RtError::InvalidOperand));
    assert_eq!(Op::Addr(2).get_val(&ctx), Ok(30));
    *ctx.get_mut_register(&Op::Ix) = 9;
    assert_eq!(ctx.get_register(&Op::Ix), 9);
    ctx.override_flow_control();
    assert!(ctx.flow_override_reg);
}

#[test]
fn memory_write_only_existing_cells() {
    let mut mem = Memory::new(BTreeMap::from([(3, 1)]));
    assert_eq!(mem.write(&3, 8), Ok(()));
    assert_eq!(mem.get(&3), Ok(&8));
    assert_eq!(mem.write(&4, 8), Err(RtError::InvalidAddr(4)));
    *mem.get_mut(&3).unwrap() = 11;
    assert_eq!(mem.get(&3), Ok(&11));
    assert!(mem.get_mut(&9).is_err());
    assert_eq!(mem.len(), 1);
}

#[test]
fn io_reads_in_order() {
    let mut io = Io::new(b"ab".to_vec());
    assert_eq!(io.read_byte(), Some(b'a'));
    assert_eq!(io.read_byte(), Some(b'b'));
    assert_eq!(io.read_byte(), None);
    io.write_bytes(b"xy");
    assert_eq!(io.output, b"xy");
}
