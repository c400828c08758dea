use rix::arena::ArenaId;
use rix::tir::{Block, CmpOp, FunBody, Instr, TempBuilder, Value};

#[test]
fn temporaries_are_numbered_from_one() {
    let mut tmps = TempBuilder::new();
    assert_eq!(tmps.inc().get(), 1);
    assert_eq!(tmps.inc().get(), 2);
    assert_eq!(tmps.inc().get(), 3);
}

#[test]
fn blocks_collect_instructions_in_order() {
    let mut body = FunBody { locals: vec![], blocks: vec![Block::new("entry")] };
    let then_blk = body.new_block("if.then");
    let end_blk = body.new_block("if.end");
    assert_eq!(then_blk, 1);
    assert_eq!(end_blk, 2);
    assert_eq!(body.blocks[2].name, "if.end");
    let mut tmps = TempBuilder::new();
    let t = tmps.inc();
    let entry = &mut body.blocks[0];
    entry.build_load(t, ArenaId::new(0));
    entry.build_cmp(tmps.inc(), Value::from(t), Value::from(3u32), CmpOp::Lt);
    entry.build_jump_cond(Value::Tmp(t), then_blk, end_blk);
    assert_eq!(entry.instrs.len(), 3);
    assert!(matches!(entry.instrs[0], Instr::Load { .. }));
    assert!(matches!(entry.instrs[1], Instr::Cmp { op: CmpOp::Lt, .. }));
    assert!(matches!(entry.instrs[2], Instr::JumpCond { then_blk: 1, else_blk: 2, .. }));
    body.blocks[1].build_jump(end_blk);
    body.blocks[2].build_return(None);
    assert!(matches!(body.blocks[1].instrs[0], Instr::Jump { blk: 2 }));
    assert!(matches!(body.blocks[2].instrs[0], Instr::Return { val: None }));
}
