//! The typed intermediate representation: functions made of blocks of instructions.
pub mod def;
pub mod typ;

use crate::strings::{Interner, StrId};
use def::{DefId, Defs};
use typ::{TypId, Typs};
use vstd::prelude::*;
use vstd::string::StringExecFns;

verus! {

/// A temporary value of a function body; temporaries are numbered from 1.
#[derive(Debug, Clone, Copy, PartialEq, Eq, Hash, Structural)]
pub struct Temp(u32);

impl Temp {
    /// The number of the temporary.
    pub closed spec fn value(self) -> u32 {
        self.0
    }

    /// The number of the temporary.
    pub fn get(self) -> (r: u32)
        ensures
            r == self.value(),
    {
        self.0
    }
}

/// Hands out fresh temporaries, in order, from 1.
pub struct TempBuilder {
    tmp: u32,
}

impl TempBuilder {
    /// The number of the next temporary.
    pub closed spec fn next(&self) -> u32 {
        self.tmp
    }

    pub fn new() -> (r: Self)
        ensures
            r.next() == 1,
    {
        TempBuilder { tmp: 1 }
    }

    /// The next temporary; the numbers must not run out.
    pub fn inc(&mut self) -> (r: Temp)
        requires
            old(self).next() < u32::MAX,
        ensures
            r.value() == old(self).next(),
            final(self).next() == old(self).next() + 1,
    {
        let tmp = Temp(self.tmp);
        self.tmp = self.tmp + 1;
        tmp
    }
}

/// An operand: a temporary, a definition, an integer constant or an interned string.
#[derive(Debug)]
pub enum Value {
    Tmp(Temp),
    Def(DefId),
    ConstInt(u32),
    Str(StrId),
}

impl From<Temp> for Value {
    fn from(value: Temp) -> (r: Self) {
        Value::Tmp(value)
    }
}

impl vstd::std_specs::convert::FromSpecImpl<Temp> for Value {
    open spec fn obeys_from_spec() -> bool {
        true
    }

    open spec fn from_spec(v: Temp) -> Self {
        Value::Tmp(v)
    }
}

impl From<u32> for Value {
    fn from(value: u32) -> (r: Self) {
        Value::ConstInt(value)
    }
}

impl vstd::std_specs::convert::FromSpecImpl<u32> for Value {
    open spec fn obeys_from_spec() -> bool {
        true
    }

    open spec fn from_spec(v: u32) -> Self {
        Value::ConstInt(v)
    }
}

impl From<DefId> for Value {
    fn from(value: DefId) -> (r: Self) {
        Value::Def(value)
    }
}

impl vstd::std_specs::convert::FromSpecImpl<DefId> for Value {
    open spec fn obeys_from_spec() -> bool {
        true
    }

    open spec fn from_spec(v: DefId) -> Self {
        Value::Def(v)
    }
}

impl From<StrId> for Value {
    fn from(value: StrId) -> (r: Self) {
        Value::Str(value)
    }
}

impl vstd::std_specs::convert::FromSpecImpl<StrId> for Value {
    open spec fn obeys_from_spec() -> bool {
        true
    }

    open spec fn from_spec(v: StrId) -> Self {
        Value::Str(v)
    }
}

/// An instruction of a block.
#[derive(Debug)]
pub enum Instr {
    Load { dst: Temp, src: DefId },
    Store { dst: DefId, src: Value },
    Return { val: Option<Value> },
    Jump { blk: u32 },
    JumpCond { cond: Value, then_blk: u32, else_blk: u32 },
    Cmp { dst: Temp, lhs: Value, rhs: Value, op: CmpOp },
    BinOp { dst: Temp, lhs: Value, rhs: Value, op: BinOp },
    Call { dst: Temp, callee: Value, args: Vec<Value> },
    Index { dst: Temp, base: Value, index: Value, typ: TypId },
}

/// A comparison.
#[derive(Debug, Clone, Copy, PartialEq, Eq, Structural)]
pub enum CmpOp {
    Eq,
    Ne,
    Lt,
    Gt,
    Le,
    Ge,
}

/// An arithmetic operation.
#[derive(Debug, Clone, Copy, PartialEq, Eq, Structural)]
pub enum BinOp {
    Add,
    Sub,
    Mul,
    Div,
}

/// A named block of instructions, run in order.
#[derive(Debug)]
pub struct Block {
    pub name: String,
    pub instrs: Vec<Instr>,
}

impl Block {
    /// An empty block called `name`.
    pub fn new(name: &str) -> (r: Self)
        ensures
            r.name@ == name@,
            r.instrs@.len() == 0,
    {
        Block { name: String::from_str(name), instrs: Vec::new() }
    }

    pub fn build_load(&mut self, dst: Temp, src: DefId)
        ensures
            final(self).name == old(self).name,
            final(self).instrs@ == old(self).instrs@.push(Instr::Load { dst, src }),
    {
        self.instrs.push(Instr::Load { dst, src });
    }

    pub fn build_store(&mut self, dst: DefId, src: Value)
        ensures
            final(self).name == old(self).name,
            final(self).instrs@ == old(self).instrs@.push(Instr::Store { dst, src }),
    {
        self.instrs.push(Instr::Store { dst, src });
    }

    pub fn build_return(&mut self, val: Option<Value>)
        ensures
            final(self).name == old(self).name,
            final(self).instrs@ == old(self).instrs@.push(Instr::Return { val }),
    {
        self.instrs.push(Instr::Return { val });
    }

    pub fn build_jump(&mut self, blk: u32)
        ensures
            final(self).name == old(self).name,
            final(self).instrs@ == old(self).instrs@.push(Instr::Jump { blk }),
    {
        self.instrs.push(Instr::Jump { blk });
    }

    pub fn build_jump_cond(&mut self, cond: Value, then_blk: u32, else_blk: u32)
        ensures
            final(self).name == old(self).name,
            final(self).instrs@ == old(self).instrs@.push(Instr::JumpCond { cond, then_blk, else_blk }),
    {
        self.instrs.push(Instr::JumpCond { cond, then_blk, else_blk });
    }

    pub fn build_cmp(&mut self, dst: Temp, lhs: Value, rhs: Value, op: CmpOp)
        ensures
            final(self).name == old(self).name,
            final(self).instrs@ == old(self).instrs@.push(Instr::Cmp { dst, lhs, rhs, op }),
    {
        self.instrs.push(Instr::Cmp { dst, lhs, rhs, op });
    }

    pub fn build_binop(&mut self, dst: Temp, lhs: Value, rhs: Value, op: BinOp)
        ensures
            final(self).name == old(self).name,
            final(self).instrs@ == old(self).instrs@.push(Instr::BinOp { dst, lhs, rhs, op }),
    {
        self.instrs.push(Instr::BinOp { dst, lhs, rhs, op });
    }

    pub fn build_call(&mut self, dst: Temp, callee: Value, args: Vec<Value>)
        ensures
            final(self).name == old(self).name,
            final(self).instrs@ == old(self).instrs@.push(Instr::Call { dst, callee, args }),
    {
        self.instrs.push(Instr::Call { dst, callee, args });
    }

    pub fn build_index(&mut self, dst: Temp, base: Value, index: Value, typ: TypId)
        ensures
            final(self).name == old(self).name,
            final(self).instrs@ == old(self).instrs@.push(Instr::Index { dst, base, index, typ }),
    {
        self.instrs.push(Instr::Index { dst, base, index, typ });
    }
}

/// A function: its definition, its parameters, and its body if it has one.
#[derive(Debug)]
pub struct Fun {
    pub def: DefId,
    pub args: Vec<DefId>,
    pub body: Option<FunBody>,
}

/// The body of a function: its local variables and its blocks, the first one the entry.
#[derive(Debug)]
pub struct FunBody {
    pub locals: Vec<DefId>,
    pub blocks: Vec<Block>,
}

impl FunBody {
    /// Adds an empty block called `name` and gives its number; the numbers must not run
    /// out.
    pub fn new_block(&mut self, name: &str) -> (r: u32)
        requires
            old(self).blocks@.len() < u32::MAX,
        ensures
            r == old(self).blocks@.len(),
            final(self).locals == old(self).locals,
            final(self).blocks@.len() == old(self).blocks@.len() + 1,
            forall|i: int| 0 <= i < old(self).blocks@.len() ==> final(self).blocks@[i] == old(self).blocks@[i],
            final(self).blocks@[r as int].name@ == name@,
            final(self).blocks@[r as int].instrs@.len() == 0,
    {
        let blk = self.blocks.len() as u32;
        self.blocks.push(Block::new(name));
        blk
    }
}

/// The functions of a program, with its types and definitions.
#[derive(Debug)]
pub struct Tir {
    pub typs: Typs,
    pub defs: Defs,
    pub funs: Vec<Fun>,
}

impl Tir {
    /// The program seen together with the strings its definitions name.
    pub fn view<'a>(&'a self, interner: &'a Interner) -> (r: TirView<'a>)
        ensures
            r.tir == self,
            r.interner == interner,
    {
        TirView { tir: self, interner }
    }
}

/// A program seen together with the strings its definitions name.
#[derive(Debug, Clone, Copy)]
pub struct TirView<'a> {
    pub tir: &'a Tir,
    pub interner: &'a Interner,
}

} // verus!
