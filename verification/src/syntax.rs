//! Instructions, the conditions they test and the assertions they rely on.
use vstd::prelude::*;
use crate::type_encoding::{TypeEncoding, TypeGroup};

verus! {

/// Comparison operators of conditional jumps.
#[derive(Clone, Copy, Debug, PartialEq, Eq, Structural)]
pub enum ConditionOp {
    EQ,
    NE,
    SET,
    NSET,
    LT,
    LE,
    GT,
    GE,
    SLT,
    SLE,
    SGT,
    SGE,
}

/// A register.
#[derive(Clone, Copy, Debug, PartialEq, Eq, Structural)]
pub struct Reg {
    pub v: u8,
}

impl Reg {
    /// The registers of the machine and the scratch register of atomic operations.
    pub open spec fn ok(self) -> bool {
        self.v <= 11
    }
}

/// The register of return values.
pub const R0_RETURN_VALUE: u8 = 0;

/// The first and the last register of arguments.
pub const R1_ARG: u8 = 1;
pub const R5_ARG: u8 = 5;

/// The first and the last register that a callee keeps.
pub const R6: u8 = 6;
pub const R9: u8 = 9;

/// The register of the stack pointer.
pub const R10_STACK_POINTER: u8 = 10;

/// A register that no program names.
pub const R11_ATOMIC_SCRATCH: u8 = 11;

/// An immediate operand.
#[derive(Clone, Copy, Debug, PartialEq, Eq, Structural)]
pub struct Imm {
    pub v: u64,
}

/// An operand.
#[derive(Clone, Copy, Debug, PartialEq, Eq, Structural)]
pub enum Value {
    Imm(Imm),
    Reg(Reg),
}

impl Value {
    pub open spec fn ok(self) -> bool {
        self matches Value::Reg(r) ==> r.ok()
    }
}

/// Binary operations.
#[derive(Clone, Copy, Debug, PartialEq, Eq, Structural)]
pub enum BinOp {
    MOV,
    ADD,
    SUB,
    MUL,
    UDIV,
    UMOD,
    SDIV,
    SMOD,
    OR,
    AND,
    LSH,
    RSH,
    ARSH,
    XOR,
    MOVSX8,
    MOVSX16,
    MOVSX32,
}

/// `dst op= v`.
#[derive(Clone, Copy, Debug, PartialEq, Eq, Structural)]
pub struct Bin {
    pub op: BinOp,
    pub dst: Reg,
    pub v: Value,
    pub is64: bool,
    pub lddw: bool,
}

impl Bin {
    pub open spec fn ok(self) -> bool {
        self.dst.ok() && self.v.ok()
    }
}

/// Unary operations.
#[derive(Clone, Copy, Debug, PartialEq, Eq, Structural)]
pub enum UnOp {
    BE16,
    BE32,
    BE64,
    LE16,
    LE32,
    LE64,
    SWAP16,
    SWAP32,
    SWAP64,
    NEG,
}

/// `dst = op dst`.
#[derive(Clone, Copy, Debug, PartialEq, Eq, Structural)]
pub struct Un {
    pub op: UnOp,
    pub dst: Reg,
    pub is64: bool,
}

/// Widths of memory accesses.
#[derive(Clone, Copy, Debug, PartialEq, Eq, Structural)]
pub enum AccessSize {
    Byte,
    Half,
    Word,
    DWord,
}

impl AccessSize {
    /// The number of bytes.
    pub open spec fn count(self) -> int {
        match self {
            AccessSize::Byte => 1,
            AccessSize::Half => 2,
            AccessSize::Word => 4,
            AccessSize::DWord => 8,
        }
    }

    pub fn bytes(self) -> (r: i32)
        ensures r == self.count(),
    {
        match self {
            AccessSize::Byte => 1,
            AccessSize::Half => 2,
            AccessSize::Word => 4,
            AccessSize::DWord => 8,
        }
    }
}

/// A place in memory.
#[derive(Clone, Copy, Debug, PartialEq, Eq, Structural)]
pub struct Access {
    pub width: AccessSize,
    pub offset: i32,
    pub basereg: Reg,
}

/// A load or a store.
#[derive(Clone, Copy, Debug, PartialEq, Eq, Structural)]
pub struct Mem {
    pub access: Access,
    pub value: Value,
    pub is_load: bool,
    pub is_signed: bool,
}

impl Mem {
    pub open spec fn ok(self) -> bool {
        self.access.basereg.ok() && self.value.ok()
    }
}

/// Atomic operations.
#[derive(Clone, Copy, Debug, PartialEq, Eq, Structural)]
pub enum AtomicOp {
    ADD,
    OR,
    AND,
    XOR,
    XCHG,
    CMPXCHG,
}

/// An atomic update of memory.
#[derive(Clone, Copy, Debug, PartialEq, Eq, Structural)]
pub struct Atomic {
    pub op: AtomicOp,
    pub fetch: bool,
    pub access: Access,
    pub valreg: Reg,
}

/// A comparison.
#[derive(Clone, Copy, Debug, PartialEq, Eq, Structural)]
pub struct Condition {
    pub op: ConditionOp,
    pub left: Reg,
    pub right: Value,
    pub is64: bool,
}

/// A comparison that holds from here on.
#[derive(Clone, Copy, Debug, PartialEq, Eq, Structural)]
pub struct Assume {
    pub cond: Condition,
}

/// Arguments of helper functions that take one register.
#[derive(Clone, Copy, Debug, PartialEq, Eq, Structural)]
pub enum ArgSingleKind {
    Anything,
    MapFd,
    MapFdPrograms,
    PtrToMapKey,
    PtrToMapValue,
    PtrToFunc,
    PtrToCtx,
    PtrToStack,
    PtrToSocket,
    PtrToBtfId,
    PtrToAllocMem,
    PtrToSpinLock,
    PtrToTimer,
    ConstSizeOrZero,
    PtrToWritableLong,
    PtrToWritableInt,
}

#[derive(Clone, Copy, Debug, PartialEq, Eq, Structural)]
pub struct ArgSingle {
    pub kind: ArgSingleKind,
    pub reg: Reg,
}

/// Arguments of helper functions that take a pointer and a size.
#[derive(Clone, Copy, Debug, PartialEq, Eq, Structural)]
pub enum ArgPairKind {
    PtrToReadableMem,
    PtrToWritableMem,
}

#[derive(Clone, Copy, Debug, PartialEq, Eq, Structural)]
pub struct ArgPair {
    pub kind: ArgPairKind,
    pub mem: Reg,
    pub size: Reg,
}

/// What a helper function takes, returns and changes.
pub struct CallContract {
    pub singles: Vec<ArgSingle>,
    pub pairs: Vec<ArgPair>,
    pub is_map_lookup: bool,
    pub return_ptr_type: Option<TypeEncoding>,
    pub return_nullable: bool,
    pub reallocate_packet: bool,
}

impl CallContract {
    pub open spec fn ok(&self) -> bool {
        &&& forall|i: int| 0 <= i < self.singles@.len() ==> (#[trigger] self.singles@[i]).reg.ok()
        &&& forall|i: int| 0 <= i < self.pairs@.len() ==> (#[trigger] self.pairs@[i]).mem.ok() && self.pairs@[i].size.ok()
    }
}

/// A call of a helper function.
pub struct Call {
    pub func: i32,
    pub contract: CallContract,
}

/// A call of a function of the program.
pub struct CallLocal {
    pub stack_frame_prefix: String,
}

/// A call of the helper function whose number is in a register.
#[derive(Clone, Copy, Debug, PartialEq, Eq, Structural)]
pub struct Callx {
    pub func: Reg,
}

/// The end of a function. The prefix is empty in the main function.
pub struct Exit {
    pub stack_frame_prefix: String,
}

/// An access to a packet by the legacy instructions.
#[derive(Clone, Copy, Debug, PartialEq, Eq, Structural)]
pub struct Packet {
    pub width: i32,
    pub offset: i32,
    pub regoffset: Option<Reg>,
}

/// A map descriptor loaded into a register.
#[derive(Clone, Copy, Debug, PartialEq, Eq, Structural)]
pub struct LoadMapFd {
    pub dst: Reg,
    pub mapfd: i32,
}

/// The address of a map's first value loaded into a register.
#[derive(Clone, Copy, Debug, PartialEq, Eq, Structural)]
pub struct LoadMapAddress {
    pub dst: Reg,
    pub mapfd: i32,
    pub offset: i32,
}

/// Kinds of addresses that a loader resolves.
#[derive(Clone, Copy, Debug, PartialEq, Eq, Structural)]
pub enum PseudoAddressKind {
    VariableAddr,
    CodeAddr,
    MapByIdx,
    MapValueByIdx,
}

#[derive(Clone, Copy, Debug, PartialEq, Eq, Structural)]
pub struct PseudoAddress {
    pub kind: PseudoAddressKind,
    pub imm: i32,
    pub next_imm: i32,
}

/// A resolved address loaded into a register.
#[derive(Clone, Copy, Debug, PartialEq, Eq, Structural)]
pub struct LoadPseudo {
    pub dst: Reg,
    pub addr: PseudoAddress,
}

/// One more run of a loop.
pub struct IncrementLoopCounter {
    pub name: String,
}

/// The instructions.
pub enum Instruction {
    Assume(Assume),
    Bin(Bin),
    Un(Un),
    Mem(Mem),
    Call(Call),
    CallLocal(CallLocal),
    Callx(Callx),
    CallBtf,
    Exit(Exit),
    Jmp,
    Packet(Packet),
    Atomic(Atomic),
    LoadMapFd(LoadMapFd),
    LoadMapAddress(LoadMapAddress),
    LoadPseudo(LoadPseudo),
    Undefined,
    IncrementLoopCounter(IncrementLoopCounter),
}

/// What an access to memory does.
#[derive(Clone, Copy, Debug, PartialEq, Eq, Structural)]
pub enum AccessType {
    Compare,
    Read,
    Write,
}

/// A number is added to a pointer.
#[derive(Clone, Copy, Debug, PartialEq, Eq, Structural)]
pub struct Addable {
    pub ptr: Reg,
    pub num: Reg,
}

/// A loop ends in time.
pub struct BoundedLoopCount {
    pub name: String,
}

/// The most runs of a loop.
pub const LOOP_LIMIT: i64 = 100000;

/// Two registers can be compared or subtracted.
#[derive(Clone, Copy, Debug, PartialEq, Eq, Structural)]
pub struct Comparable {
    pub r1: Reg,
    pub r2: Reg,
}

/// A register holds the number of a helper function that can be called here.
#[derive(Clone, Copy, Debug, PartialEq, Eq, Structural)]
pub struct FuncConstraint {
    pub reg: Reg,
}

/// A register has one of some types.
#[derive(Clone, Copy, Debug, PartialEq, Eq, Structural)]
pub struct TypeConstraint {
    pub reg: Reg,
    pub types: TypeGroup,
}

/// An access to memory is within bounds.
#[derive(Clone, Copy, Debug, PartialEq, Eq, Structural)]
pub struct ValidAccess {
    pub reg: Reg,
    pub offset: i32,
    pub width: Value,
    pub or_null: bool,
    pub access_type: AccessType,
}

/// An argument is zero.
#[derive(Clone, Copy, Debug, PartialEq, Eq, Structural)]
pub struct ValidArgZero {
    pub reg: Reg,
}

/// A register holds the label of a callback.
#[derive(Clone, Copy, Debug, PartialEq, Eq, Structural)]
pub struct ValidCallbackTarget {
    pub reg: Reg,
}

/// A register can be divided by.
#[derive(Clone, Copy, Debug, PartialEq, Eq, Structural)]
pub struct ValidDivisor {
    pub reg: Reg,
    pub is64: bool,
    pub is_signed: bool,
}

/// A register points to a key or a value of a map.
#[derive(Clone, Copy, Debug, PartialEq, Eq, Structural)]
pub struct ValidMapKeyValue {
    pub access_reg: Reg,
    pub map_fd_reg: Reg,
    pub key: bool,
}

/// A map has a type that a helper function takes.
pub struct ValidMapType {
    pub map_fd_reg: Reg,
    pub allowed_map_types: u64,
    pub helper_name: String,
}

/// A register holds a size.
#[derive(Clone, Copy, Debug, PartialEq, Eq, Structural)]
pub struct ValidSize {
    pub reg: Reg,
    pub can_be_zero: bool,
}

/// Only numbers go to memory that others see.
#[derive(Clone, Copy, Debug, PartialEq, Eq, Structural)]
pub struct ValidStore {
    pub mem: Reg,
    pub val: Reg,
}

/// A context pointer is not moved.
#[derive(Clone, Copy, Debug, PartialEq, Eq, Structural)]
pub struct ZeroCtxOffset {
    pub reg: Reg,
    pub or_null: bool,
}

/// What must hold before an instruction.
pub enum Assertion {
    Addable(Addable),
    BoundedLoopCount(BoundedLoopCount),
    Comparable(Comparable),
    FuncConstraint(FuncConstraint),
    ValidDivisor(ValidDivisor),
    TypeConstraint(TypeConstraint),
    ValidAccess(ValidAccess),
    ValidCallbackTarget(ValidCallbackTarget),
    ValidMapKeyValue(ValidMapKeyValue),
    ValidSize(ValidSize),
    ValidArgZero(ValidArgZero),
    ValidMapType(ValidMapType),
    ValidStore(ValidStore),
    ZeroCtxOffset(ZeroCtxOffset),
}

impl Assertion {
    pub open spec fn ok(&self) -> bool {
        match self {
            Assertion::Addable(a) => a.ptr.ok() && a.num.ok(),
            Assertion::BoundedLoopCount(_) => true,
            Assertion::Comparable(a) => a.r1.ok() && a.r2.ok(),
            Assertion::FuncConstraint(a) => a.reg.ok(),
            Assertion::ValidDivisor(a) => a.reg.ok(),
            Assertion::TypeConstraint(a) => a.reg.ok(),
            Assertion::ValidAccess(a) => a.reg.ok() && a.width.ok(),
            Assertion::ValidCallbackTarget(a) => a.reg.ok(),
            Assertion::ValidMapKeyValue(a) => a.access_reg.ok() && a.map_fd_reg.ok(),
            Assertion::ValidSize(a) => a.reg.ok(),
            Assertion::ValidArgZero(a) => a.reg.ok(),
            Assertion::ValidMapType(a) => a.map_fd_reg.ok(),
            Assertion::ValidStore(a) => a.mem.ok() && a.val.ok(),
            Assertion::ZeroCtxOffset(a) => a.reg.ok(),
        }
    }
}

impl Instruction {
    /// Registers are in range, and the instruction is one that reaches the analysis.
    pub open spec fn ok(&self) -> bool {
        match self {
            Instruction::Assume(s) => s.cond.left.ok() && s.cond.right.ok(),
            Instruction::Bin(s) => s.ok(),
            Instruction::Un(s) => s.dst.ok(),
            Instruction::Mem(s) => s.ok(),
            Instruction::Call(s) => s.contract.ok(),
            Instruction::CallLocal(_) => true,
            Instruction::Callx(s) => s.func.ok(),
            Instruction::CallBtf => false,
            Instruction::Exit(_) => true,
            Instruction::Jmp => true,
            Instruction::Packet(_) => true,
            Instruction::Atomic(s) => s.access.basereg.ok() && s.valreg.ok(),
            Instruction::LoadMapFd(s) => s.dst.ok(),
            Instruction::LoadMapAddress(s) => s.dst.ok(),
            Instruction::LoadPseudo(s) => s.dst.ok() && s.addr.kind is CodeAddr,
            Instruction::Undefined => true,
            Instruction::IncrementLoopCounter(_) => true,
        }
    }
}

}
