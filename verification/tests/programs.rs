use crab::config::{DomainContext, EbpfContextDescriptor, EbpfMapDescriptor, EbpfMapType, EbpfMapValueType, EbpfPlatform, EbpfRuntimeConfig,
    EbpfVerifierOptions, Helper, ProgramInfo};
use crab::ebpf_check::ebpf_domain_check;
use crab::ebpf_domain::EbpfDomain;
use crab::ebpf_transformer::{ebpf_domain_initialize_loop_counter, ebpf_domain_transform};
use crab::interval::Interval;
use crab::syntax::{Access, AccessSize, AccessType, Addable, ArgPair, ArgPairKind, ArgSingle, ArgSingleKind, Assertion, Assume, Atomic, AtomicOp, Bin, BinOp,
    BoundedLoopCount, Call, CallContract, CallLocal, Callx, Comparable, Condition, ConditionOp, Exit, FuncConstraint, Imm, IncrementLoopCounter, Instruction,
    LoadMapAddress, LoadMapFd, LoadPseudo, Mem, Packet, PseudoAddress, PseudoAddressKind, Reg, TypeConstraint, Un, UnOp, ValidAccess, ValidArgZero,
    ValidCallbackTarget, ValidDivisor, ValidMapKeyValue, ValidMapType, ValidSize, ValidStore, Value, ZeroCtxOffset};
use crab::type_encoding::{DataKind, TypeEncoding, TypeGroup};
use crab::var_registry::VariableRegistry;

fn contract() -> CallContract {
    CallContract { singles: vec![], pairs: vec![], is_map_lookup: false, return_ptr_type: None, return_nullable: false, reallocate_packet: false }
}

fn lookup() -> CallContract {
    CallContract { singles: vec![ArgSingle { kind: ArgSingleKind::MapFd, reg: r(1) }], is_map_lookup: true, ..contract() }
}

fn context() -> DomainContext {
    DomainContext::new(
        ProgramInfo {
            context_descriptor: Some(EbpfContextDescriptor { size: 64, data: 0, end: 4, meta: 8 }),
            callback_targets: vec![7, 9],
            callback_targets_with_exit: vec![7],
        },
        EbpfRuntimeConfig { allow_division_by_zero: false, ..EbpfRuntimeConfig::default() },
        EbpfVerifierOptions { check_for_termination: true },
        EbpfPlatform {
            maps: vec![
                EbpfMapDescriptor { original_fd: 1, map_type: 2, key_size: 4, value_size: 16, max_entries: 10, inner_map_fd: -1 },
                EbpfMapDescriptor { original_fd: 2, map_type: 3, key_size: 4, value_size: 4, max_entries: 1, inner_map_fd: -1 },
                EbpfMapDescriptor { original_fd: 5, map_type: 12, key_size: 4, value_size: 4, max_entries: 1, inner_map_fd: 1 },
                EbpfMapDescriptor { original_fd: 6, map_type: 12, key_size: 4, value_size: 4, max_entries: 1, inner_map_fd: 99 },
            ],
            map_types: vec![
                EbpfMapType { map_type: 2, is_array: true, value_type: EbpfMapValueType::Any },
                EbpfMapType { map_type: 3, is_array: true, value_type: EbpfMapValueType::Program },
                EbpfMapType { map_type: 12, is_array: false, value_type: EbpfMapValueType::InnerMap },
            ],
            helpers: vec![
                Helper { id: 1, call: Call { func: 1, contract: lookup() }, assertions: vec![
                    (Assertion::TypeConstraint(TypeConstraint { reg: r(1), types: TypeGroup::MapFd }), "r1.type == map_fd".to_string()),
                ] },
                Helper { id: 3, call: Call { func: 3, contract: contract() }, assertions: vec![] },
            ],
        },
    )
}

struct Run {
    dom: EbpfDomain,
    ctx: DomainContext,
    reg: VariableRegistry,
}

fn r(v: u8) -> Reg {
    Reg { v }
}

fn imm(v: i64) -> Value {
    Value::Imm(Imm { v: v as u64 })
}

fn start() -> Run {
    let ctx = context();
    let mut reg = VariableRegistry::new();
    let dom = EbpfDomain::setup_entry(true, &ctx, &mut reg);
    Run { dom, ctx, reg }
}

impl Run {
    fn run(&mut self, ins: Instruction) {
        assert!(ebpf_domain_transform(&mut self.dom, &ins, &self.ctx, &mut self.reg).is_ok());
    }

    fn error(&mut self, ins: Instruction) -> String {
        ebpf_domain_transform(&mut self.dom, &ins, &self.ctx, &mut self.reg).err().unwrap().to_string()
    }

    fn bin(&mut self, op: BinOp, dst: u8, v: Value) {
        self.run(Instruction::Bin(Bin { op, dst: r(dst), v, is64: true, lddw: false }));
    }

    fn bin32(&mut self, op: BinOp, dst: u8, v: Value) {
        self.run(Instruction::Bin(Bin { op, dst: r(dst), v, is64: false, lddw: false }));
    }

    fn un(&mut self, op: UnOp, dst: u8) {
        self.run(Instruction::Un(Un { op, dst: r(dst), is64: true }));
    }

    fn load(&mut self, width: AccessSize, dst: u8, base: u8, offset: i32) {
        let access = Access { width, offset, basereg: r(base) };
        self.run(Instruction::Mem(Mem { access, value: Value::Reg(r(dst)), is_load: true, is_signed: false }));
    }

    fn store(&mut self, width: AccessSize, base: u8, offset: i32, value: Value) {
        let access = Access { width, offset, basereg: r(base) };
        self.run(Instruction::Mem(Mem { access, value, is_load: false, is_signed: false }));
    }

    fn given(&mut self, op: ConditionOp, left: u8, right: Value) {
        self.run(Instruction::Assume(Assume { cond: Condition { op, left: r(left), right, is64: true } }));
    }

    fn unknown(&mut self) {
        self.run(Instruction::Packet(Packet { width: 1, offset: 0, regoffset: None }));
    }

    fn interval(&mut self, kind: DataKind, reg: u8) -> Interval {
        let v = self.reg.reg(kind, reg as i32);
        self.dom.state.values.eval_interval_var(v, &self.reg)
    }

    fn value(&mut self, reg: u8) -> Option<i64> {
        self.interval(DataKind::Svalues, reg).singleton().and_then(|n| n.to_i64())
    }

    fn unsigned(&mut self, reg: u8) -> String {
        self.interval(DataKind::Uvalues, reg).to_string()
    }

    fn kind(&mut self, reg: u8) -> Option<TypeEncoding> {
        self.dom.state.types.get_type(&r(reg), &mut self.reg)
    }

    fn check(&mut self, a: Assertion) -> Option<String> {
        ebpf_domain_check(&self.dom, &a, "claim", "4", &self.ctx, &mut self.reg).map(|e| e.to_string())
    }

    fn access(&mut self, reg: u8, offset: i32, width: Value, access_type: AccessType) -> Option<String> {
        self.check(Assertion::ValidAccess(ValidAccess { reg: r(reg), offset, width, or_null: false, access_type }))
    }
}

fn complaint(m: &str) -> Option<String> {
    Some(format!("4: {} (claim)", m))
}

#[test]
fn entry_state() {
    let mut p = start();
    assert_eq!(p.kind(10), Some(TypeEncoding::TStack));
    assert_eq!(p.kind(1), Some(TypeEncoding::TCtx));
    assert_eq!(p.kind(2), None);
    assert_eq!(p.dom.get_stack_offset(&r(10), &mut p.reg), Some(4096));
    assert_eq!(p.dom.get_stack_offset(&r(1), &mut p.reg), None);
    let text = p.dom.to_text(&p.reg);
    assert!(text.contains("r10.type=stack"));
    assert!(text.ends_with("\nStack: Numbers -> {}"));
    assert_eq!(p.dom.to_string(), "TypeDomain<finite_domain>\nStack: Numbers -> {}");
    let few = p.dom.to_text_filtered(&p.reg, |l: &str| l.starts_with("r1."));
    assert!(few.contains("r1.ctx_offset=0"));
    assert!(!few.contains("r10"));
}

#[test]
fn arithmetic_with_immediates() {
    let mut p = start();
    p.bin(BinOp::MOV, 0, imm(20));
    p.bin(BinOp::ADD, 0, imm(3));
    assert_eq!(p.value(0), Some(23));
    p.bin(BinOp::SUB, 0, imm(5));
    assert_eq!(p.value(0), Some(18));
    p.bin(BinOp::MUL, 0, imm(-2));
    assert_eq!(p.value(0), Some(-36));
    p.bin(BinOp::SDIV, 0, imm(5));
    assert_eq!(p.value(0), Some(-7));
    p.bin(BinOp::SMOD, 0, imm(4));
    assert_eq!(p.value(0), Some(-3));
    p.un(UnOp::NEG, 0);
    assert_eq!(p.value(0), Some(3));
    p.bin(BinOp::OR, 0, imm(12));
    assert_eq!(p.value(0), Some(15));
    p.bin(BinOp::AND, 0, imm(6));
    assert_eq!(p.value(0), Some(6));
    p.bin(BinOp::XOR, 0, imm(5));
    assert_eq!(p.value(0), Some(3));
    p.bin(BinOp::LSH, 0, imm(4));
    assert_eq!(p.value(0), Some(48));
    p.bin(BinOp::RSH, 0, imm(2));
    assert_eq!(p.value(0), Some(12));
    p.bin(BinOp::UDIV, 0, imm(5));
    assert_eq!(p.value(0), Some(2));
    p.bin(BinOp::MOV, 0, imm(-17));
    p.bin(BinOp::ARSH, 0, imm(2));
    assert_eq!(p.value(0), Some(-5));
    p.bin(BinOp::MOV, 0, imm(17));
    p.bin(BinOp::UMOD, 0, imm(5));
    assert_eq!(p.value(0), Some(2));
    assert_eq!(p.dom.get_r0(&p.reg).to_string(), Interval::from_i64(2).to_string());
}

#[test]
fn arithmetic_with_registers() {
    let mut p = start();
    p.bin(BinOp::MOV, 0, imm(20));
    p.bin(BinOp::MOV, 2, imm(6));
    p.bin(BinOp::ADD, 0, Value::Reg(r(2)));
    assert_eq!(p.value(0), Some(26));
    p.bin(BinOp::SUB, 0, Value::Reg(r(2)));
    assert_eq!(p.value(0), Some(20));
    p.bin(BinOp::MUL, 0, Value::Reg(r(2)));
    assert_eq!(p.value(0), Some(120));
    p.bin(BinOp::LSH, 0, Value::Reg(r(2)));
    assert_eq!(p.value(0), Some(7680));
    p.bin(BinOp::RSH, 0, Value::Reg(r(2)));
    assert_eq!(p.value(0), Some(120));
    p.bin(BinOp::MOV, 3, Value::Reg(r(0)));
    assert_eq!(p.value(3), Some(120));
    p.bin(BinOp::MOV, 4, imm(0x1ff));
    p.bin(BinOp::MOVSX8, 5, Value::Reg(r(4)));
    assert_eq!(p.value(5), Some(-1));
    p.bin(BinOp::ADD, 7, Value::Reg(r(0)));
    assert_eq!(p.kind(7), None);
}

#[test]
fn narrow_arithmetic_keeps_the_low_half() {
    let mut p = start();
    p.bin(BinOp::MOV, 0, imm(0x1_0000_0007));
    p.bin32(BinOp::ADD, 0, imm(1));
    assert_eq!(p.value(0), Some(8));
    p.bin32(BinOp::MOV, 0, imm(-1));
    assert_eq!(p.value(0), Some(0xffff_ffff));
    p.bin32(BinOp::ADD, 1, imm(4));
    assert_eq!(p.kind(1), None);
}

#[test]
fn byte_order() {
    let mut p = start();
    p.bin(BinOp::MOV, 0, imm(0x0102));
    p.un(UnOp::SWAP16, 0);
    assert_eq!(p.value(0), Some(0x0201));
    p.un(UnOp::SWAP32, 0);
    assert_eq!(p.value(0), Some(0x0102_0000));
    p.un(UnOp::LE16, 0);
    assert_eq!(p.value(0), Some(0));
    p.bin(BinOp::MOV, 0, imm(0xff));
    p.un(UnOp::SWAP64, 0);
    assert_eq!(p.value(0), Some(0xff00_0000_0000_0000u64 as i64));
    p.un(UnOp::BE64, 0);
    assert_eq!(p.value(0), Some(0xff));
    p.un(UnOp::LE64, 0);
    assert_eq!(p.value(0), Some(0xff));
    p.ctx.runtime.big_endian = true;
    p.un(UnOp::LE16, 0);
    assert_eq!(p.value(0), Some(0xff00));
    p.un(UnOp::BE32, 0);
    assert_eq!(p.value(0), Some(0xff00));
}

#[test]
fn conditions() {
    let mut p = start();
    p.unknown();
    p.given(ConditionOp::LT, 0, imm(10));
    assert_eq!(p.unsigned(0), "[0, 9]");
    p.given(ConditionOp::SGE, 0, imm(4));
    assert_eq!(p.unsigned(0), "[4, 9]");
    p.bin(BinOp::MOV, 6, imm(6));
    p.given(ConditionOp::LE, 0, Value::Reg(r(6)));
    assert_eq!(p.unsigned(0), "[4, 6]");
    p.given(ConditionOp::GT, 0, imm(100));
    assert!(p.dom.is_bottom());
    p.bin(BinOp::ADD, 0, imm(1));
    assert!(p.dom.is_bottom());
    assert_eq!(p.dom.to_text(&p.reg), "_|_");
}

#[test]
fn different_types_cannot_be_compared() {
    let mut p = start();
    p.given(ConditionOp::EQ, 1, Value::Reg(r(10)));
    assert!(p.dom.is_bottom());
}

#[test]
fn the_stack_gives_back_what_was_stored() {
    let mut p = start();
    p.store(AccessSize::DWord, 10, -8, imm(7));
    p.load(AccessSize::DWord, 2, 10, -8);
    assert_eq!(p.value(2), Some(7));
    assert_eq!(p.kind(2), Some(TypeEncoding::TNum));
    p.store(AccessSize::DWord, 10, -16, Value::Reg(r(1)));
    p.load(AccessSize::DWord, 3, 10, -16);
    assert_eq!(p.kind(3), Some(TypeEncoding::TCtx));
    assert_eq!(p.interval(DataKind::CtxOffsets, 3).to_string(), p.interval(DataKind::CtxOffsets, 1).to_string());
    p.bin(BinOp::MOV, 4, Value::Reg(r(10)));
    p.bin(BinOp::ADD, 4, imm(-8));
    p.load(AccessSize::DWord, 5, 4, 0);
    assert_eq!(p.value(5), Some(7));
    assert_eq!(p.dom.stack.to_string(), "Numbers -> {[4088...4095]}");
}

#[test]
fn bytes_of_stored_numbers() {
    let mut p = start();
    p.store(AccessSize::Word, 10, -8, imm(0x0403_0201));
    p.load(AccessSize::Byte, 2, 10, -8);
    assert_eq!(p.value(2), Some(1));
    p.load(AccessSize::Half, 2, 10, -6);
    assert_eq!(p.value(2), Some(0x0403));
    p.ctx.runtime.big_endian = true;
    p.load(AccessSize::Half, 3, 10, -7);
    assert_eq!(p.value(3), Some(0x0302));
}

#[test]
fn a_narrow_store_splits_a_wide_number() {
    let mut p = start();
    p.store(AccessSize::DWord, 10, -8, imm(0x0807_0605_0403_0201));
    p.store(AccessSize::Word, 10, -8, imm(9));
    p.load(AccessSize::Word, 2, 10, -4);
    assert_eq!(p.value(2), Some(0x0807_0605));
    p.load(AccessSize::Word, 2, 10, -8);
    assert_eq!(p.value(2), Some(9));
}

#[test]
fn atomic_updates() {
    let mut p = start();
    p.store(AccessSize::DWord, 10, -8, imm(40));
    p.bin(BinOp::MOV, 2, imm(2));
    let access = Access { width: AccessSize::DWord, offset: -8, basereg: r(10) };
    p.run(Instruction::Atomic(Atomic { op: AtomicOp::ADD, fetch: true, access, valreg: r(2) }));
    assert_eq!(p.value(2), Some(40));
    p.load(AccessSize::DWord, 3, 10, -8);
    assert_eq!(p.value(3), Some(42));
    p.run(Instruction::Atomic(Atomic { op: AtomicOp::CMPXCHG, fetch: true, access, valreg: r(2) }));
    assert_eq!(p.value(0), Some(42));
}

#[test]
fn packet_accesses_need_a_bounds_check() {
    let mut p = start();
    p.load(AccessSize::Word, 2, 1, 0);
    p.load(AccessSize::Word, 3, 1, 4);
    assert_eq!(p.kind(2), Some(TypeEncoding::TPacket));
    assert_eq!(p.access(2, 0, imm(8), AccessType::Read), complaint("Upper bound must be at most packet_size"));
    p.bin(BinOp::MOV, 4, Value::Reg(r(2)));
    p.bin(BinOp::ADD, 4, imm(8));
    p.given(ConditionOp::LE, 4, Value::Reg(r(3)));
    assert_eq!(p.access(2, 0, imm(8), AccessType::Read), None);
    assert_eq!(p.access(2, 1, imm(8), AccessType::Read), complaint("Upper bound must be at most packet_size"));
    assert_eq!(p.access(2, -5000, imm(8), AccessType::Read), complaint("Lower bound must be at least meta_offset"));
    p.load(AccessSize::Byte, 5, 2, 0);
    assert_eq!(p.unsigned(5), "[0, 255]");
    p.run(Instruction::Call(Call { func: 3, contract: CallContract { reallocate_packet: true, ..contract() } }));
    assert_eq!(p.kind(0), Some(TypeEncoding::TNum));
    assert_eq!(p.kind(2), None);
}

#[test]
fn stack_accesses() {
    let mut p = start();
    assert_eq!(p.access(10, -8, imm(8), AccessType::Write), None);
    assert_eq!(p.access(10, -8, imm(9), AccessType::Write), complaint("Upper bound must be at most total_stack_size"));
    assert_eq!(p.access(10, -520, imm(8), AccessType::Write), complaint("Lower bound must be at least r10.stack_offset - subprogram_stack_size"));
    assert_eq!(p.access(10, -8, imm(8), AccessType::Read), complaint("Stack content is not numeric"));
    p.store(AccessSize::DWord, 10, -8, imm(1));
    assert_eq!(p.access(10, -8, imm(8), AccessType::Read), None);
    p.bin(BinOp::MOV, 2, Value::Reg(r(10)));
    p.bin(BinOp::ADD, 2, imm(-8));
    p.bin(BinOp::MOV, 3, imm(8));
    assert_eq!(p.access(2, 0, Value::Reg(r(3)), AccessType::Read), None);
    p.bin(BinOp::MOV, 3, imm(9));
    assert_eq!(p.access(2, 0, Value::Reg(r(3)), AccessType::Write), complaint("Upper bound must be at most total_stack_size"));
}

#[test]
fn context_accesses() {
    let mut p = start();
    assert_eq!(p.access(1, 12, imm(4), AccessType::Write), None);
    assert_eq!(p.access(1, 2, imm(4), AccessType::Write), complaint("Cannot write to context pointer field"));
    assert_eq!(p.access(1, 62, imm(4), AccessType::Read), complaint("Upper bound must be at most 64"));
    assert_eq!(p.access(1, -1, imm(4), AccessType::Read), complaint("Lower bound must be at least 0"));
    p.ctx.program_info.context_descriptor = Some(EbpfContextDescriptor { size: 64, data: 4, end: 4, meta: -1 });
    assert_eq!(p.access(1, 12, imm(4), AccessType::Write), complaint("Cannot write to context with unexpected pointer-field layout"));
    p.ctx.program_info.context_descriptor = Some(EbpfContextDescriptor { size: 64, data: -1, end: -1, meta: -1 });
    assert_eq!(p.access(1, 0, imm(4), AccessType::Write), None);
    p.load(AccessSize::Word, 2, 1, 0);
    assert_eq!(p.kind(2), Some(TypeEncoding::TNum));
    p.ctx.program_info.context_descriptor = Some(EbpfContextDescriptor { size: 64, data: 0, end: 4, meta: 8 });
    p.load(AccessSize::Word, 3, 1, 16);
    assert_eq!(p.kind(3), Some(TypeEncoding::TNum));
    p.load(AccessSize::Half, 4, 1, 0);
    assert_eq!(p.kind(4), None);
}

#[test]
fn other_accesses() {
    let mut p = start();
    p.bin(BinOp::MOV, 2, imm(0));
    assert_eq!(p.access(2, 0, imm(4), AccessType::Read), complaint("Only pointers can be dereferenced"));
    let null = |width: Value| Assertion::ValidAccess(ValidAccess { reg: r(2), offset: 0, width, or_null: true, access_type: AccessType::Read });
    assert_eq!(p.check(null(imm(4))), complaint("Non-zero access size with null pointer"));
    p.bin(BinOp::MOV, 3, imm(0));
    assert_eq!(p.check(null(Value::Reg(r(3)))), None);
    p.bin(BinOp::MOV, 3, imm(1));
    assert_eq!(p.check(null(Value::Reg(r(3)))), complaint("Non-zero access size with null pointer"));
    p.bin(BinOp::MOV, 2, imm(5));
    assert_eq!(p.check(null(Value::Reg(r(3)))), complaint("Non-null number"));
    assert_eq!(p.access(7, 0, imm(4), AccessType::Read), complaint("Invalid type"));
    p.run(Instruction::LoadMapFd(LoadMapFd { dst: r(4), mapfd: 1 }));
    assert_eq!(p.access(4, 0, imm(4), AccessType::Read), complaint("FDs cannot be dereferenced directly"));
    assert_eq!(p.access(4, 0, imm(0), AccessType::Compare), None);
}

#[test]
fn maps() {
    let mut p = start();
    p.run(Instruction::LoadMapFd(LoadMapFd { dst: r(1), mapfd: 1 }));
    assert_eq!(p.kind(1), Some(TypeEncoding::TMap));
    assert_eq!(p.dom.get_map_type(&r(1), &p.ctx, &p.reg), Some(2));
    assert_eq!(p.dom.get_map_key_size(&r(1), &p.ctx, &p.reg).singleton().and_then(|n| n.to_i64()), Some(4));
    assert_eq!(p.dom.get_map_value_size(&r(1), &p.ctx, &p.reg).singleton().and_then(|n| n.to_i64()), Some(16));
    assert_eq!(p.dom.get_map_max_entries(&r(1), &p.ctx, &p.reg).singleton().and_then(|n| n.to_i64()), Some(10));
    assert_eq!(p.dom.get_map_inner_map_fd(&r(1), &p.ctx, &p.reg), Some(u32::MAX));
    p.run(Instruction::Call(Call { func: 1, contract: lookup() }));
    assert_eq!(p.kind(0), Some(TypeEncoding::TShared));
    assert_eq!(p.kind(1), None);
    assert_eq!(p.access(0, 0, imm(16), AccessType::Read), complaint("Possible null access"));
    p.given(ConditionOp::NE, 0, imm(0));
    assert_eq!(p.access(0, 0, imm(16), AccessType::Read), None);
    assert_eq!(p.access(0, 0, imm(17), AccessType::Read), complaint("Upper bound must be at most r0.shared_region_size"));
    assert_eq!(p.access(0, -1, imm(4), AccessType::Read), complaint("Lower bound must be at least 0"));
    p.run(Instruction::LoadMapAddress(LoadMapAddress { dst: r(2), mapfd: 1, offset: 4 }));
    assert_eq!(p.access(2, 0, imm(12), AccessType::Write), None);
    p.run(Instruction::LoadMapFd(LoadMapFd { dst: r(3), mapfd: 2 }));
    assert_eq!(p.kind(3), Some(TypeEncoding::TMapPrograms));
}

#[test]
fn maps_of_maps() {
    let mut p = start();
    p.run(Instruction::LoadMapFd(LoadMapFd { dst: r(1), mapfd: 5 }));
    p.run(Instruction::Call(Call { func: 1, contract: lookup() }));
    assert_eq!(p.kind(0), Some(TypeEncoding::TMap));
    p.run(Instruction::LoadMapFd(LoadMapFd { dst: r(1), mapfd: 6 }));
    assert_eq!(p.error(Instruction::Call(Call { func: 1, contract: lookup() })), "map_fd 99 not found");
}

#[test]
fn refused_instructions() {
    let mut p = start();
    assert_eq!(p.error(Instruction::LoadMapFd(LoadMapFd { dst: r(1), mapfd: -4 })), "map_fd -4 not found");
    assert_eq!(p.error(Instruction::LoadMapAddress(LoadMapAddress { dst: r(1), mapfd: 77, offset: 0 })), "map_fd 77 not found");
    assert_eq!(p.error(Instruction::LoadMapAddress(LoadMapAddress { dst: r(1), mapfd: 2, offset: 0 })),
        "Cannot load address of program map type - only data maps are supported");
    assert_eq!(p.error(Instruction::Bin(Bin { op: BinOp::MOVSX16, dst: r(2), v: imm(3), is64: true, lddw: false })),
        "Unsupported operation: MOVSX with immediate");
    p.store(AccessSize::DWord, 10, -8, imm(1));
    let access = Access { width: AccessSize::DWord, offset: -8, basereg: r(10) };
    assert_eq!(p.error(Instruction::Mem(Mem { access, value: Value::Reg(r(2)), is_load: true, is_signed: true })), "unexpected MEMSX width");
}

#[test]
fn signed_loads() {
    let mut p = start();
    p.store(AccessSize::Byte, 10, -1, imm(-2));
    let access = Access { width: AccessSize::Byte, offset: -1, basereg: r(10) };
    p.run(Instruction::Mem(Mem { access, value: Value::Reg(r(2)), is_load: true, is_signed: true }));
    assert_eq!(p.value(2), Some(-2));
}

#[test]
fn helper_functions_write_through_pointers() {
    let mut p = start();
    p.bin(BinOp::MOV, 1, Value::Reg(r(10)));
    p.bin(BinOp::ADD, 1, imm(-16));
    p.bin(BinOp::MOV, 2, imm(16));
    p.store(AccessSize::DWord, 10, -16, imm(5));
    let filled = CallContract { pairs: vec![ArgPair { kind: ArgPairKind::PtrToWritableMem, mem: r(1), size: r(2) }], ..contract() };
    p.run(Instruction::Call(Call { func: 4, contract: filled }));
    p.load(AccessSize::DWord, 3, 10, -16);
    assert_eq!(p.kind(3), Some(TypeEncoding::TNum));
    assert_eq!(p.value(3), None);
    assert_eq!(p.dom.stack.to_string(), "Numbers -> {[4080...4095]}");
    p.bin(BinOp::MOV, 1, Value::Reg(r(10)));
    p.bin(BinOp::ADD, 1, imm(-24));
    let long = CallContract { singles: vec![ArgSingle { kind: ArgSingleKind::PtrToWritableLong, reg: r(1) }], return_ptr_type: Some(TypeEncoding::TStack), ..contract() };
    p.run(Instruction::Call(Call { func: 4, contract: long }));
    assert_eq!(p.dom.stack.to_string(), "Numbers -> {[4072...4095]}");
    assert_eq!(p.kind(0), Some(TypeEncoding::TStack));
}

#[test]
fn calls_through_registers() {
    let mut p = start();
    p.bin(BinOp::MOV, 8, imm(3));
    p.run(Instruction::Callx(Callx { func: r(8) }));
    assert_eq!(p.kind(0), Some(TypeEncoding::TNum));
    assert_eq!(p.kind(1), None);
    let mut q = start();
    q.bin(BinOp::MOV, 8, imm(4));
    q.run(Instruction::Callx(Callx { func: r(8) }));
    assert_eq!(q.kind(1), Some(TypeEncoding::TCtx));
}

#[test]
fn local_calls_keep_the_callers_registers() {
    let mut p = start();
    p.bin(BinOp::MOV, 6, imm(33));
    p.bin(BinOp::MOV, 7, Value::Reg(r(1)));
    p.run(Instruction::CallLocal(CallLocal { stack_frame_prefix: "2".to_string() }));
    assert_eq!(p.dom.get_stack_offset(&r(10), &mut p.reg), Some(3584));
    p.bin(BinOp::MOV, 6, imm(1));
    p.bin(BinOp::MOV, 7, imm(2));
    p.store(AccessSize::DWord, 10, -8, imm(1));
    p.run(Instruction::Exit(Exit { stack_frame_prefix: "2".to_string() }));
    assert_eq!(p.dom.get_stack_offset(&r(10), &mut p.reg), Some(4096));
    assert_eq!(p.unsigned(6), Interval::from_i64(33).to_string());
    assert_eq!(p.kind(7), Some(TypeEncoding::TCtx));
    assert_eq!(p.kind(1), None);
    let before = p.dom.to_text(&p.reg);
    p.run(Instruction::Exit(Exit { stack_frame_prefix: String::new() }));
    assert_eq!(p.dom.to_text(&p.reg), before);
    assert_eq!(p.dom.stack.to_string(), "Numbers -> {}");
}

#[test]
fn loops() {
    let mut p = start();
    ebpf_domain_initialize_loop_counter(&mut p.dom, "7", &mut p.reg);
    p.run(Instruction::IncrementLoopCounter(IncrementLoopCounter { name: "7".to_string() }));
    p.run(Instruction::IncrementLoopCounter(IncrementLoopCounter { name: "7".to_string() }));
    assert_eq!(p.dom.get_loop_count_upper_bound(&p.reg).to_string(), "2");
    assert_eq!(p.check(Assertion::BoundedLoopCount(BoundedLoopCount { name: "7".to_string() })), None);
    assert_eq!(p.check(Assertion::BoundedLoopCount(BoundedLoopCount { name: "8".to_string() })), complaint("Loop counter is too large"));
}

#[test]
fn code_addresses() {
    let mut p = start();
    let addr = PseudoAddress { kind: PseudoAddressKind::CodeAddr, imm: 7, next_imm: 0 };
    p.run(Instruction::LoadPseudo(LoadPseudo { dst: r(4), addr }));
    assert_eq!(p.check(Assertion::ValidCallbackTarget(ValidCallbackTarget { reg: r(4) })), None);
    p.run(Instruction::LoadPseudo(LoadPseudo { dst: r(4), addr: PseudoAddress { imm: 9, ..addr } }));
    assert_eq!(p.check(Assertion::ValidCallbackTarget(ValidCallbackTarget { reg: r(4) })), complaint("callback function does not have a reachable exit"));
    p.run(Instruction::LoadPseudo(LoadPseudo { dst: r(4), addr: PseudoAddress { imm: 8, ..addr } }));
    assert_eq!(p.check(Assertion::ValidCallbackTarget(ValidCallbackTarget { reg: r(4) })), complaint("callback function pointer does not reference a valid callback entry"));
    assert_eq!(p.check(Assertion::ValidCallbackTarget(ValidCallbackTarget { reg: r(8) })), complaint("callback function pointer must be a singleton code address"));
    p.run(Instruction::LoadPseudo(LoadPseudo { dst: r(4), addr: PseudoAddress { imm: -1, next_imm: 1, ..addr } }));
    assert_eq!(p.unsigned(4), Interval::from_i64(0x1_ffff_ffff).to_string());
}

#[test]
fn type_assertions() {
    let mut p = start();
    p.bin(BinOp::MOV, 2, imm(1));
    assert_eq!(p.check(Assertion::TypeConstraint(TypeConstraint { reg: r(1), types: TypeGroup::Pointer })), None);
    assert_eq!(p.check(Assertion::TypeConstraint(TypeConstraint { reg: r(2), types: TypeGroup::Pointer })), complaint("Invalid type"));
    assert_eq!(p.check(Assertion::Addable(Addable { ptr: r(1), num: r(2) })), None);
    assert_eq!(p.check(Assertion::Addable(Addable { ptr: r(1), num: r(10) })), complaint("Only numbers can be added to pointers"));
    assert_eq!(p.check(Assertion::ValidStore(ValidStore { mem: r(10), val: r(1) })), None);
    assert_eq!(p.check(Assertion::ValidStore(ValidStore { mem: r(1), val: r(10) })), complaint("Only numbers can be stored to externally-visible regions"));
    assert_eq!(p.check(Assertion::ValidStore(ValidStore { mem: r(1), val: r(2) })), None);
    assert_eq!(p.check(Assertion::ValidArgZero(ValidArgZero { reg: r(2) })), complaint("Argument must be zero"));
    assert_eq!(p.check(Assertion::ValidSize(ValidSize { reg: r(2), can_be_zero: false })), None);
    p.bin(BinOp::MOV, 2, imm(0));
    assert_eq!(p.check(Assertion::ValidArgZero(ValidArgZero { reg: r(2) })), None);
    assert_eq!(p.check(Assertion::ValidSize(ValidSize { reg: r(2), can_be_zero: true })), None);
    assert_eq!(p.check(Assertion::ValidSize(ValidSize { reg: r(2), can_be_zero: false })), complaint("Invalid size"));
    assert_eq!(p.check(Assertion::ZeroCtxOffset(ZeroCtxOffset { reg: r(1), or_null: false })), None);
    assert_eq!(p.check(Assertion::ZeroCtxOffset(ZeroCtxOffset { reg: r(2), or_null: true })), None);
    p.bin(BinOp::ADD, 1, imm(4));
    assert_eq!(p.check(Assertion::ZeroCtxOffset(ZeroCtxOffset { reg: r(1), or_null: true })), complaint("Nonzero context offset"));
}

#[test]
fn divisors() {
    let mut p = start();
    let by = |is64: bool| Assertion::ValidDivisor(ValidDivisor { reg: r(2), is64, is_signed: false });
    p.bin(BinOp::MOV, 2, imm(0x1_0000_0000));
    assert_eq!(p.check(by(true)), None);
    assert_eq!(p.check(by(false)), complaint("Possible division by zero"));
    p.bin(BinOp::MOV, 2, imm(0));
    assert_eq!(p.check(by(true)), complaint("Possible division by zero"));
    p.ctx.runtime.allow_division_by_zero = true;
    assert_eq!(p.check(by(true)), None);
    assert_eq!(p.check(Assertion::ValidDivisor(ValidDivisor { reg: r(1), is64: true, is_signed: true })), complaint("Only numbers can be used as divisors"));
}

#[test]
fn comparisons_of_pointers() {
    let mut p = start();
    p.bin(BinOp::MOV, 2, Value::Reg(r(10)));
    assert_eq!(p.check(Assertion::Comparable(Comparable { r1: r(10), r2: r(2) })), None);
    assert_eq!(p.check(Assertion::Comparable(Comparable { r1: r(10), r2: r(1) })), complaint("Cannot subtract pointers to different regions"));
    p.bin(BinOp::MOV, 3, imm(4));
    assert_eq!(p.check(Assertion::Comparable(Comparable { r1: r(10), r2: r(3) })), None);
    p.run(Instruction::LoadMapAddress(LoadMapAddress { dst: r(4), mapfd: 1, offset: 0 }));
    p.bin(BinOp::MOV, 5, Value::Reg(r(4)));
    assert_eq!(p.check(Assertion::Comparable(Comparable { r1: r(4), r2: r(5) })), complaint("Cannot subtract pointers to non-singleton regions"));
    p.bin(BinOp::SUB, 2, Value::Reg(r(10)));
    assert_eq!(p.value(2), Some(0));
    assert_eq!(p.kind(2), Some(TypeEncoding::TNum));
}

#[test]
fn called_helpers() {
    let mut p = start();
    p.bin(BinOp::MOV, 8, imm(1));
    let call = || Assertion::FuncConstraint(FuncConstraint { reg: r(8) });
    assert_eq!(p.check(call()), Some("4: Invalid type (r1.type == map_fd)".to_string()));
    p.run(Instruction::LoadMapFd(LoadMapFd { dst: r(1), mapfd: 1 }));
    assert_eq!(p.check(call()), None);
    p.bin(BinOp::MOV, 8, imm(55));
    assert_eq!(p.check(call()), complaint("invalid helper function id 55"));
    p.unknown();
    p.bin(BinOp::MOV, 8, Value::Reg(r(0)));
    assert_eq!(p.check(call()), complaint("callx helper function id is not a valid singleton"));
}

#[test]
fn keys_and_values_of_maps() {
    let mut p = start();
    p.run(Instruction::LoadMapFd(LoadMapFd { dst: r(1), mapfd: 1 }));
    p.bin(BinOp::MOV, 2, Value::Reg(r(10)));
    p.bin(BinOp::ADD, 2, imm(-4));
    let key = || Assertion::ValidMapKeyValue(ValidMapKeyValue { access_reg: r(2), map_fd_reg: r(1), key: true });
    assert_eq!(p.check(key()), complaint("Illegal map update with a non-numerical value [4092-4096)"));
    p.store(AccessSize::Word, 10, -4, imm(10));
    assert_eq!(p.check(key()), None);
    p.ctx.runtime.strict = true;
    assert_eq!(p.check(key()), complaint("Array index overflow"));
    p.store(AccessSize::Word, 10, -4, imm(9));
    assert_eq!(p.check(key()), None);
    p.store(AccessSize::Word, 10, -4, imm(-1));
    assert_eq!(p.check(key()), complaint("Array index overflow"));
    p.bin(BinOp::MOV, 2, imm(0));
    assert_eq!(p.check(key()), complaint("Only stack, packet, or shared can be used as a parameter"));
    p.run(Instruction::LoadMapAddress(LoadMapAddress { dst: r(2), mapfd: 1, offset: 0 }));
    assert_eq!(p.check(Assertion::ValidMapKeyValue(ValidMapKeyValue { access_reg: r(2), map_fd_reg: r(1), key: false })), None);
    p.bin(BinOp::MOV, 1, imm(0));
    assert_eq!(p.check(key()), complaint("Map key size is not singleton"));
}

#[test]
fn map_types() {
    let mut p = start();
    p.run(Instruction::LoadMapFd(LoadMapFd { dst: r(1), mapfd: 1 }));
    let of = |allowed_map_types: u64| Assertion::ValidMapType(ValidMapType { map_fd_reg: r(1), allowed_map_types, helper_name: "lookup".to_string() });
    assert_eq!(p.check(of(1 << 2)), None);
    assert_eq!(p.check(of(1 << 3)), complaint("map type 2 is not allowed for lookup"));
    p.ctx.platform.maps[0].map_type = 64;
    assert_eq!(p.check(of(1 << 2)), complaint("map type 64 is out of supported range for lookup"));
    p.ctx.platform.maps[0].map_type = 0;
    assert_eq!(p.check(of(0)), None);
}

#[test]
fn joins_of_states() {
    let mut p = start();
    let mut q = start();
    p.bin(BinOp::MOV, 0, imm(1));
    q.bin(BinOp::MOV, 0, imm(5));
    let j = p.dom.join(&q.dom, &mut p.reg);
    assert_eq!(j.get_r0(&p.reg).to_string(), "[1, 5]");
    assert!(p.dom.is_included_in(&j, &mut p.reg));
    assert!(!j.is_included_in(&p.dom, &mut p.reg));
    let m = j.meet(&p.dom);
    assert_eq!(m.get_r0(&p.reg).singleton().and_then(|n| n.to_i64()), Some(1));
    let none = p.dom.meet(&q.dom);
    assert!(none.is_bottom());
    let w = p.dom.widen(&j, false, &p.ctx, &mut p.reg);
    assert_eq!(w.get_r0(&p.reg).to_string(), "[1, +oo]");
    let l = p.dom.widen(&j, true, &p.ctx, &mut p.reg);
    assert_eq!(l.get_r0(&p.reg).to_string(), "[1, 2147483647]");
    let n = w.narrow(&j);
    assert!(!n.is_bottom());
    let mut joined = p.dom.copy();
    joined.join_assign(&q.dom, &mut p.reg);
    assert_eq!(joined.get_r0(&p.reg).to_string(), "[1, 5]");
    let bottom = EbpfDomain::bottom(&p.ctx.runtime);
    assert_eq!(bottom.join(&p.dom, &mut p.reg).get_r0(&p.reg).singleton().and_then(|n| n.to_i64()), Some(1));
    assert!(EbpfDomain::top(&p.ctx.runtime).is_top());
}

#[test]
fn only_conditions_rule_states_out() {
    let mut p = start();
    let sum = Instruction::Bin(Bin { op: BinOp::ADD, dst: r(1), v: Value::Reg(r(10)), is64: true, lddw: false });
    assert_eq!(p.error(sum), "Bug! instruction leads to bottom");
    assert!(p.dom.is_bottom());
    let sum = Instruction::Bin(Bin { op: BinOp::ADD, dst: r(1), v: Value::Reg(r(10)), is64: true, lddw: false });
    p.run(sum);
    assert!(p.dom.is_bottom());
    p.run(Instruction::CallBtf);
    assert!(p.dom.is_bottom());
}

#[test]
fn states_lie_in_themselves() {
    let mut p = start();
    p.bin(BinOp::MOV, 0, imm(7));
    p.store(AccessSize::Word, 10, -4, imm(10));
    let copy = p.dom.copy();
    assert!(p.dom.is_included_in(&p.dom, &mut p.reg));
    assert!(copy.is_included_in(&p.dom, &mut p.reg) && p.dom.is_included_in(&copy, &mut p.reg));
    p.bin(BinOp::MOV, 0, imm(8));
    assert!(!p.dom.is_included_in(&copy, &mut p.reg) && !copy.is_included_in(&p.dom, &mut p.reg));
    let j = p.dom.join(&copy, &mut p.reg);
    assert!(p.dom.is_included_in(&j, &mut p.reg) && copy.is_included_in(&j, &mut p.reg));
    assert!(!j.is_included_in(&copy, &mut p.reg));
    assert!(p.dom.is_printable(&p.reg));
}

#[test]
fn keys_are_registered_where_they_are_read() {
    let mut p = start();
    p.run(Instruction::LoadMapFd(LoadMapFd { dst: r(1), mapfd: 1 }));
    p.bin(BinOp::MOV, 2, Value::Reg(r(10)));
    p.bin(BinOp::ADD, 2, imm(-12));
    p.store(AccessSize::DWord, 10, -16, imm(10));
    p.store(AccessSize::DWord, 10, -8, imm(10));
    let key = || Assertion::ValidMapKeyValue(ValidMapKeyValue { access_reg: r(2), map_fd_reg: r(1), key: true });
    let known = |p: &Run| p.reg.names().iter().any(|n| n == "s[4084...4087].svalue");
    assert_eq!(p.check(key()), None);
    assert!(!known(&p));
    p.ctx.runtime.strict = true;
    assert_eq!(p.check(Assertion::ValidMapKeyValue(ValidMapKeyValue { access_reg: r(2), map_fd_reg: r(1), key: false })), None);
    assert!(!known(&p));
    assert_eq!(p.check(key()), complaint("Array index overflow"));
    assert!(known(&p));
}

#[test]
fn calls_keep_saved_registers() {
    let mut p = start();
    p.bin(BinOp::MOV, 2, imm(4));
    p.bin(BinOp::MOV, 6, imm(9));
    p.run(Instruction::Call(Call { func: 3, contract: contract() }));
    assert_eq!(p.value(6), Some(9));
    assert_eq!(p.kind(6), Some(TypeEncoding::TNum));
    assert_eq!(p.kind(10), Some(TypeEncoding::TStack));
    assert_eq!(p.kind(0), Some(TypeEncoding::TNum));
    assert!(p.interval(DataKind::Svalues, 0).is_top());
    assert_eq!(p.kind(2), None);
    assert!(p.interval(DataKind::Svalues, 2).is_top());
    assert_eq!(p.kind(1), None);
}
