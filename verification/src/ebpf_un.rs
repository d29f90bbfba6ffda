//! Unary operations and conditions.
use vstd::prelude::*;
use vstd::arithmetic::power2::*;
use crate::acts;
use crate::acts::{Act, Place, Trace};
use crate::arith::linear_constraint::{eq, expr_eq, geq, gt, leq, neq, ConstraintKind, LinearConstraint};
use crate::arith::linear_expression::LinearExpression;
use crate::arith::number;
use crate::arith::number::Number;
use crate::arith::variable::Variable;
use crate::branching;
use crate::branching::{Fold, Transition};
use crate::byte_read;
use crate::ebpf_arith;
use crate::ebpf_bin;
use crate::ebpf_domain;
use crate::ebpf_domain::EbpfDomain;
use crate::ebpf_memory;
use crate::finite_assume;
use crate::finite_domain::{FiniteBinOp, Operand};
use crate::interval::Interval;
use crate::numeric_ops;
use crate::numeric_ops::Log;
use crate::numeric_steps;
use crate::numeric_steps::{Lin, Step};
use crate::rcp;
use crate::rcp::{reg_pack, type_to_offset_kind};
use crate::syntax::{Assume, ConditionOp, Reg, Un, UnOp, Value};
use crate::type_encoding::{TypeEncoding, TypeSet};
use crate::var_registry::VariableRegistry;
use crate::zone_domain::ArithBinOp;

verus! {

// ---------------------------------------------------------------------------------------------
// Byte order
// ---------------------------------------------------------------------------------------------

/// The low `k` bytes of a number in reverse order, as an unsigned number.
pub open spec fn reversed(x: int, k: nat) -> int {
    byte_read::value_of_bytes(byte_read::placed(x, k, false), k, true)
}

/// What an operation makes of a value.
#[derive(Clone, Copy, PartialEq, Eq, Structural)]
pub enum ByteChange {
    /// Reverses the low bytes.
    Swap(u8),
    /// Keeps the low bytes.
    Cut(u8),
    /// The opposite.
    Negate,
    Nothing,
}

/// What a unary operation makes of a value on a machine of a byte order.
pub open spec fn byte_change(op: UnOp, big_endian: bool) -> ByteChange {
    match op {
        UnOp::BE16 => if big_endian { ByteChange::Cut(2) } else { ByteChange::Swap(2) },
        UnOp::BE32 => if big_endian { ByteChange::Cut(4) } else { ByteChange::Swap(4) },
        UnOp::BE64 => if big_endian { ByteChange::Nothing } else { ByteChange::Swap(8) },
        UnOp::LE16 => if big_endian { ByteChange::Swap(2) } else { ByteChange::Cut(2) },
        UnOp::LE32 => if big_endian { ByteChange::Swap(4) } else { ByteChange::Cut(4) },
        UnOp::LE64 => if big_endian { ByteChange::Swap(8) } else { ByteChange::Nothing },
        UnOp::SWAP16 => ByteChange::Swap(2),
        UnOp::SWAP32 => ByteChange::Swap(4),
        UnOp::SWAP64 => ByteChange::Swap(8),
        UnOp::NEG => ByteChange::Negate,
    }
}

fn change_of(op: UnOp, big_endian: bool) -> (r: ByteChange)
    ensures r == byte_change(op, big_endian),
{
    match op {
        UnOp::BE16 => if big_endian { ByteChange::Cut(2) } else { ByteChange::Swap(2) },
        UnOp::BE32 => if big_endian { ByteChange::Cut(4) } else { ByteChange::Swap(4) },
        UnOp::BE64 => if big_endian { ByteChange::Nothing } else { ByteChange::Swap(8) },
        UnOp::LE16 => if big_endian { ByteChange::Swap(2) } else { ByteChange::Cut(2) },
        UnOp::LE32 => if big_endian { ByteChange::Swap(4) } else { ByteChange::Cut(4) },
        UnOp::LE64 => if big_endian { ByteChange::Swap(8) } else { ByteChange::Nothing },
        UnOp::SWAP16 => ByteChange::Swap(2),
        UnOp::SWAP32 => ByteChange::Swap(4),
        UnOp::SWAP64 => ByteChange::Swap(8),
        UnOp::NEG => ByteChange::Negate,
    }
}

/// The value after a change of its bytes. Only eight bytes have a sign.
pub open spec fn changed_value(c: ByteChange, x: int) -> int {
    match c {
        ByteChange::Swap(k) => {
            let r = reversed(number::wrap_unsigned(x, 8 * k), k as nat);
            if k == 8 { number::wrap_signed(r, 64) } else { r }
        },
        ByteChange::Cut(k) => number::wrap_unsigned(x, 8 * k),
        _ => x,
    }
}

/// Reversing the bytes of a number twice gives the number back.
pub proof fn reversing_twice(x: int, k: nat)
    requires 0 <= x < pow2(8 * k),
    ensures reversed(reversed(x, k), k) == x,
{
    let f = byte_read::placed(x, k, false);
    let y = reversed(x, k);
    assert forall|i: int| 0 <= i < k implies 0 <= #[trigger] f(i) < 256 by {}
    byte_read::bytes_fit(f, k, true);
    let g = byte_read::placed(y, k, false);
    assert forall|i: int| 0 <= i < k implies #[trigger] g(i) == f(k - 1 - i) by {
        lemma_byte_of_value(f, k, (k - 1 - i) as nat);
        assert(k - 1 - (k - 1 - i) == i);
    }
    lemma_reversed_order(f, g, k);
    byte_read::bytes_round_trip(x, k, false);
}

/// The operations that give a number the byte order of their name convert from and to the order of the
/// machine: in memory, the result has the low bytes of the number in the order of the name. Those that
/// swap bytes give the order that the machine does not have.
pub proof fn byte_orders_are_converted(op: UnOp, machine: bool, x: int, k: nat, i: int)
    requires
        i64::MIN <= x <= i64::MAX,
        0 <= i < k,
        match op {
            UnOp::BE16 | UnOp::LE16 | UnOp::SWAP16 => k == 2,
            UnOp::BE32 | UnOp::LE32 | UnOp::SWAP32 => k == 4,
            UnOp::BE64 | UnOp::LE64 | UnOp::SWAP64 => k == 8,
            UnOp::NEG => false,
        },
    ensures
        ({
            let wanted = match op {
                UnOp::BE16 | UnOp::BE32 | UnOp::BE64 => true,
                UnOp::LE16 | UnOp::LE32 | UnOp::LE64 => false,
                _ => !machine,
            };
            let result = number::wrap_unsigned(changed_value(byte_change(op, machine), x), 8 * k as int);
            byte_read::placed(result, k, machine)(i) == byte_read::placed(number::wrap_unsigned(x, 8 * k as int), k, wanted)(i)
        }),
{
    let l = number::wrap_unsigned(x, 8 * k as int);
    number::lemma_wrap_range(x, 8 * k as int);
    let r = reversed(l, k);
    let f = byte_read::placed(l, k, false);
    assert forall|j: int| 0 <= j < k implies 0 <= #[trigger] f(j) < 256 by {}
    byte_read::bytes_fit(f, k, true);
    lemma_byte_of_value(f, k, i as nat);
    lemma_byte_of_value(f, k, (k - 1 - i) as nat);
    assert(k - 1 - (k - 1 - i) == i);
    number::lemma_wrap_identity(r, 8 * k as int);
    number::lemma_wrap_identity(l, 8 * k as int);
    lemma2_to64();
    lemma2_to64_rest();
    if k == 8 {
        let t = number::wrap_signed(r, 64);
        assert(t == r || t == r - 0x1_0000_0000_0000_0000);
        assert(number::wrap_unsigned(t, 64) == r) by {
            assert((r - 0x1_0000_0000_0000_0000) % 0x1_0000_0000_0000_0000 == r % 0x1_0000_0000_0000_0000);
        }
    }
}

/// The byte at a place of a value whose bytes are given in order, the first the most significant.
proof fn lemma_byte_of_value(f: spec_fn(int) -> int, k: nat, j: nat)
    requires j < k, forall|i: int| 0 <= i < k ==> 0 <= #[trigger] f(i) < 256,
    ensures (byte_read::value_of_bytes(f, k, true) / (pow2((8 * (k - 1 - j)) as nat) as int)) % 256 == f(j as int),
    decreases k,
{
    lemma2_to64();
    let v = byte_read::value_of_bytes(f, k, true);
    let head = byte_read::value_of_bytes(f, (k - 1) as nat, true);
    assert(v == head * 256 + f(k - 1));
    if j == k - 1 {
        assert((8 * (k - 1 - j)) as nat == 0);
        assert(v / (pow2(0) as int) == v) by { assert(pow2(0) == 1); }
        vstd::arithmetic::div_mod::lemma_mod_multiples_vanish(head, f(k - 1), 256);
        vstd::arithmetic::div_mod::lemma_small_mod(f(k - 1) as nat, 256);
        assert(256 * head == head * 256);
    } else {
        byte_read::bytes_fit(f, (k - 1) as nat, true);
        let p = pow2((8 * (k - 2 - j)) as nat) as int;
        lemma_pow2_pos((8 * (k - 2 - j)) as nat);
        lemma_pow2_adds(8, (8 * (k - 2 - j)) as nat);
        assert(pow2((8 * (k - 1 - j)) as nat) == 256 * p);
        assert(v / 256 == head) by {
            vstd::arithmetic::div_mod::lemma_fundamental_div_mod_converse(v, 256, head, f(k - 1));
        }
        byte_read::bytes_fit(f, k, true);
        vstd::arithmetic::div_mod::lemma_div_denominator(v, 256, p);
        lemma_byte_of_value(f, (k - 1) as nat, j);
    }
}

/// Bytes in reverse order, read the other way round, give the same value.
proof fn lemma_reversed_order(f: spec_fn(int) -> int, g: spec_fn(int) -> int, k: nat)
    requires forall|i: int| 0 <= i < k ==> #[trigger] g(i) == f(k - 1 - i),
    ensures byte_read::value_of_bytes(g, k, true) == byte_read::value_of_bytes(f, k, false),
    decreases k,
{
    if k > 0 {
        let n = (k - 1) as nat;
        let fs = |i: int| f(i + 1);
        assert forall|i: int| 0 <= i < n implies #[trigger] g(i) == fs(n - 1 - i) by {
            assert(g(i) == f(k - 1 - i));
        }
        lemma_reversed_order(fs, g, n);
        assert(g(k - 1) == f(0));
        lemma_little_shift(f, n);
    }
}

proof fn lemma_little_shift(f: spec_fn(int) -> int, n: nat)
    ensures byte_read::value_of_bytes(f, n + 1, false) == byte_read::value_of_bytes(|i: int| f(i + 1), n, false) * 256 + f(0),
    decreases n,
{
    lemma2_to64();
    let fs = |i: int| f(i + 1);
    if n == 0 {
        assert(byte_read::value_of_bytes(f, 0, false) == 0);
        assert(byte_read::value_of_bytes(f, 1, false) == 0 + f(0) * (pow2(0) as int));
    } else {
        lemma_little_shift(f, (n - 1) as nat);
        let p = pow2((8 * (n - 1)) as nat) as int;
        lemma_pow2_adds((8 * (n - 1)) as nat, 8);
        assert(pow2(8 * n) == p * 256);
        let a = byte_read::value_of_bytes(fs, (n - 1) as nat, false);
        assert(byte_read::value_of_bytes(fs, n, false) == a + f(n as int) * p);
        assert(byte_read::value_of_bytes(f, n + 1, false) == byte_read::value_of_bytes(f, n, false) + f(n as int) * (p * 256));
        let b = f(n as int);
        assert((a + b * p) * 256 == a * 256 + b * (p * 256)) by(nonlinear_arith);
    }
}

/// The low `k` bytes of a number in reverse order.
fn reverse_bytes(x: u64, k: u8) -> (r: u64)
    requires k <= 8, x < pow2((8 * k) as nat),
    ensures r == reversed(x as int, k as nat), r < pow2((8 * k) as nat),
{
    let ghost f = byte_read::placed(x as int, k as nat, false);
    let mut rest: u64 = x;
    let mut out: u128 = 0;
    let mut i: u8 = 0;
    proof {
        lemma2_to64();
        assert(x as int / (pow2(0) as int) == x as int) by { assert(pow2(0) == 1); }
    }
    while i < k
        invariant
            i <= k,
            k <= 8,
            rest == x as int / (pow2((8 * i) as nat) as int),
            f == byte_read::placed(x as int, k as nat, false),
            out == byte_read::value_of_bytes(f, i as nat, true),
            out < pow2((8 * i) as nat),
        decreases k - i,
    {
        proof {
            lemma2_to64();
            let p = pow2((8 * i) as nat) as int;
            lemma_pow2_pos((8 * i) as nat);
            lemma_pow2_adds((8 * i) as nat, 8);
            vstd::arithmetic::div_mod::lemma_div_denominator(x as int, p, 256);
            assert(f(i as int) == rest % 256);
            if i < 8 { lemma_pow2_strictly_increases((8 * i) as nat, 64); }
            lemma2_to64_rest();
            assert(out * 256 + 255 < p * 256) by(nonlinear_arith) requires out <= p - 1;
        }
        out = out * 256 + (rest % 256) as u128;
        rest = rest / 256;
        i = i + 1;
    }
    proof {
        lemma2_to64();
        lemma2_to64_rest();
        if k < 8 { lemma_pow2_strictly_increases((8 * k) as nat, 64); }
    }
    out as u64
}

/// The value after a change of its bytes.
fn change_value(c: ByteChange, x: i64) -> (r: i64)
    requires c matches ByteChange::Swap(k) ==> k == 2 || k == 4 || k == 8, c matches ByteChange::Cut(k) ==> k == 2 || k == 4,
    ensures r == changed_value(c, x as int),
{
    proof { lemma2_to64(); lemma2_to64_rest(); }
    match c {
        ByteChange::Swap(k) => {
            proof { vstd::arithmetic::div_mod::lemma_mod_bound(x as int, pow2((8 * k) as nat) as int); }
            let u: u64 = Number::of(x as i128).cast_to_unsigned_width(8 * k as u32).narrow_to_u64();
            let r: u64 = reverse_bytes(u, k);
            if k == 8 {
                proof { vstd::arithmetic::div_mod::lemma_mod_bound(r as int, pow2(64) as int); }
                Number::of(r as i128).cast_to_signed_width(64).narrow_to_i64()
            } else {
                r as i64
            }
        }
        ByteChange::Cut(k) => {
            proof { vstd::arithmetic::div_mod::lemma_mod_bound(x as int, pow2((8 * k) as nat) as int); }
            Number::of(x as i128).cast_to_unsigned_width(8 * k as u32).narrow_to_i64()
        }
        _ => x,
    }
}

/// What was found of one value of a register whose bytes are changed.
pub struct ByteSeen {
    pub is_num: bool,
    pub iv: Interval,
}

/// A change of the bytes of one value: a known one is computed, any other is forgotten.
pub open spec fn byte_acts(r: Reg, v: u64, c: ByteChange, w: ByteSeen) -> Seq<Act> {
    seq![Act::InGroup(r, ebpf_arith::nums(), w.is_num)] + (if !w.is_num {
        seq![ebpf_memory::numbers(seq![Step::Forget(v)]), ebpf_memory::forgets_offsets(r)]
    } else {
        seq![Act::ValueOf(v, w.iv)] + (match known_value(w.iv) {
            Some(x) => seq![ebpf_memory::numbers(seq![numeric_ops::set_number(v, changed_value(c, x))])],
            None => seq![ebpf_memory::numbers(seq![Step::Forget(v)]), ebpf_memory::forgets_offsets(r)],
        })
    })
}

/// The value of an interval that holds one signed 64-bit number.
pub open spec fn known_value(iv: Interval) -> Option<int> {
    match iv.singleton_spec() {
        Some(n) => if i64::MIN <= n@ <= i64::MAX { Some(n@) } else { None },
        None => None,
    }
}

/// The opposite of a register.
pub open spec fn negate_acts(un: Un) -> Seq<Act> {
    let s = ebpf_arith::sv(un.dst);
    let u = ebpf_arith::uv(un.dst);
    seq![
        ebpf_memory::numbers(seq![Step::Signed(FiniteBinOp::Arith(ArithBinOp::MUL), s, u, s, ebpf_arith::lit(-1), if un.is64 { 64 } else { 32 })]),
        ebpf_memory::forgets_offsets(un.dst),
    ]
}

/// What a unary operation does.
pub open spec fn un_acts(be: bool, un: Un, ws: ByteSeen, wu: ByteSeen) -> Seq<Act> {
    let c = byte_change(un.op, be);
    match c {
        ByteChange::Nothing => seq![],
        ByteChange::Negate => negate_acts(un),
        _ => byte_acts(un.dst, ebpf_arith::sv(un.dst), c, ws) + byte_acts(un.dst, ebpf_arith::uv(un.dst), c, wu),
    }
}

/// What a unary operation does; nothing to a state that is not possible.
pub open spec fn un_effect(be: bool, un: Un, a: Place, b: Place) -> bool {
    if a.0.num() is None { a == b } else { exists|ws: ByteSeen, wu: ByteSeen| acts::follows(be, a, #[trigger] un_acts(be, un, ws, wu), b) }
}

fn change_bytes(dom: &mut EbpfDomain, reg: &Reg, v: Variable, c: ByteChange, registry: &mut VariableRegistry, trace: &mut Trace) -> (w: Ghost<ByteSeen>)
    requires
        old(trace).leads_to(old(dom), old(registry)@), reg.ok(), old(registry)@.knows(v),
        c matches ByteChange::Swap(k) ==> k == 2 || k == 4 || k == 8, c matches ByteChange::Cut(k) ==> k == 2 || k == 4,
    ensures
        final(registry)@ == old(registry)@,
        final(trace).leads_to(final(dom), final(registry)@),
        final(trace).grew(old(trace), byte_acts(*reg, v.id, c, w@)),
{
    let ghost t0 = trace.acts@;
    let is_num: bool = acts::test_in_group(dom, reg, TypeSet::singleton(TypeEncoding::TNum), registry, trace);
    let mut iv: Interval = Interval::top();
    if is_num {
        iv = acts::evaluate_var(dom, v, registry, trace);
        if let Some(n) = iv.singleton() {
            if let Some(x) = n.to_i64() {
                let y: i64 = change_value(c, x);
                let ghost before: Place = (*dom, registry@);
                let mut log = Log::new(&dom.state.values, registry);
                numeric_ops::put(&mut dom.state.values, v, &Interval::from_i64(y), registry, &mut log);
                assert(log.done@ =~= seq![numeric_ops::set_number(v.id, changed_value(c, x as int))]);
                trace.numbers(&log, Ghost(before), dom, registry);
                let ghost w = ByteSeen { is_num, iv };
                assert(trace.acts@ =~= t0 + byte_acts(*reg, v.id, c, w));
                return Ghost(w);
            }
        }
    }
    ebpf_arith::forget_variable(dom, v, registry, trace);
    acts::forget_offsets(dom, reg, registry, trace);
    let ghost w = ByteSeen { is_num, iv };
    assert(trace.acts@ =~= t0 + byte_acts(*reg, v.id, c, w));
    Ghost(w)
}

/// Performs a unary operation.
pub(crate) fn transform_un(dom: &mut EbpfDomain, un: &Un, big_endian: bool, registry: &mut VariableRegistry)
    requires old(dom).wf(), old(registry)@.ready(), un.dst.ok(),
    ensures
        final(dom).wf(),
        final(registry)@ == old(registry)@,
        un_effect(big_endian, *un, (*old(dom), old(registry)@), (*final(dom), final(registry)@)),
{
    let ghost start: Place = (*dom, registry@);
    if dom.is_bottom() {
        return;
    }
    let mut trace = Trace::new(Ghost(big_endian), dom, registry);
    let dst = reg_pack(&un.dst, registry);
    let c = change_of(un.op, big_endian);
    let ghost none = ByteSeen { is_num: false, iv: Interval::all() };
    match c {
        ByteChange::Nothing => {
            assert(trace.acts@ =~= un_acts(big_endian, *un, none, none));
            assert(acts::follows(big_endian, start, un_acts(big_endian, *un, none, none), (*dom, registry@)));
        }
        ByteChange::Negate => {
            let width: i32 = if un.is64 { 64 } else { 32 };
            let operand = Operand::Num(Number::of(-1));
            let ghost before: Place = (*dom, registry@);
            let mut log = Log::new(&dom.state.values, registry);
            numeric_ops::signed(&mut dom.state.values, FiniteBinOp::Arith(ArithBinOp::MUL), dst.svalue, dst.uvalue, dst.svalue, operand, width, registry, &mut log);
            assert(log.done@ =~= seq![Step::Signed(FiniteBinOp::Arith(ArithBinOp::MUL), ebpf_arith::sv(un.dst), ebpf_arith::uv(un.dst), ebpf_arith::sv(un.dst), ebpf_arith::lit(-1), width as int)]);
            trace.numbers(&log, Ghost(before), dom, registry);
            acts::forget_offsets(dom, &un.dst, registry, &mut trace);
            assert(trace.acts@ =~= un_acts(big_endian, *un, none, none));
            assert(acts::follows(big_endian, start, un_acts(big_endian, *un, none, none), (*dom, registry@)));
        }
        _ => {
            let ws = change_bytes(dom, &un.dst, dst.svalue, c, registry, &mut trace);
            let wu = change_bytes(dom, &un.dst, dst.uvalue, c, registry, &mut trace);
            assert(trace.acts@ =~= un_acts(big_endian, *un, ws@, wu@));
            assert(acts::follows(big_endian, start, un_acts(big_endian, *un, ws@, wu@), (*dom, registry@)));
        }
    }
}

// ---------------------------------------------------------------------------------------------
// Conditions
// ---------------------------------------------------------------------------------------------

/// What a comparison of two pointers to one region says of their offsets.
pub open spec fn offsets_compare(op: ConditionOp, d: u64, s: u64) -> Lin {
    let x = numeric_steps::just_var(d);
    let y = numeric_steps::just_var(s);
    match op {
        ConditionOp::EQ => numeric_steps::equal(x, y),
        ConditionOp::NE => Lin { terms: numeric_steps::minus(x, y).terms, constant: numeric_steps::minus(x, y).constant, kind: ConstraintKind::NotZero },
        ConditionOp::GE | ConditionOp::SGE => numeric_steps::at_most(y, x),
        ConditionOp::LE | ConditionOp::SLE => numeric_steps::at_most(x, y),
        ConditionOp::GT | ConditionOp::SGT => numeric_steps::below(y, x),
        ConditionOp::LT | ConditionOp::SLT => numeric_steps::below(x, y),
        ConditionOp::SET | ConditionOp::NSET => numeric_steps::equal(numeric_steps::minus(x, x), numeric_steps::just_num(0)),
    }
}

/// The constraint of a comparison of two pointers.
fn assume_cst_offsets_reg(op: ConditionOp, dst_offset: Variable, src_offset: Variable) -> (r: LinearConstraint)
    ensures
        numeric_steps::lin_of(&r) == offsets_compare(op, dst_offset.id, src_offset.id),
        forall|k: u64| #[trigger] r.expression.terms@.contains_key(k) ==> k == dst_offset.id || k == src_offset.id,
{
    let x = LinearExpression::from_variable(dst_offset);
    let y = LinearExpression::from_variable(src_offset);
    match op {
        ConditionOp::EQ => eq(dst_offset, src_offset),
        ConditionOp::NE => neq(dst_offset, src_offset),
        ConditionOp::GE | ConditionOp::SGE => geq(x, y),
        ConditionOp::LE | ConditionOp::SLE => leq(x, y),
        ConditionOp::GT | ConditionOp::SGT => gt(x, y),
        ConditionOp::LT | ConditionOp::SLT => gt(y, x),
        ConditionOp::SET | ConditionOp::NSET => {
            let same = LinearExpression::from_variable(dst_offset);
            expr_eq(x.subtract(&same), LinearExpression::from_i64(0))
        }
    }
}

/// A comparison of two registers as numbers.
pub open spec fn compare_acts(s: Assume, src: Reg, cs: Seq<LinearConstraint>) -> Seq<Act> {
    let c = s.cond;
    seq![
        Act::AssumeReg(c.op, c.is64, ebpf_arith::sv(c.left), ebpf_arith::uv(c.left), ebpf_arith::sv(src), ebpf_arith::uv(src), cs),
        ebpf_memory::numbers(ebpf_domain::said(cs)),
    ]
}

/// A comparison of two registers of the same one type.
pub open spec fn assume_branch(be: bool, s: Assume, src: Reg) -> Transition {
    |a: Place, te: TypeEncoding, b: Place| if te is TNum {
        exists|cs: Seq<LinearConstraint>| acts::follows(be, a, #[trigger] compare_acts(s, src, cs), b)
    } else {
        match rcp::offset_kind(te) {
            Some(k) => acts::follows(be, a, seq![ebpf_memory::numbers(seq![Step::Say(offsets_compare(s.cond.op, rcp::id_of(k, s.cond.left), rcp::id_of(k, src)))])], b),
            None => a == b,
        }
    }
}

/// A comparison with a number.
pub open spec fn compare_imm_acts(s: Assume, imm: int, cs: Seq<LinearConstraint>) -> Seq<Act> {
    let c = s.cond;
    seq![Act::AssumeImm(c.op, c.is64, ebpf_arith::sv(c.left), ebpf_arith::uv(c.left), imm as i64, cs), ebpf_memory::numbers(ebpf_domain::said(cs))]
}

/// A comparison of registers whose types may differ: with a number as numbers; anything else is
/// ruled out.
pub open spec fn mixed_acts(s: Assume, src: Reg, is_num: bool, cs: Seq<LinearConstraint>) -> Seq<Act> {
    seq![Act::SameType(s.cond.left, src, false), Act::HasType(src, TypeEncoding::TNum, is_num)]
        + (if is_num { compare_acts(s, src, cs) } else { seq![Act::Nothing] })
}

/// What a condition does.
pub open spec fn assume_effect(be: bool, s: Assume, a: Place, b: Place) -> bool {
    if a.0.num() is None {
        a == b
    } else {
        match s.cond.right {
            Value::Imm(i) => exists|cs: Seq<LinearConstraint>| acts::follows(be, a, #[trigger] compare_imm_acts(s, ebpf_bin::immediate(i.v, true), cs), b),
            Value::Reg(src) => {
                ||| ebpf_bin::runs_over_types(be, seq![Act::SameType(s.cond.left, src, true)], s.cond.left, assume_branch(be, s, src), seq![], a, b)
                ||| exists|is_num: bool, cs: Seq<LinearConstraint>| acts::follows(be, a, #[trigger] mixed_acts(s, src, is_num, cs), b)
            },
        }
    }
}

/// Adds constraints.
fn add_all(dom: &mut EbpfDomain, cs: &Vec<LinearConstraint>, registry: &VariableRegistry, trace: &mut Trace)
    requires old(trace).leads_to(old(dom), registry@), finite_assume::all_known(registry@, cs@),
    ensures final(trace).leads_to(final(dom), registry@), final(trace).with(ebpf_memory::numbers(ebpf_domain::said(cs@)), old(trace)),
{
    let ghost before: Place = (*dom, registry@);
    let mut log = Log::new(&dom.state.values, registry);
    let mut i: usize = 0;
    assert(ebpf_domain::said(cs@.take(0)) =~= seq![]);
    while i < cs.len()
        invariant
            i <= cs.len(),
            dom.wf(),
            dom.stack == before.0.stack,
            dom.state.types == before.0.state.types,
            finite_assume::all_known(registry@, cs@),
            log.leads_to(&dom.state.values, registry@),
            log.start@ == before.0.num(),
            log.older@ == registry@,
            log.done@ == ebpf_domain::said(cs@.take(i as int)),
        decreases cs.len() - i,
    {
        numeric_ops::say(&mut dom.state.values, &cs[i], registry, &mut log);
        assert(cs@.take(i + 1) =~= cs@.take(i as int).push(cs@[i as int]));
        assert(log.done@ =~= ebpf_domain::said(cs@.take(i + 1)));
        i = i + 1;
    }
    assert(cs@.take(cs@.len() as int) =~= cs@);
    trace.numbers(&log, Ghost(before), dom, registry);
}

fn compare_registers(dom: &mut EbpfDomain, s: &Assume, src: &Reg, registry: &VariableRegistry, trace: &mut Trace) -> (cs: Ghost<Seq<LinearConstraint>>)
    requires old(trace).leads_to(old(dom), registry@), s.cond.left.ok(), src.ok(),
    ensures final(trace).leads_to(final(dom), registry@), final(trace).grew(old(trace), compare_acts(*s, *src, cs@)),
{
    let ghost t0 = trace.acts@;
    let p = reg_pack(&s.cond.left, registry);
    let q = reg_pack(src, registry);
    let cs = acts::list_register(dom, s.cond.op, s.cond.is64, p.svalue, p.uvalue, q.svalue, q.uvalue, registry, trace);
    add_all(dom, &cs, registry, trace);
    assert(trace.acts@ =~= t0 + compare_acts(*s, *src, cs@));
    Ghost(cs@)
}

fn assume_one(dom: &mut EbpfDomain, s: &Assume, src: &Reg, te: TypeEncoding, registry: &mut VariableRegistry, Ghost(be): Ghost<bool>)
    requires old(dom).wf(), old(registry)@.ready(), s.cond.left.ok(), src.ok(),
    ensures
        final(dom).wf(),
        final(registry)@ == old(registry)@,
        assume_branch(be, *s, *src)((*old(dom), old(registry)@), te, (*final(dom), final(registry)@)),
{
    let ghost start: Place = (*dom, registry@);
    let mut trace = Trace::new(Ghost(be), dom, registry);
    if matches!(te, TypeEncoding::TNum) {
        let cs = compare_registers(dom, s, src, registry, &mut trace);
        assert(trace.acts@ =~= compare_acts(*s, *src, cs@));
        assert(acts::follows(be, start, compare_acts(*s, *src, cs@), (*dom, registry@)));
        return;
    }
    match type_to_offset_kind(te) {
        Some(k) => {
            proof {
                registry@.register_variable(k, s.cond.left.v as int);
                registry@.register_variable(k, src.v as int);
            }
            let p = reg_pack(&s.cond.left, registry);
            let q = reg_pack(src, registry);
            let c = assume_cst_offsets_reg(s.cond.op, p.get(k), q.get(k));
            let ghost before: Place = (*dom, registry@);
            let mut log = Log::new(&dom.state.values, registry);
            numeric_ops::say(&mut dom.state.values, &c, registry, &mut log);
            assert(log.done@ =~= seq![Step::Say(offsets_compare(s.cond.op, rcp::id_of(k, s.cond.left), rcp::id_of(k, *src)))]);
            trace.numbers(&log, Ghost(before), dom, registry);
            assert(trace.acts@ =~= seq![ebpf_memory::numbers(seq![Step::Say(offsets_compare(s.cond.op, rcp::id_of(k, s.cond.left), rcp::id_of(k, *src)))])]);
        }
        None => {}
    }
}

fn assume_same_type(dom: &mut EbpfDomain, s: &Assume, src: &Reg, registry: &mut VariableRegistry, Ghost(be): Ghost<bool>)
    requires old(dom).wf(), old(registry)@.ready(), s.cond.left.ok(), src.ok(),
    ensures
        final(dom).wf(),
        final(registry)@.ready(),
        branching::over_types((*old(dom), old(registry)@), s.cond.left, assume_branch(be, *s, *src), (*final(dom), final(registry)@)),
{
    let left: Reg = s.cond.left;
    let ghost start: Place = (*dom, registry@);
    let ghost rel = assume_branch(be, *s, *src);
    if !acts::is_initialized(dom, &left, registry) {
        assume_one(dom, s, src, TypeEncoding::TUninit, registry, Ghost(be));
        return;
    }
    let mut fold = Fold::new(dom, &left, registry, Ghost(rel));
    while fold.more()
        invariant
            left.ok(), src.ok(), left == s.cond.left,
            dom.stack.wf(),
            fold.ok(dom.stack, registry@),
            fold.about() == (start, left, rel),
            rel == assume_branch(be, *s, *src),
            0 <= fold.count() <= fold.tes().len(),
            registry@.ready(),
        decreases fold.tes().len() - fold.count(),
    {
        let te = fold.take(dom, registry);
        let ghost input: Place = (*dom, registry@);
        proof { numeric_steps::extends_itself(registry@); }
        assume_one(dom, s, src, te, registry, Ghost(be));
        fold.give(dom, registry, Ghost(input));
    }
    fold.finish(dom, registry);
}

/// Restricts a state to what a condition admits.
pub(crate) fn transform_assume(dom: &mut EbpfDomain, s: &Assume, registry: &mut VariableRegistry, Ghost(be): Ghost<bool>)
    requires old(dom).wf(), old(registry)@.ready(), s.cond.left.ok(), s.cond.right.ok(),
    ensures
        final(dom).wf(),
        final(registry)@.ready(),
        assume_effect(be, *s, (*old(dom), old(registry)@), (*final(dom), final(registry)@)),
{
    let ghost start: Place = (*dom, registry@);
    if dom.is_bottom() {
        return;
    }
    let mut trace = Trace::new(Ghost(be), dom, registry);
    match s.cond.right {
        Value::Imm(i) => {
            let imm: i64 = ebpf_bin::immediate_of(i.v, true);
            let p = reg_pack(&s.cond.left, registry);
            let cs = acts::list_immediate(dom, s.cond.op, s.cond.is64, p.svalue, p.uvalue, imm, registry, &mut trace);
            add_all(dom, &cs, registry, &mut trace);
            assert(trace.acts@ =~= compare_imm_acts(*s, imm as int, cs@));
            assert(acts::follows(be, start, compare_imm_acts(*s, ebpf_bin::immediate(i.v, true), cs@), (*dom, registry@)));
        }
        Value::Reg(src) => {
            if acts::test_same_type(dom, &s.cond.left, &src, registry, &mut trace) {
                assert(trace.acts@ =~= seq![Act::SameType(s.cond.left, src, true)]);
                let ghost m: Place = (*dom, registry@);
                assume_same_type(dom, s, &src, registry, Ghost(be));
                proof {
                    let n: Place = (*dom, registry@);
                    acts::follows_nothing(be, n);
                    assert(acts::follows(be, start, seq![Act::SameType(s.cond.left, src, true)], m));
                    assert(acts::follows(be, n, seq![], n));
                    assert(ebpf_bin::runs_over_types(be, seq![Act::SameType(s.cond.left, src, true)], s.cond.left, assume_branch(be, *s, src), seq![], start, n));
                }
                return;
            }
            let is_num: bool = acts::test_has_type(dom, &src, TypeEncoding::TNum, registry, &mut trace);
            let ghost t1 = trace.acts@;
            if is_num {
                let cs = compare_registers(dom, s, &src, registry, &mut trace);
                assert(trace.acts@ =~= mixed_acts(*s, src, true, cs@));
                assert(acts::follows(be, start, mixed_acts(*s, src, true, cs@), (*dom, registry@)));
            } else {
                acts::rule_out(dom, registry, &mut trace);
                let ghost cs: Seq<LinearConstraint> = seq![];
                assert(trace.acts@ =~= mixed_acts(*s, src, false, cs));
                assert(acts::follows(be, start, mixed_acts(*s, src, false, cs), (*dom, registry@)));
            }
        }
    }
}

}
