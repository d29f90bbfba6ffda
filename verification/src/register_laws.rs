//! Arithmetic on registers is sound: from a valuation of a zone it leads to a valuation of the
//! result, in which the values have wrapped to the width.
use vstd::prelude::*;
use vstd::arithmetic::power2::*;
use crate::add_bottom;
use crate::arith::extended_number::ExtendedNumber;
use crate::arith::linear_expression::{Env, LinearExpression};
use crate::arith::number;
use crate::arith::number::Number;
use crate::branch_laws;
use crate::finite_domain;
use crate::finite_domain::{BitwiseBinOp, FiniteBinOp, Operand, SignedArithBinOp};
use crate::interval::{Division, Interval};
use crate::interval_laws;
use crate::splitdbm::constraints;
use crate::type_encoding::DataKind;
use crate::var_registry::RegistryView;
use crate::word_laws;
use crate::zone_domain;
use crate::zone_domain::ArithBinOp;
use crate::zone_model;
use crate::zone_model::ZEdges;

verus! {

/// A value as a register holds it after an operation at a width.
pub open spec fn wrapped(x: int, width: int, is_signed: bool) -> int {
    let w = number::wrap_unsigned(x, width);
    if is_signed { number::wrap_signed(w, 64) } else { w }
}

/// A valuation after a register took a value at a width.
pub open spec fn with_register(env: Env, s: u64, u: u64, x: int, width: int) -> Env {
    |k: u64| if k == u { wrapped(x, width, false) } else if k == s { wrapped(x, width, true) } else { env(k) }
}

pub proof fn lemma_wrapped(x: int, width: int)
    requires width == 32 || width == 64,
    ensures
        branch_laws::readings(wrapped(x, width, true), wrapped(x, width, false)),
        wrapped(x, width, false) == number::wrap_unsigned(x, width),
        width == 64 ==> wrapped(x, width, true) == number::wrap_signed(x, 64),
        width == 32 ==> wrapped(x, width, true) == number::wrap_unsigned(x, 32),
{
    lemma2_to64();
    lemma2_to64_rest();
    number::lemma_wrap_range(x, width);
    let w = number::wrap_unsigned(x, width);
    number::lemma_wrap_identity(w, 64);
    number::lemma_wrap_range(w, 64);
}

/// The bound of a product of two registers.
pub const WIDE: i128 = 0x4000_0000_0000_0000_0000_0000_0000_0000;

/// The values are modest, but for the two readings of a register, which may be as large as a
/// product.
pub open spec fn steady(env: Env, s: u64, u: u64) -> bool {
    &&& forall|k: u64| k != s && k != u ==> -interval_laws::MODEST <= #[trigger] env(k) <= interval_laws::MODEST
    &&& -WIDE <= env(s) <= WIDE
    &&& -WIDE <= env(u) <= WIDE
    &&& -constraints::REACH <= env(s) - env(u) <= constraints::REACH
}

proof fn lemma_steady(env: Env, s: u64, u: u64)
    requires steady(env, s, u),
    ensures zone_model::mild(env),
{
    assert forall|j: u64, k: u64| #![trigger env(j), env(k)] env(j) - env(k) <= constraints::REACH by {
        assert(j == s || j == u || -interval_laws::MODEST <= env(j) <= interval_laws::MODEST);
        assert(k == s || k == u || -interval_laws::MODEST <= env(k) <= interval_laws::MODEST);
    }
}

/// A new reading of a register keeps a valuation steady.
proof fn lemma_steady_change(env: Env, s: u64, u: u64, v: u64, x: int)
    requires
        steady(env, s, u),
        s != u,
        v == s || v == u,
        -WIDE <= x <= WIDE,
        -constraints::REACH <= x - env(v) <= constraints::REACH,
        -constraints::REACH <= x - env(if v == s { u } else { s }) <= constraints::REACH,
    ensures steady(zone_model::env_with(env, v, x), s, u), zone_model::mild_change(env, v, x),
{
    let next = zone_model::env_with(env, v, x);
    assert forall|k: u64| k != s && k != u implies -interval_laws::MODEST <= #[trigger] next(k) <= interval_laws::MODEST by {
        assert(next(k) == env(k));
    }
    lemma_steady(next, s, u);
}

/// Valuations that agree everywhere meet the same zones.
pub proof fn lemma_same_valuation(z: ZEdges, a: Env, b: Env)
    requires zone_model::zholds(z, a), forall|k: u64| a(k) == #[trigger] b(k),
    ensures zone_model::zholds(z, b),
{
    assert forall|p: int, q: int| #![trigger z.contains_key((p, q))] z.contains_key((p, q)) implies
        zone_model::node_value(b, q) - zone_model::node_value(b, p) <= z[(p, q)]@ by {
        assert(zone_model::node_value(a, q) - zone_model::node_value(a, p) <= z[(p, q)]@);
        if p > 0 { assert(a((p - 1) as u64) == b((p - 1) as u64)); }
        if q > 0 { assert(a((q - 1) as u64) == b((q - 1) as u64)); }
    }
}

/// Wrapping a variable to a width is sound.
pub proof fn wrapping_is_sound(z: ZEdges, v: u64, width: int, is_signed: bool, min_only: bool, env: Env)
    requires
        zone_model::proper(z),
        zone_model::mild(env),
        zone_model::zholds(z, env),
        width == 32 || width == 64,
        zone_model::mild_change(env, v, wrapped(env(v), width, is_signed)),
    ensures zone_model::zholds(finite_domain::zoverflow(z, v, width, is_signed, min_only), zone_model::env_with(env, v, wrapped(env(v), width, is_signed))),
{
    lemma2_to64();
    lemma2_to64_rest();
    let x = env(v);
    let t = wrapped(x, width, is_signed);
    let iv = zone_model::zinterval(z, v);
    lemma_wrapped(x, width);
    zone_model::interval_is_sound(z, v, env);
    match finite_domain::wrapped_interval(iv, width, is_signed) {
        None => {
            zone_model::forgetting_is_sound(z, v, env, t);
        },
        Some(new) => {
            let l = iv.lb->Finite_0@;
            let h = iv.ub->Finite_0@;
            lemma_wrapped(l, width);
            lemma_wrapped(h, width);
            interval_laws::zero_extension_is_sound(iv, width, x);
            interval_laws::sign_extension_is_sound(iv, 64, x);
            assert(new.has(t));
            if new.same(iv) {
                number::lemma_wrap_range(l, width);
                number::lemma_wrap_range(h, width);
                number::lemma_wrap_range(l, 64);
                number::lemma_wrap_range(h, 64);
                number::lemma_wrap_identity(x, width);
                number::lemma_wrap_identity(x, 64);
                assert(t == x);
                lemma_same_valuation(z, env, zone_model::env_with(env, v, t));
            } else {
                zone_model::putting_is_sound(z, v, new, min_only, env, t);
            }
        },
    }
}

/// Copying one reading of a register to the other, and wrapping both, is sound.
pub proof fn mirroring_is_sound(z0: ZEdges, r: RegistryView, from: u64, to: u64, s: u64, u: u64, width: int, z1: ZEdges, env: Env)
    requires
        finite_domain::mirrored(z0, r, from, to, s, u, width, z1),
        zone_model::proper(z0),
        steady(env, s, u),
        zone_model::zholds(z0, env),
        s != u,
        (from == s && to == u) || (from == u && to == s),
        width == 32 || width == 64,
    ensures zone_model::zholds(z1, with_register(env, s, u, env(from), width)),
{
    let x = env(from);
    let mo = zone_domain::min_only_of(r);
    let mid = choose|mid: ZEdges| #[trigger] zone_domain::variable_assigned(z0, to, from, mo, mid) && z1 == finite_domain::zoverflow_pair(mid, r, s, u, width);
    lemma_copied(z0, mo, from, to, s, u, mid, env);
    let env1 = zone_model::env_with(env, to, x);
    assert(env1(s) == x && env1(u) == x);
    lemma_pair_wrapped(mid, r, s, u, width, env1, x);
    lemma_same_valuation(z1, with_register(env1, s, u, x, width), with_register(env, s, u, x, width));
}

proof fn lemma_copied(z0: ZEdges, mo: spec_fn(u64) -> bool, from: u64, to: u64, s: u64, u: u64, mid: ZEdges, env: Env)
    requires
        zone_domain::variable_assigned(z0, to, from, mo, mid),
        zone_model::proper(z0),
        steady(env, s, u),
        zone_model::zholds(z0, env),
        s != u,
        (from == s && to == u) || (from == u && to == s),
    ensures
        zone_model::zholds(mid, zone_model::env_with(env, to, env(from))),
        zone_model::proper(mid),
        steady(zone_model::env_with(env, to, env(from)), s, u),
{
    let x = env(from);
    let e = choose|e: LinearExpression| zone_domain::is_variable(&e, from) && #[trigger] zone_model::assigned(z0, to, &e, mo, mid);
    assert(e.eval(env) == x);
    add_bottom::variable_interval(z0, &e, from);
    lemma_steady(env, s, u);
    zone_model::interval_is_sound(z0, from, env);
    lemma_steady_change(env, s, u, to, x);
    zone_model::assigning_is_sound(z0, to, &e, mo, mid, env);
}

proof fn lemma_pair_wrapped(mid: ZEdges, r: RegistryView, s: u64, u: u64, width: int, env1: Env, x: int)
    requires
        zone_model::proper(mid),
        steady(env1, s, u),
        zone_model::zholds(mid, env1),
        s != u,
        env1(s) == x,
        env1(u) == x,
        width == 32 || width == 64,
    ensures zone_model::zholds(finite_domain::zoverflow_pair(mid, r, s, u, width), with_register(env1, s, u, x, width)),
{
    let z1 = finite_domain::zoverflow_pair(mid, r, s, u, width);
    lemma_steady(env1, s, u);
    lemma_wrapped(x, width);
    let ts = wrapped(x, width, true);
    let tu = wrapped(x, width, false);
    lemma_steady_change(env1, s, u, s, ts);
    let half = finite_domain::zoverflow(mid, s, width, true, r.metas[s as int].is_min_only);
    wrapping_is_sound(mid, s, width, true, r.metas[s as int].is_min_only, env1);
    let env2 = zone_model::env_with(env1, s, ts);
    assert(env2(u) == x && env2(s) == ts);
    lemma_steady(env2, s, u);
    lemma_steady_change(env2, s, u, u, tu);
    assert(zone_model::proper(half));
    wrapping_is_sound(half, u, width, false, r.metas[u as int].is_min_only, env2);
    let env3 = zone_model::env_with(env2, u, tu);
    lemma_same_valuation(z1, env3, with_register(env1, s, u, x, width));
}

/// The value of an operand.
pub open spec fn operand_value(o: Operand, env: Env) -> int {
    match o {
        Operand::Var(v) => env(v),
        Operand::Num(n) => n@,
    }
}

/// A sum or a difference of registers, or of a register and a number, is sound: the register takes
/// the result, wrapped to the width.
pub proof fn register_sums_are_sound(z0: ZEdges, r: RegistryView, is_sum: bool, s: u64, u: u64, y: u64, o: Operand, width: int, z1: ZEdges, env: Env)
    requires
        finite_domain::signed_applied(z0, r, FiniteBinOp::Arith(if is_sum { ArithBinOp::ADD } else { ArithBinOp::SUB }), s, u, y, o, width, z1),
        zone_model::proper(z0),
        interval_laws::modest(env),
        -interval_laws::MODEST <= operand_value(o, env) <= interval_laws::MODEST,
        zone_model::zholds(z0, env),
        s != u,
        width == 32 || width == 64,
    ensures
        zone_model::zholds(z1, with_register(env, s, u, if is_sum { env(y) + operand_value(o, env) } else { env(y) - operand_value(o, env) }, width)),
{
    let op = FiniteBinOp::Arith(if is_sum { ArithBinOp::ADD } else { ArithBinOp::SUB });
    let sign: int = if is_sum { 1 } else { -1 };
    let x = if is_sum { env(y) + operand_value(o, env) } else { env(y) - operand_value(o, env) };
    let mo = zone_domain::min_only_of(r);
    let mid = choose|mid: ZEdges| #[trigger] finite_domain::applied(z0, r, op, s, y, o, width, mid) && finite_domain::mirrored(mid, r, s, u, s, u, width, z1);
    let e = choose|e: LinearExpression| finite_domain::is_sum(&e, y, sign, o) && #[trigger] zone_model::assigned(z0, s, &e, mo, mid);
    assert(-interval_laws::MODEST <= env(y) <= interval_laws::MODEST);
    assert(-interval_laws::MODEST <= env(s) <= interval_laws::MODEST);
    assert(-interval_laws::MODEST <= env(u) <= interval_laws::MODEST);
    assert(e.eval(env) == x) by {
        match o {
            Operand::Var(v) => { assert(e.eval(env) == env(y) + sign * env(v)); },
            Operand::Num(n) => { assert(e.eval(env) == env(y) + sign * n@); },
        }
    }
    assert(interval_laws::tame(&e));
    interval_laws::evaluation_is_sound(z0, &e, env);
    assert(steady(env, s, u));
    lemma_steady(env, s, u);
    lemma_steady_change(env, s, u, s, x);
    zone_model::assigning_is_sound(z0, s, &e, mo, mid, env);
    let env1 = zone_model::env_with(env, s, x);
    assert(env1(s) == x);
    mirroring_is_sound(mid, r, s, u, s, u, width, z1, env1);
    lemma_same_valuation(z1, with_register(env1, s, u, x, width), with_register(env, s, u, x, width));
}

/// A sum or a difference of the unsigned values of registers, or of one and a number, is sound: the
/// register takes the result, wrapped to the width.
pub proof fn register_raw_sums_are_sound(z0: ZEdges, r: RegistryView, is_sum: bool, s: u64, u: u64, y: u64, o: Operand, width: int, z1: ZEdges, env: Env)
    requires
        finite_domain::unsigned_applied(z0, r, FiniteBinOp::Arith(if is_sum { ArithBinOp::ADD } else { ArithBinOp::SUB }), s, u, y, o, width, z1),
        zone_model::proper(z0),
        interval_laws::modest(env),
        -interval_laws::MODEST <= operand_value(o, env) <= interval_laws::MODEST,
        zone_model::zholds(z0, env),
        s != u,
        width == 32 || width == 64,
    ensures
        zone_model::zholds(z1, with_register(env, s, u, if is_sum { env(y) + operand_value(o, env) } else { env(y) - operand_value(o, env) }, width)),
{
    let op = FiniteBinOp::Arith(if is_sum { ArithBinOp::ADD } else { ArithBinOp::SUB });
    let sign: int = if is_sum { 1 } else { -1 };
    let x = if is_sum { env(y) + operand_value(o, env) } else { env(y) - operand_value(o, env) };
    let mo = zone_domain::min_only_of(r);
    let mid = choose|mid: ZEdges| #[trigger] finite_domain::applied(z0, r, op, u, y, o, width, mid) && finite_domain::mirrored(mid, r, u, s, s, u, width, z1);
    let e = choose|e: LinearExpression| finite_domain::is_sum(&e, y, sign, o) && #[trigger] zone_model::assigned(z0, u, &e, mo, mid);
    assert(-interval_laws::MODEST <= env(y) <= interval_laws::MODEST);
    assert(-interval_laws::MODEST <= env(s) <= interval_laws::MODEST);
    assert(-interval_laws::MODEST <= env(u) <= interval_laws::MODEST);
    assert(e.eval(env) == x) by {
        match o {
            Operand::Var(v) => { assert(e.eval(env) == env(y) + sign * env(v)); },
            Operand::Num(n) => { assert(e.eval(env) == env(y) + sign * n@); },
        }
    }
    assert(interval_laws::tame(&e));
    interval_laws::evaluation_is_sound(z0, &e, env);
    assert(steady(env, s, u));
    lemma_steady(env, s, u);
    lemma_steady_change(env, s, u, u, x);
    zone_model::assigning_is_sound(z0, u, &e, mo, mid, env);
    let env1 = zone_model::env_with(env, u, x);
    assert(env1(u) == x);
    mirroring_is_sound(mid, r, u, s, s, u, width, z1, env1);
    lemma_same_valuation(z1, with_register(env1, s, u, x, width), with_register(env, s, u, x, width));
}

/// A variable as it is read at a width.
pub open spec fn read_at(r: RegistryView, v: u64, width: int, env: Env) -> int {
    if r.metas[v as int].kind == Some(DataKind::Uvalues) { number::wrap_unsigned(env(v), width) } else { number::wrap_signed(env(v), width) }
}

/// An operand as it is read at a width.
pub open spec fn operand_read_at(r: RegistryView, o: Operand, width: int, env: Env) -> int {
    match o {
        Operand::Var(v) => read_at(r, v, width, env),
        Operand::Num(n) => n@,
    }
}

pub proof fn lemma_read_at(z: ZEdges, r: RegistryView, v: u64, width: int, env: Env)
    requires
        zone_model::mild(env),
        zone_model::zholds(z, env),
        width == 32 || width == 64,
    ensures finite_domain::interval_at_width(z, r, v, width).has(read_at(r, v, width, env)),
{
    zone_model::interval_is_sound(z, v, env);
    interval_laws::zero_extension_is_sound(zone_model::zinterval(z, v), width, env(v));
    interval_laws::sign_extension_is_sound(zone_model::zinterval(z, v), width, env(v));
}

/// A result that an interval holds is sound for a register.
proof fn lemma_result(z0: ZEdges, r: RegistryView, from: u64, to: u64, s: u64, u: u64, iv: Interval, x: int, width: int, z1: ZEdges, env: Env)
    requires
        finite_domain::mirrored(zone_model::zput(z0, from, iv, r.metas[from as int].is_min_only), r, from, to, s, u, width, z1),
        zone_model::proper(z0),
        interval_laws::modest(env),
        zone_model::zholds(z0, env),
        s != u,
        (from == s && to == u) || (from == u && to == s),
        width == 32 || width == 64,
        iv.has(x),
        -WIDE <= x <= WIDE,
    ensures zone_model::zholds(z1, with_register(env, s, u, x, width)),
{
    assert(-interval_laws::MODEST <= env(s) <= interval_laws::MODEST);
    assert(-interval_laws::MODEST <= env(u) <= interval_laws::MODEST);
    assert(steady(env, s, u));
    lemma_steady(env, s, u);
    lemma_steady_change(env, s, u, from, x);
    let min_only = r.metas[from as int].is_min_only;
    let mid = zone_model::zput(z0, from, iv, min_only);
    zone_model::putting_is_sound(z0, from, iv, min_only, env, x);
    let env1 = zone_model::env_with(env, from, x);
    assert(env1(from) == x);
    assert(zone_model::proper(mid));
    mirroring_is_sound(mid, r, from, to, s, u, width, z1, env1);
    lemma_same_valuation(z1, with_register(env1, s, u, x, width), with_register(env, s, u, x, width));
}

/// A product of registers, or of a register and a number, is sound: the register takes the product
/// of what is read at the width, wrapped to the width.
pub proof fn register_products_are_sound(z0: ZEdges, r: RegistryView, s: u64, u: u64, y: u64, o: Operand, width: int, z1: ZEdges, env: Env)
    requires
        finite_domain::signed_applied(z0, r, FiniteBinOp::Arith(ArithBinOp::MUL), s, u, y, o, width, z1),
        zone_model::proper(z0),
        interval_laws::modest(env),
        zone_model::zholds(z0, env),
        s != u,
        width == 32 || width == 64,
        -WIDE <= read_at(r, y, width, env) * operand_read_at(r, o, width, env) <= WIDE,
    ensures
        zone_model::zholds(z1, with_register(env, s, u, read_at(r, y, width, env) * operand_read_at(r, o, width, env), width)),
{
    lemma2_to64();
    lemma2_to64_rest();
    let a = read_at(r, y, width, env);
    let b = operand_read_at(r, o, width, env);
    let ya = finite_domain::interval_at_width(z0, r, y, width);
    let ob = finite_domain::operand_at_width(z0, r, o, width);
    lemma_modest(env);
    lemma_read_at(z0, r, y, width, env);
    number::lemma_wrap_range(env(y), width);
    match o {
        Operand::Var(v) => { lemma_read_at(z0, r, v, width, env); number::lemma_wrap_range(env(v), width); },
        Operand::Num(n) => {},
    }
    interval_laws::multiplication_is_sound(ya, ob, a, b);
    lemma_result(z0, r, s, u, s, u, ya.mul_spec(ob), a * b, width, z1, env);
}

/// The right operand of a quotient or remainder, as it is read at a width.
pub open spec fn divisor_value(r: RegistryView, op: SignedArithBinOp, o: Operand, width: int, env: Env) -> int {
    match o {
        Operand::Var(v) => read_at(r, v, width, env),
        Operand::Num(n) => if op is SDIV || op is SREM { finite_domain::signed_imm(n, width)@ } else { finite_domain::unsigned_imm(n, width)@ },
    }
}

/// Whether a variable is an unsigned reading.
pub open spec fn is_unsigned(r: RegistryView, v: u64) -> bool {
    r.metas[v as int].kind == Some(DataKind::Uvalues)
}

proof fn lemma_words(iv: Interval, width: int)
    requires width == 32 || width == 64,
    ensures word_laws::words(iv.zero_extend_spec(width)),
{
    lemma2_to64();
    lemma2_to64_rest();
    if let (ExtendedNumber::Finite(l), ExtendedNumber::Finite(h)) = (iv.lb, iv.ub) {
        number::lemma_wrap_range(l@, width);
        number::lemma_wrap_range(h@, width);
    }
}

proof fn lemma_imm(n: Number, width: int)
    requires width == 32 || width == 64,
    ensures
        -0x8000_0000 <= finite_domain::unsigned_imm(n, width)@ < 0x1_0000_0000,
        i64::MIN <= finite_domain::signed_imm(n, width)@ <= i64::MAX,
{
    lemma2_to64();
    lemma2_to64_rest();
    number::lemma_wrap_range(n@, 32);
    number::lemma_wrap_range(n@, 64);
}

/// An unsigned quotient or remainder of registers, or of a register and a number that is not
/// negative, is sound. The quotient by zero is zero, the remainder by zero the dividend.
pub proof fn register_divisions_are_sound(z0: ZEdges, r: RegistryView, op: SignedArithBinOp, s: u64, u: u64, y: u64, o: Operand, width: int, z1: ZEdges, env: Env)
    requires
        op is UDIV || op is UREM,
        finite_domain::unsigned_applied(z0, r, FiniteBinOp::Signed(op), s, u, y, o, width, z1),
        is_unsigned(r, y),
        match o { Operand::Var(v) => is_unsigned(r, v), Operand::Num(n) => finite_domain::unsigned_imm(n, width)@ >= 0 },
        zone_model::proper(z0),
        interval_laws::modest(env),
        zone_model::zholds(z0, env),
        s != u,
        width == 32 || width == 64,
    ensures
        ({
            let a = read_at(r, y, width, env);
            let b = divisor_value(r, op, o, width, env);
            let x = if op is UDIV { if b == 0 { 0 } else { a / b } } else { if b == 0 { a } else { a % b } };
            zone_model::zholds(z1, with_register(env, s, u, x, width))
        }),
{
    lemma2_to64();
    lemma2_to64_rest();
    let a = read_at(r, y, width, env);
    let b = divisor_value(r, op, o, width, env);
    let x = if op is UDIV { if b == 0 { 0 } else { a / b } } else { if b == 0 { a } else { a % b } };
    let ya = finite_domain::interval_at_width(z0, r, y, width);
    let ob = finite_domain::divisor(z0, r, op, o, width);
    lemma_modest(env);
    lemma_read_at(z0, r, y, width, env);
    lemma_words(zone_model::zinterval(z0, y), width);
    number::lemma_wrap_range(env(y), width);
    match o {
        Operand::Var(v) => {
            lemma_read_at(z0, r, v, width, env);
            lemma_words(zone_model::zinterval(z0, v), width);
            number::lemma_wrap_range(env(v), width);
        },
        Operand::Num(n) => { lemma_imm(n, width); },
    }
    assert(ob.has(b) && word_laws::words(ob));
    word_laws::unsigned_divisions_are_sound(ya, ob, a, b);
    word_laws::unsigned_remainders_are_sound(ya, ob, a, b);
    assert(0 <= x <= u64::MAX) by {
        if b > 0 {
            vstd::arithmetic::div_mod::lemma_div_pos_is_pos(a, b);
            vstd::arithmetic::div_mod::lemma_div_nonincreasing(a, b);
            vstd::arithmetic::div_mod::lemma_mod_bound(a, b);
            vstd::arithmetic::div_mod::lemma_mod_decreases(a as nat, b as nat);
        }
    }
    lemma_result(z0, r, u, s, s, u, finite_domain::quotient_or_remainder(op, ya, ob), x, width, z1, env);
}

/// A signed remainder of registers, or of a register and a number, is sound. The remainder by zero
/// is the dividend.
pub proof fn register_remainders_are_sound(z0: ZEdges, r: RegistryView, s: u64, u: u64, y: u64, o: Operand, width: int, z1: ZEdges, env: Env)
    requires
        finite_domain::signed_applied(z0, r, FiniteBinOp::Signed(SignedArithBinOp::SREM), s, u, y, o, width, z1),
        zone_model::proper(z0),
        interval_laws::modest(env),
        zone_model::zholds(z0, env),
        s != u,
        width == 32 || width == 64,
    ensures
        ({
            let a = read_at(r, y, width, env);
            let b = divisor_value(r, SignedArithBinOp::SREM, o, width, env);
            zone_model::zholds(z1, with_register(env, s, u, if b == 0 { a } else { number::trunc_rem(a, b) }, width))
        }),
{
    lemma2_to64();
    lemma2_to64_rest();
    let op = SignedArithBinOp::SREM;
    let a = read_at(r, y, width, env);
    let b = divisor_value(r, op, o, width, env);
    let x = if b == 0 { a } else { number::trunc_rem(a, b) };
    let ya = finite_domain::interval_at_width(z0, r, y, width);
    let ob = finite_domain::divisor(z0, r, op, o, width);
    lemma_modest(env);
    lemma_read_at(z0, r, y, width, env);
    number::lemma_wrap_range(env(y), width);
    match o {
        Operand::Var(v) => { lemma_read_at(z0, r, v, width, env); number::lemma_wrap_range(env(v), width); },
        Operand::Num(n) => { lemma_imm(n, width); },
    }
    word_laws::signed_remainders_are_sound(ya, ob, a, b);
    if b != 0 { word_laws::lemma_truncated(a, b); }
    lemma_result(z0, r, s, u, s, u, finite_domain::quotient_or_remainder(op, ya, ob), x, width, z1, env);
}

proof fn lemma_narrow(z: ZEdges, r: RegistryView, v: u64, width: int)
    requires width == 32 || width == 64,
    ensures word_laws::narrow(finite_domain::interval_at_width(z, r, v, width)),
{
    lemma2_to64();
    lemma2_to64_rest();
    let iv = zone_model::zinterval(z, v);
    if let (ExtendedNumber::Finite(l), ExtendedNumber::Finite(h)) = (iv.lb, iv.ub) {
        number::lemma_wrap_range(l@, width);
        number::lemma_wrap_range(h@, width);
    }
}

/// A signed quotient of registers, or of a register and a number, is sound where the dividends are
/// not all negative or the divisor is a constant. It rounds toward zero, and the quotient by zero is
/// zero.
pub proof fn register_quotients_are_sound(z0: ZEdges, r: RegistryView, s: u64, u: u64, y: u64, o: Operand, width: int, z1: ZEdges, env: Env)
    requires
        finite_domain::signed_applied(z0, r, FiniteBinOp::Signed(SignedArithBinOp::SDIV), s, u, y, o, width, z1),
        zone_model::proper(z0),
        interval_laws::modest(env),
        zone_model::zholds(z0, env),
        s != u,
        width == 32 || width == 64,
        ExtendedNumber::fin(0).le_spec(finite_domain::interval_at_width(z0, r, y, width).ub)
            || finite_domain::divisor(z0, r, SignedArithBinOp::SDIV, o, width).constant_divisor(Division::Signed) is Some,
    ensures
        ({
            let a = read_at(r, y, width, env);
            let b = divisor_value(r, SignedArithBinOp::SDIV, o, width, env);
            zone_model::zholds(z1, with_register(env, s, u, if b == 0 { 0 } else { number::trunc_div(a, b) }, width))
        }),
{
    lemma2_to64();
    lemma2_to64_rest();
    let op = SignedArithBinOp::SDIV;
    let a = read_at(r, y, width, env);
    let b = divisor_value(r, op, o, width, env);
    let x = if b == 0 { 0 } else { number::trunc_div(a, b) };
    let ya = finite_domain::interval_at_width(z0, r, y, width);
    let ob = finite_domain::divisor(z0, r, op, o, width);
    lemma_modest(env);
    lemma_read_at(z0, r, y, width, env);
    lemma_narrow(z0, r, y, width);
    number::lemma_wrap_range(env(y), width);
    match o {
        Operand::Var(v) => {
            lemma_read_at(z0, r, v, width, env);
            lemma_narrow(z0, r, v, width);
            number::lemma_wrap_range(env(v), width);
        },
        Operand::Num(n) => { lemma_imm(n, width); },
    }
    word_laws::signed_divisions_are_sound(Division::Signed, ya, ob, a, b);
    if b != 0 { word_laws::lemma_truncated_quotient(a, b); }
    lemma_result(z0, r, s, u, s, u, finite_domain::quotient_or_remainder(op, ya, ob), x, width, z1, env);
}

/// The result of a bitwise operation on words.
pub open spec fn bits_of(op: BitwiseBinOp, v: u64, w: u64) -> u64 {
    match op {
        BitwiseBinOp::AND => v & w,
        BitwiseBinOp::OR => v | w,
        _ => v ^ w,
    }
}

/// A bitwise operation on registers, or on a register and a number, is sound, but for a conjunction
/// with values among which is the mask of all bits.
pub proof fn register_bits_are_sound(z0: ZEdges, r: RegistryView, op: BitwiseBinOp, s: u64, u: u64, y: u64, o: Operand, width: int, z1: ZEdges, env: Env, w: u64)
    requires
        op is AND || op is OR || op is XOR,
        finite_domain::unsigned_applied(z0, r, FiniteBinOp::Bitwise(op), s, u, y, o, width, z1),
        zone_model::proper(z0),
        interval_laws::modest(env),
        zone_model::zholds(z0, env),
        s != u,
        width == 32 || width == 64,
        word_laws::is_word(env(y)),
        match o { Operand::Var(v) => env(v) == w, Operand::Num(n) => number::wrap_unsigned(n@, 64) == w },
        op is AND && finite_domain::bit_operand(z0, op, o, width).has(u64::MAX as int) ==> finite_domain::bit_operand(z0, op, o, width).singleton_spec() is Some,
    ensures zone_model::zholds(z1, with_register(env, s, u, bits_of(op, env(y) as u64, w) as int, width)),
{
    lemma2_to64();
    lemma2_to64_rest();
    let a = env(y) as u64;
    let x = bits_of(op, a, w);
    let ya = zone_model::zinterval(z0, y);
    let ob = finite_domain::bit_operand(z0, op, o, width);
    lemma_modest(env);
    zone_model::interval_is_sound(z0, y, env);
    match o {
        Operand::Var(v) => { zone_model::interval_is_sound(z0, v, env); },
        Operand::Num(n) => { number::lemma_wrap_range(n@, 64); },
    }
    if op is AND { word_laws::conjunctions_are_sound(ya, ob, a, w); } else { word_laws::disjunctions_are_sound(ya, ob, a, w); }
    let plain = match op {
        BitwiseBinOp::AND => ya.bitwise_and_spec(ob),
        BitwiseBinOp::OR => ya.bitwise_or_spec(ob),
        _ => ya.bitwise_xor_spec(ob),
    };
    assert(plain.has(x as int));
    let result = finite_domain::bit_result(op, ya, ob, width);
    if width == 32 {
        let mask = Interval::point(Number::nearest(0xffff_ffff));
        word_laws::conjunctions_are_sound(plain, mask, x, 0xffff_ffff);
        word_laws::lemma_mask(x, 0);
        let cut = (x & 0xffff_ffff) as int;
        assert(result.has(cut));
        lemma_result(z0, r, u, s, s, u, result, cut, width, z1, env);
        number::lemma_wrap_range(x as int, 32);
        number::lemma_wrap_identity(cut, 32);
        lemma_same_valuation(z1, with_register(env, s, u, cut, width), with_register(env, s, u, x as int, width));
    } else {
        lemma_result(z0, r, u, s, s, u, result, x as int, width, z1, env);
    }
}

proof fn lemma_modest(env: Env)
    requires interval_laws::modest(env),
    ensures zone_model::mild(env),
{
    assert forall|j: u64, k: u64| #![trigger env(j), env(k)] env(j) - env(k) <= constraints::REACH by {
        assert(-interval_laws::MODEST <= env(j) <= interval_laws::MODEST);
    }
}

}
