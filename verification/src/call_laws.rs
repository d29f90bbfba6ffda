//! What a call of a helper function leaves of the registers.
use vstd::prelude::*;
use crate::acts;
use crate::acts::{Act, Place, TypeChange};
use crate::config::DomainContext;
use crate::ebpf_calls;
use crate::ebpf_memory;
use crate::ebpf_transformer;
use crate::interval::Interval;
use crate::numeric_steps;
use crate::numeric_steps::{Num, Step};
use crate::rcp;
use crate::syntax::{CallContract, Reg};
use crate::type_encoding::{TypeEncoding, TypeSet};
use crate::var_registry::RegistryView;
use crate::zone_model;
use crate::zone_model::ZEdges;

verus! {

/// The type variables of the registers from `lo` on, `n` of them.
pub open spec fn types_from(lo: int, n: int) -> Set<u64> {
    Set::new(|v: u64| exists|i: int| lo <= i < lo + n && #[trigger] rcp::type_id(Reg { v: i as u8 }) == v)
}

/// The value variables of the registers from `lo` on, `n` of them.
pub open spec fn values_from(lo: int, n: int) -> Set<u64> {
    Set::new(|v: u64| exists|i: int| lo <= i < lo + n && (#[trigger] rcp::value_ids(Reg { v: i as u8 })).contains(v))
}

/// Some types and some values were forgotten; nothing else has changed.
pub open spec fn forgotten(a: Place, types: Set<u64>, values: Set<u64>, b: Place) -> bool {
    &&& b.1 == a.1
    &&& b.0.stack == a.0.stack
    &&& a.0.state.types.state is Some <==> b.0.state.types.state is Some
    &&& a.0.state.types.state is Some ==> forall|v: u64| #[trigger] b.0.state.types.s().types_of(v)
            == (if types.contains(v) { TypeSet::full() } else { a.0.state.types.s().types_of(v) })
    &&& a.0.num() is Some <==> b.0.num() is Some
    &&& forall|v: u64| a.0.num() is Some ==> #[trigger] b.0.state.values.interval(v) == (if values.contains(v) { Interval::all() } else { a.0.state.values.interval(v) })
}

proof fn lemma_split(be: bool, a: Place, first: Seq<Act>, second: Seq<Act>, b: Place) -> (mid: Place)
    requires acts::follows(be, a, first + second, b),
    ensures acts::follows(be, a, first, mid), acts::follows(be, mid, second, b),
{
    let all = first + second;
    let n = first.len() as int;
    let path = choose|path: Seq<Place>| path.len() == all.len() + 1 && path[0] == a && path[all.len() as int] == b && #[trigger] acts::is_walk(be, path, all);
    let p = path.take(n + 1);
    let q = path.skip(n);
    assert forall|i: int| 0 <= i < first.len() implies #[trigger] acts::acted(be, p[i], first[i], p[i + 1]) by {
        assert(acts::acted(be, path[i], all[i], path[i + 1]));
    }
    assert forall|i: int| 0 <= i < second.len() implies #[trigger] acts::acted(be, q[i], second[i], q[i + 1]) by {
        assert(acts::acted(be, path[n + i], all[n + i], path[n + i + 1]));
    }
    assert(acts::is_walk(be, p, first));
    assert(acts::is_walk(be, q, second));
    path[n]
}

proof fn lemma_one(be: bool, a: Place, act: Act, b: Place)
    requires acts::follows(be, a, seq![act], b),
    ensures acts::acted(be, a, act, b),
{
    let one = seq![act];
    let path = choose|path: Seq<Place>| path.len() == 2 && path[0] == a && path[1] == b && #[trigger] acts::is_walk(be, path, one);
    let i: int = 0;
    assert(acts::acted(be, path[i], one[i], path[i + 1]));
}

/// Forgetting variables one after the other.
proof fn lemma_forgets(path: Seq<Num>, r: RegistryView, ids: Seq<u64>, n: int)
    requires
        path.len() == ids.len() + 1,
        numeric_steps::is_path(path, r, r, rcp::forget_steps(ids)),
        0 <= n <= ids.len(),
    ensures
        path[0] is Some <==> path[n] is Some,
        path[0] is Some ==> path[n] == Some(zone_model::zwithout_all(path[0]->Some_0, ids.take(n).to_set())),
    decreases n,
{
    if n == 0 {
        if path[0] is Some {
            assert(ids.take(0).to_set() =~= Set::<u64>::empty());
            assert(zone_model::zwithout_all(path[0]->Some_0, Set::<u64>::empty()) =~= path[0]->Some_0);
        }
    } else {
        lemma_forgets(path, r, ids, n - 1);
        let ops = rcp::forget_steps(ids);
        assert(numeric_steps::step_between(path[n - 1], r, r, ops[n - 1], path[(n - 1) + 1]));
        assert(ops[n - 1] == Step::Forget(ids[n - 1]));
        let q = choose|q: RegistryView| q.extends(r) && r.extends(q) && #[trigger] numeric_steps::step(path[n - 1], q, ops[n - 1], path[n]);
        reveal(numeric_steps::step);
        assert(ids.take(n) =~= ids.take(n - 1).push(ids[n - 1]));
        rcp::lemma_push_to_set(ids.take(n - 1), ids[n - 1]);
        if path[0] is Some {
            zone_model::lemma_without_more(path[0]->Some_0, ids.take(n - 1).to_set(), ids[n - 1]);
        }
    }
}

/// The interval of a variable where some variables were forgotten.
proof fn lemma_interval_without(z: ZEdges, gone: Set<u64>, v: u64)
    ensures
        zone_model::zinterval(zone_model::zwithout_all(z, gone), v) == (if gone.contains(v) { Interval::all() } else { zone_model::zinterval(z, v) }),
{
    let t = zone_model::zwithout_all(z, gone);
    if !gone.contains(v) {
        assert(t.contains_key((zone_model::node(v), 0)) == z.contains_key((zone_model::node(v), 0)));
        assert(t.contains_key((0, zone_model::node(v))) == z.contains_key((0, zone_model::node(v))));
    }
}

/// A change of types and the forgetting of values.
proof fn lemma_update(be: bool, a: Place, c: TypeChange, ids: Seq<u64>, b: Place)
    requires acts::acted(be, a, Act::Update(c, rcp::forget_steps(ids)), b),
    ensures
        b.1 == a.1,
        b.0.stack == a.0.stack,
        acts::types_changed(a.0.state.types, c, b.0.state.types),
        a.0.num() is Some <==> b.0.num() is Some,
        forall|v: u64| a.0.num() is Some ==> #[trigger] b.0.state.values.interval(v)
            == (if ids.to_set().contains(v) { Interval::all() } else { a.0.state.values.interval(v) }),
{
    reveal(acts::acted);
    let ops = rcp::forget_steps(ids);
    let path = choose|path: Seq<Num>| path.len() == ops.len() + 1 && path[0] == a.0.num() && path[ops.len() as int] == b.0.num()
        && #[trigger] numeric_steps::is_path(path, a.1, a.1, ops);
    lemma_forgets(path, a.1, ids, ids.len() as int);
    assert(ids.take(ids.len() as int) =~= ids);
    assert forall|v: u64| a.0.num() is Some implies #[trigger] b.0.state.values.interval(v)
        == (if ids.to_set().contains(v) { Interval::all() } else { a.0.state.values.interval(v) }) by {
        lemma_interval_without(a.0.num()->Some_0, ids.to_set(), v);
    }
}

proof fn lemma_range(be: bool, a: Place, lo: int, n: nat, b: Place)
    requires acts::follows(be, a, ebpf_calls::forget_range_acts(lo, n), b), 0 <= lo, lo + n <= 12,
    ensures forgotten(a, types_from(lo, n as int), values_from(lo, n as int), b),
    decreases n,
{
    let all = ebpf_calls::forget_range_acts(lo, n);
    if n == 0 {
        let path = choose|path: Seq<Place>| path.len() == 1 && path[0] == a && path[0] == b && #[trigger] acts::is_walk(be, path, all);
        assert(a == b);
    } else {
        let k = (n - 1) as nat;
        let reg = Reg { v: (lo + n - 1) as u8 };
        let first = ebpf_calls::forget_range_acts(lo, k);
        assert(all =~= first + seq![ebpf_memory::forgets(reg)]);
        let mid = lemma_split(be, a, first, seq![ebpf_memory::forgets(reg)], b);
        lemma_range(be, a, lo, k, mid);
        lemma_one(be, mid, ebpf_memory::forgets(reg), b);
        lemma_update(be, mid, TypeChange::Forgot(rcp::type_id(reg)), rcp::value_ids(reg), b);
        let ts = types_from(lo, n as int);
        let vs = values_from(lo, n as int);
        assert forall|v: u64| ts.contains(v) == (types_from(lo, k as int).contains(v) || v == rcp::type_id(reg)) by {
            if ts.contains(v) {
                let i = choose|i: int| lo <= i < lo + n && #[trigger] rcp::type_id(Reg { v: i as u8 }) == v;
                if i < lo + k { assert(rcp::type_id(Reg { v: i as u8 }) == v); }
            }
            if types_from(lo, k as int).contains(v) {
                let i = choose|i: int| lo <= i < lo + k && #[trigger] rcp::type_id(Reg { v: i as u8 }) == v;
                assert(lo <= i < lo + n && rcp::type_id(Reg { v: i as u8 }) == v);
            }
            if v == rcp::type_id(reg) {
                let i = lo + n - 1;
                assert(lo <= i < lo + n && rcp::type_id(Reg { v: i as u8 }) == v);
            }
        }
        assert forall|v: u64| vs.contains(v) == (values_from(lo, k as int).contains(v) || rcp::value_ids(reg).contains(v)) by {
            if vs.contains(v) {
                let i = choose|i: int| lo <= i < lo + n && (#[trigger] rcp::value_ids(Reg { v: i as u8 })).contains(v);
                if i < lo + k { assert(rcp::value_ids(Reg { v: i as u8 }).contains(v)); }
            }
            if values_from(lo, k as int).contains(v) {
                let i = choose|i: int| lo <= i < lo + k && (#[trigger] rcp::value_ids(Reg { v: i as u8 })).contains(v);
                assert(lo <= i < lo + n && rcp::value_ids(Reg { v: i as u8 }).contains(v));
            }
            if rcp::value_ids(reg).contains(v) {
                let i = lo + n - 1;
                assert(lo <= i < lo + n && rcp::value_ids(Reg { v: i as u8 }).contains(v));
            }
        }
        assert forall|v: u64| a.0.num() is Some implies #[trigger] b.0.state.values.interval(v)
            == (if vs.contains(v) { Interval::all() } else { a.0.state.values.interval(v) }) by {
            assert(mid.0.state.values.interval(v) == (if values_from(lo, k as int).contains(v) { Interval::all() } else { a.0.state.values.interval(v) }));
        }
        if a.0.state.types.state is Some {
            assert forall|v: u64| #[trigger] b.0.state.types.s().types_of(v)
                == (if ts.contains(v) { TypeSet::full() } else { a.0.state.types.s().types_of(v) }) by {
                assert(mid.0.state.types.s().types_of(v) == (if types_from(lo, k as int).contains(v) { TypeSet::full() } else { a.0.state.types.s().types_of(v) }));
            }
        }
    }
}

/// A register is unknown: it may have any type, and nothing is known of its values.
pub open spec fn unknown_register(p: Place, reg: Reg) -> bool {
    &&& p.0.state.types.state is Some ==> p.0.state.types.s().types_of(rcp::type_id(reg)) == TypeSet::full()
    &&& p.0.num() is Some ==> forall|v: u64| #[trigger] rcp::value_ids(reg).contains(v) ==> p.0.state.values.interval(v) == Interval::all()
}

/// A register has the types and the values that it had.
pub open spec fn kept_register(a: Place, b: Place, reg: Reg) -> bool {
    &&& a.0.state.types.state is Some && b.0.state.types.state is Some ==>
            b.0.state.types.s().types_of(rcp::type_id(reg)) == a.0.state.types.s().types_of(rcp::type_id(reg))
    &&& a.0.num() is Some && b.0.num() is Some ==>
            forall|v: u64| #[trigger] rcp::value_ids(reg).contains(v) ==> b.0.state.values.interval(v) == a.0.state.values.interval(v)
}

/// The variables of two registers are apart.
proof fn lemma_apart(p: Reg, q: Reg, v: u64)
    requires p.v <= 11, q.v <= 11, p.v != q.v,
    ensures
        rcp::type_id(p) != rcp::type_id(q),
        rcp::value_ids(p).contains(v) ==> !rcp::value_ids(q).contains(v),
{
    if rcp::value_ids(p).contains(v) && rcp::value_ids(q).contains(v) {
        lemma_block(p, v);
        lemma_block(q, v);
    }
}

proof fn lemma_block(p: Reg, v: u64)
    requires p.v <= 11, rcp::value_ids(p).contains(v),
    ensures 15 * p.v <= v < 15 * p.v + 15,
{
    let ids = rcp::value_ids(p);
    let i = choose|i: int| 0 <= i < ids.len() && ids[i] == v;
    assert(ids.len() == 10);
    assert(i == 0 || i == 1 || i == 2 || i == 3 || i == 4 || i == 5 || i == 6 || i == 7 || i == 8 || i == 9);
}

/// A call of a helper function that does not move the packet forgets the registers of its arguments.
pub proof fn calls_forget_arguments(be: bool, ctx: &DomainContext, c: &CallContract, a: Place, b: Place, reg: Reg)
    requires
        ebpf_transformer::call_effect(be, ctx, c, a, b),
        a.0.num() is Some,
        !c.reallocate_packet,
        1 <= reg.v <= 5,
    ensures unknown_register(b, reg),
{
    let (p, q, w) = choose|p: Place, q: Place, w: ebpf_transformer::LookupSeen| #[trigger] ebpf_transformer::singles_run(be, c.singles@, a, p)
        && #[trigger] ebpf_transformer::pairs_run(be, c.pairs@, p, q) && ebpf_transformer::lookup_seen(&ctx.platform, w)
        && ebpf_transformer::missing_result(ctx, c, w) is None
        && acts::follows(be, q, #[trigger] ebpf_transformer::return_acts(ctx, c, w) + ebpf_transformer::aftermath_acts(ctx, c), b);
    let mid = lemma_split(be, q, ebpf_transformer::return_acts(ctx, c, w), ebpf_transformer::aftermath_acts(ctx, c), b);
    assert(ebpf_transformer::aftermath_acts(ctx, c) =~= ebpf_calls::scratch_acts());
    lemma_range(be, mid, 1, 5, b);
    let i = reg.v as int;
    assert(Reg { v: i as u8 } == reg);
    assert(1 <= i < 1 + 5 && rcp::type_id(Reg { v: i as u8 }) == rcp::type_id(reg));
    assert(types_from(1, 5).contains(rcp::type_id(reg)));
    assert forall|v: u64| #[trigger] rcp::value_ids(reg).contains(v) && b.0.num() is Some implies b.0.state.values.interval(v) == Interval::all() by {
        assert(1 <= i < 1 + 5 && rcp::value_ids(Reg { v: i as u8 }).contains(v));
        assert(values_from(1, 5).contains(v));
    }
}

/// A helper function that writes through no argument, returns a number and does not move the packet
/// keeps the stack and the registers other than the result and the arguments; the result is a number
/// of which nothing is known.
pub proof fn quiet_calls_keep_registers(be: bool, ctx: &DomainContext, c: &CallContract, a: Place, b: Place, reg: Reg)
    requires
        ebpf_transformer::call_effect(be, ctx, c, a, b),
        a.0.num() is Some,
        a.0.state.types.state is Some,
        c.pairs@.len() == 0,
        forall|i: int| 0 <= i < c.singles@.len() ==> ebpf_transformer::written_bytes((#[trigger] c.singles@[i]).kind) == 0,
        !c.is_map_lookup,
        c.return_ptr_type is None,
        !c.reallocate_packet,
        6 <= reg.v <= 11,
    ensures
        b.0.num() is Some,
        b.0.stack == a.0.stack,
        kept_register(a, b, reg),
        b.0.state.types.s().types_of(rcp::type_id(Reg { v: 0 })) == TypeSet::just(TypeEncoding::TNum),
        forall|v: u64| #[trigger] rcp::value_ids(Reg { v: 0 }).contains(v) ==> b.0.state.values.interval(v) == Interval::all(),
{
    let (p, q, w) = choose|p: Place, q: Place, w: ebpf_transformer::LookupSeen| #[trigger] ebpf_transformer::singles_run(be, c.singles@, a, p)
        && #[trigger] ebpf_transformer::pairs_run(be, c.pairs@, p, q) && ebpf_transformer::lookup_seen(&ctx.platform, w)
        && ebpf_transformer::missing_result(ctx, c, w) is None
        && acts::follows(be, q, #[trigger] ebpf_transformer::return_acts(ctx, c, w) + ebpf_transformer::aftermath_acts(ctx, c), b);
    lemma_unwritten(be, c, a, p, q);
    let mid = lemma_split(be, q, ebpf_transformer::return_acts(ctx, c, w), ebpf_transformer::aftermath_acts(ctx, c), b);
    assert(ebpf_transformer::aftermath_acts(ctx, c) =~= ebpf_calls::scratch_acts());
    lemma_range(be, mid, 1, 5, b);
    let r0 = Reg { v: 0 };
    let size = seq![crate::ebpf_arith::size_id(r0)];
    let first = seq![ebpf_memory::numbers(rcp::forget_steps(size))];
    let second = seq![ebpf_memory::forgets_values(r0)];
    let third = seq![ebpf_memory::gives(r0, TypeEncoding::TNum)];
    assert(rcp::forget_steps(size) =~= seq![Step::Forget(size[0])]);
    assert(ebpf_transformer::return_acts(ctx, c, w) =~= first + (second + third));
    let m1 = lemma_split(be, q, first, second + third, mid);
    let m2 = lemma_split(be, m1, second, third, mid);
    lemma_one(be, q, first[0], m1);
    lemma_one(be, m1, second[0], m2);
    lemma_one(be, m2, third[0], mid);
    lemma_update(be, q, TypeChange::Same, size, m1);
    lemma_update(be, m1, TypeChange::Same, rcp::value_ids(r0), m2);
    assert(rcp::forget_steps(Seq::<u64>::empty()) =~= Seq::<Step>::empty());
    lemma_update(be, m2, TypeChange::Given(rcp::type_id(r0), TypeEncoding::TNum), Seq::<u64>::empty(), mid);
    assert(size.to_set().contains(size[0]));
    assert(rcp::value_ids(r0).contains(size[0])) by { assert(rcp::value_ids(r0)[7] == size[0]); }
    assert forall|k: Reg, v: u64| k.v <= 11 && !(1 <= k.v <= 5) && #[trigger] rcp::value_ids(k).contains(v) implies !values_from(1, 5).contains(v) by {
        if values_from(1, 5).contains(v) {
            let i = choose|i: int| 1 <= i < 1 + 5 && (#[trigger] rcp::value_ids(Reg { v: i as u8 })).contains(v);
            lemma_apart(k, Reg { v: i as u8 }, v);
        }
    }
    assert forall|k: Reg| k.v <= 11 && !(1 <= k.v <= 5) implies !types_from(1, 5).contains(#[trigger] rcp::type_id(k)) by {
        if types_from(1, 5).contains(rcp::type_id(k)) {
            let i = choose|i: int| 1 <= i < 1 + 5 && #[trigger] rcp::type_id(Reg { v: i as u8 }) == rcp::type_id(k);
            lemma_apart(k, Reg { v: i as u8 }, 0);
        }
    }
    assert(rcp::type_id(reg) != rcp::type_id(r0)) by { lemma_apart(reg, r0, 0); }
    assert forall|v: u64| #[trigger] rcp::value_ids(reg).contains(v) implies b.0.state.values.interval(v) == a.0.state.values.interval(v) by {
        lemma_apart(reg, r0, v);
        assert(!size.to_set().contains(v)) by {
            if size.to_set().contains(v) { assert(v == size[0]); }
        }
        assert(m1.0.state.values.interval(v) == q.0.state.values.interval(v));
        assert(m2.0.state.values.interval(v) == m1.0.state.values.interval(v));
        assert(mid.0.state.values.interval(v) == m2.0.state.values.interval(v));
    }
    assert forall|v: u64| #[trigger] rcp::value_ids(r0).contains(v) implies b.0.state.values.interval(v) == Interval::all() by {
        assert(rcp::value_ids(r0).to_set().contains(v));
        assert(m2.0.state.values.interval(v) == Interval::all());
        assert(mid.0.state.values.interval(v) == m2.0.state.values.interval(v));
    }
}

/// Arguments through which nothing is written leave a state as it is.
proof fn lemma_unwritten(be: bool, c: &CallContract, a: Place, p: Place, q: Place)
    requires
        ebpf_transformer::singles_run(be, c.singles@, a, p),
        ebpf_transformer::pairs_run(be, c.pairs@, p, q),
        c.pairs@.len() == 0,
        forall|i: int| 0 <= i < c.singles@.len() ==> ebpf_transformer::written_bytes((#[trigger] c.singles@[i]).kind) == 0,
    ensures a == q,
{
    let ps = c.singles@;
    let path = choose|path: Seq<Place>| path.len() == ps.len() + 1 && path[0] == a && path[ps.len() as int] == p
        && #[trigger] ebpf_transformer::singles_path(be, ps, path, ps.len() as int);
    lemma_singles(be, c, path, ps.len() as int);
}

proof fn lemma_singles(be: bool, c: &CallContract, path: Seq<Place>, n: int)
    requires
        ebpf_transformer::singles_path(be, c.singles@, path, c.singles@.len() as int),
        path.len() == c.singles@.len() + 1,
        forall|i: int| 0 <= i < c.singles@.len() ==> ebpf_transformer::written_bytes((#[trigger] c.singles@[i]).kind) == 0,
        0 <= n <= c.singles@.len(),
    ensures path[n] == path[0],
    decreases n,
{
    if n > 0 {
        lemma_singles(be, c, path, n - 1);
        assert(ebpf_transformer::single_effect(be, c.singles@[n - 1], path[n - 1], path[(n - 1) + 1]));
    }
}

}
