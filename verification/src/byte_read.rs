//! Values put together from the bytes of other cells.
use vstd::prelude::*;
use vstd::arithmetic::power2::*;
use crate::add_bottom::NumAbsDomain;
use crate::arith::number;
use crate::array_domain::Cell;
use crate::interval::Interval;
use crate::numeric_steps;
use crate::numeric_steps::Num;
use crate::type_encoding::DataKind;
use crate::var_registry::{RegistryView, VariableRegistry};
use crate::zone_model;

verus! {

/// The interval of a variable in a numeric state.
pub open spec fn interval_in(n: Num, v: u64) -> Interval {
    match n {
        Some(z) => zone_model::zinterval(z, v),
        None => Interval::empty(),
    }
}

/// The aligned cell of a width that holds a byte.
pub open spec fn holder(byte: int, width: int) -> Cell {
    Cell { offset: (byte / width * width) as u64, size: width as u32 }
}

/// A byte of the signed value of an aligned cell, where that value is known.
pub open spec fn byte_of(n: Num, r: RegistryView, byte: int, width: int, big_endian: bool) -> Option<int> {
    match interval_in(n, r.var(holder(byte, width).name(DataKind::Svalues)).id).singleton_spec() {
        Some(v) => {
            let place = if big_endian { width - 1 - byte % width } else { byte % width };
            Some((number::wrap_unsigned(v@, 8 * width) / (pow2((8 * place) as nat) as int)) % 256)
        },
        None => None,
    }
}

/// A byte, from the widest aligned cell whose value is known.
pub open spec fn known_byte(n: Num, r: RegistryView, byte: int, big_endian: bool) -> Option<int> {
    if byte_of(n, r, byte, 8, big_endian) is Some { byte_of(n, r, byte, 8, big_endian) }
    else if byte_of(n, r, byte, 4, big_endian) is Some { byte_of(n, r, byte, 4, big_endian) }
    else if byte_of(n, r, byte, 2, big_endian) is Some { byte_of(n, r, byte, 2, big_endian) }
    else { byte_of(n, r, byte, 1, big_endian) }
}

/// The unsigned value of the first `k` of some bytes.
pub open spec fn value_of_bytes(bytes: spec_fn(int) -> int, k: nat, big_endian: bool) -> int
    decreases k,
{
    if k == 0 {
        0
    } else if big_endian {
        value_of_bytes(bytes, (k - 1) as nat, true) * 256 + bytes(k - 1)
    } else {
        value_of_bytes(bytes, (k - 1) as nat, false) + bytes(k - 1) * (pow2((8 * (k - 1)) as nat) as int)
    }
}

/// The widths of values.
pub open spec fn is_value_width(size: int) -> bool {
    size == 1 || size == 2 || size == 4 || size == 8
}

/// The value of the bytes of a cell, where all are known.
pub open spec fn rebuilt(n: Num, r: RegistryView, c: Cell, big_endian: bool) -> Option<int> {
    if is_value_width(c.size as int) && c.offset + c.size <= u64::MAX
        && (forall|i: int| 0 <= i < c.size ==> #[trigger] known_byte(n, r, c.offset + i, big_endian) is Some)
    {
        Some(value_of_bytes(|i: int| known_byte(n, r, c.offset + i, big_endian)->Some_0, c.size as nat, big_endian))
    } else {
        None
    }
}

/// The names of the cells that may hold a byte are registered.
pub open spec fn holders_named(r: RegistryView, byte: int) -> bool {
    &&& r.has(holder(byte, 8).name(DataKind::Svalues))
    &&& r.has(holder(byte, 4).name(DataKind::Svalues))
    &&& r.has(holder(byte, 2).name(DataKind::Svalues))
    &&& r.has(holder(byte, 1).name(DataKind::Svalues))
}

/// The holders of every byte of a cell are registered, where its value could be put together.
pub open spec fn cell_probed(r: RegistryView, c: Cell) -> bool {
    is_value_width(c.size as int) && c.offset + c.size <= u64::MAX ==> forall|i: int| 0 <= i < c.size ==> #[trigger] holders_named(r, c.offset + i)
}

proof fn lemma_holders_stay(r: RegistryView, later: RegistryView, n: Num, byte: int, big_endian: bool)
    requires r.wf(), later.wf(), later.extends(r), holders_named(r, byte),
    ensures holders_named(later, byte), known_byte(n, r, byte, big_endian) == known_byte(n, later, byte, big_endian),
{
    later.names_are_stable(r, holder(byte, 8).name(DataKind::Svalues));
    later.names_are_stable(r, holder(byte, 4).name(DataKind::Svalues));
    later.names_are_stable(r, holder(byte, 2).name(DataKind::Svalues));
    later.names_are_stable(r, holder(byte, 1).name(DataKind::Svalues));
}

/// What is read from the bytes of a cell stays the same in a longer registry.
pub proof fn rebuilding_is_stable(r: RegistryView, later: RegistryView, n: Num, c: Cell, big_endian: bool)
    requires r.wf(), later.wf(), later.extends(r), cell_probed(r, c),
    ensures cell_probed(later, c), rebuilt(n, r, c, big_endian) == rebuilt(n, later, c, big_endian),
{
    if is_value_width(c.size as int) && c.offset + c.size <= u64::MAX {
        assert forall|i: int| 0 <= i < c.size implies #[trigger] holders_named(later, c.offset + i) by {
            assert(holders_named(r, c.offset + i));
            lemma_holders_stay(r, later, n, c.offset + i, big_endian);
        }
        assert forall|i: int| 0 <= i < c.size implies #[trigger] known_byte(n, r, c.offset + i, big_endian) == known_byte(n, later, c.offset + i, big_endian) by {
            assert(holders_named(r, c.offset + i));
            lemma_holders_stay(r, later, n, c.offset + i, big_endian);
        }
        assert forall|i: int| 0 <= i < c.size implies #[trigger] known_byte(n, later, c.offset + i, big_endian) == known_byte(n, r, c.offset + i, big_endian) by {
            assert(known_byte(n, r, c.offset + i, big_endian) == known_byte(n, later, c.offset + i, big_endian));
        }
        let f = |i: int| known_byte(n, r, c.offset + i, big_endian)->Some_0;
        let g = |i: int| known_byte(n, later, c.offset + i, big_endian)->Some_0;
        assert forall|i: int| 0 <= i < c.size implies #[trigger] f(i) == g(i) by {
            assert(known_byte(n, r, c.offset + i, big_endian) == known_byte(n, later, c.offset + i, big_endian));
        }
        same_bytes(f, g, c.size as nat, big_endian);
    }
}

/// The value of some bytes is a function of the bytes.
pub proof fn same_bytes(f: spec_fn(int) -> int, g: spec_fn(int) -> int, k: nat, big_endian: bool)
    requires forall|i: int| 0 <= i < k ==> #[trigger] f(i) == g(i),
    ensures value_of_bytes(f, k, big_endian) == value_of_bytes(g, k, big_endian),
    decreases k,
{
    if k > 0 {
        assert(f(k - 1) == g(k - 1));
        same_bytes(f, g, (k - 1) as nat, big_endian);
    }
}

/// The value of `k` bytes fits in them.
pub proof fn bytes_fit(bytes: spec_fn(int) -> int, k: nat, big_endian: bool)
    requires forall|i: int| 0 <= i < k ==> 0 <= #[trigger] bytes(i) < 256,
    ensures 0 <= value_of_bytes(bytes, k, big_endian) < pow2(8 * k),
    decreases k,
{
    if k == 0 {
        lemma2_to64();
    } else {
        bytes_fit(bytes, (k - 1) as nat, big_endian);
        let b = bytes(k - 1);
        let p = pow2((8 * (k - 1)) as nat) as int;
        lemma2_to64();
        lemma_pow2_adds((8 * (k - 1)) as nat, 8);
        assert(pow2(8 * k) == p * 256);
        let v = value_of_bytes(bytes, (k - 1) as nat, big_endian);
        assert(b * p <= 255 * p && 0 <= b * p) by(nonlinear_arith) requires 0 <= b <= 255, p >= 0;
        assert(v * 256 + b < p * 256) by(nonlinear_arith) requires 0 <= b <= 255, v <= p - 1;
    }
}

/// The bytes of a value of `k` bytes, the first the most significant one or the least.
pub open spec fn placed(value: int, k: nat, big_endian: bool) -> spec_fn(int) -> int {
    |i: int| (value / (pow2((8 * (if big_endian { k - 1 - i } else { i })) as nat) as int)) % 256
}

/// Splitting a value into bytes and putting the bytes together gives the value back.
pub proof fn bytes_round_trip(value: int, k: nat, big_endian: bool)
    requires 0 <= value < pow2(8 * k),
    ensures value_of_bytes(placed(value, k, big_endian), k, big_endian) == value,
{
    let f = placed(value, k, big_endian);
    lemma2_to64();
    if big_endian {
        lemma_big_prefix(value, f, k, k);
        assert(value / (pow2(0) as int) == value) by { assert(pow2(0) == 1); }
    } else {
        lemma_little_prefix(value, f, k);
        vstd::arithmetic::div_mod::lemma_small_mod(value as nat, pow2(8 * k));
    }
}

proof fn lemma_big_prefix(value: int, f: spec_fn(int) -> int, k: nat, j: nat)
    requires
        0 <= value < pow2(8 * k),
        j <= k,
        forall|i: int| 0 <= i < k ==> #[trigger] f(i) == (value / (pow2((8 * (k - 1 - i)) as nat) as int)) % 256,
    ensures value_of_bytes(f, j, true) == value / (pow2((8 * (k - j)) as nat) as int),
    decreases j,
{
    lemma2_to64();
    if j == 0 {
        vstd::arithmetic::div_mod::lemma_basic_div(value, pow2(8 * k) as int);
    } else {
        lemma_big_prefix(value, f, k, (j - 1) as nat);
        let p = pow2((8 * (k - j)) as nat) as int;
        lemma_pow2_pos((8 * (k - j)) as nat);
        lemma_pow2_adds((8 * (k - j)) as nat, 8);
        assert(pow2((8 * (k - (j - 1))) as nat) == p * 256);
        vstd::arithmetic::div_mod::lemma_div_denominator(value, p, 256);
        let q = value / p;
        vstd::arithmetic::div_mod::lemma_fundamental_div_mod(q, 256);
        assert(f(j - 1) == q % 256);
    }
}

proof fn lemma_little_prefix(value: int, f: spec_fn(int) -> int, j: nat)
    requires
        0 <= value,
        forall|i: int| 0 <= i < j ==> #[trigger] f(i) == (value / (pow2((8 * i) as nat) as int)) % 256,
    ensures value_of_bytes(f, j, false) == value % (pow2(8 * j) as int),
    decreases j,
{
    lemma2_to64();
    if j > 0 {
        lemma_little_prefix(value, f, (j - 1) as nat);
        let p = pow2((8 * (j - 1)) as nat) as int;
        lemma_pow2_pos((8 * (j - 1)) as nat);
        lemma_pow2_adds((8 * (j - 1)) as nat, 8);
        assert(pow2(8 * j) == p * 256);
        vstd::arithmetic::div_mod::lemma_breakdown(value, p, 256);
        assert(f(j - 1) == (value / p) % 256);
        assert(p * ((value / p) % 256) == ((value / p) % 256) * p) by(nonlinear_arith);
    }
}

/// A byte of an aligned cell.
fn get_value_byte(inv: &NumAbsDomain, byte_offset: u64, cell_width: u32, big_endian: bool, registry: &mut VariableRegistry) -> (r: Option<u8>)
    requires
        inv.wf(),
        old(registry)@.wf(),
        cell_width == 1 || cell_width == 2 || cell_width == 4 || cell_width == 8,
    ensures
        final(registry)@.wf(),
        final(registry)@.extends(old(registry)@),
        final(registry)@.has(holder(byte_offset as int, cell_width as int).name(DataKind::Svalues)),
        r is Some <==> byte_of(numeric_steps::num(inv), final(registry)@, byte_offset as int, cell_width as int, big_endian) is Some,
        r matches Some(b) ==> byte_of(numeric_steps::num(inv), final(registry)@, byte_offset as int, cell_width as int, big_endian) == Some(b as int),
{
    let w: u64 = cell_width as u64;
    assert(0 <= byte_offset / w * w <= byte_offset) by(nonlinear_arith) requires w > 0, byte_offset >= 0;
    let cell_offset: u64 = byte_offset / w * w;
    let c = Cell::new(cell_offset, cell_width);
    let var = c.get_scalar(DataKind::Svalues, registry);
    proof {
        assert(c == holder(byte_offset as int, cell_width as int));
        registry@.var_is_unique(c.name(DataKind::Svalues), var.id as int);
    }
    let interval = inv.eval_interval_var(var, registry);
    match interval.singleton() {
        None => None,
        Some(val) => {
            proof {
                lemma2_to64();
                vstd::arithmetic::div_mod::lemma_mod_bound(val@, pow2((8 * cell_width) as nat) as int);
                lemma_pow2_adds(32, 32);
                if cell_width < 8 { lemma_pow2_strictly_increases((8 * cell_width) as nat, 64); }
            }
            let n: u64 = val.cast_to_unsigned_width(cell_width * 8).narrow_to_u64();
            let byte_index: u64 = byte_offset % w;
            let place: u64 = if big_endian { w - 1 - byte_index } else { byte_index };
            let shifted: u64 = n >> (8 * place);
            proof {
                vstd::bits::lemma_u64_shr_is_div(n, (8 * place) as u64);
            }
            Some((shifted % 256) as u8)
        }
    }
}

/// A byte, from the widest aligned cell whose value is known.
fn get_known_byte(inv: &NumAbsDomain, byte_offset: u64, big_endian: bool, registry: &mut VariableRegistry) -> (r: Option<u8>)
    requires inv.wf(), old(registry)@.wf(),
    ensures
        final(registry)@.wf(),
        final(registry)@.extends(old(registry)@),
        holders_named(final(registry)@, byte_offset as int),
        r is Some <==> known_byte(numeric_steps::num(inv), final(registry)@, byte_offset as int, big_endian) is Some,
        r matches Some(b) ==> known_byte(numeric_steps::num(inv), final(registry)@, byte_offset as int, big_endian) == Some(b as int),
{
    let ghost g0 = registry@;
    let b8 = get_value_byte(inv, byte_offset, 8, big_endian, registry);
    let ghost g1 = registry@;
    let b4 = get_value_byte(inv, byte_offset, 4, big_endian, registry);
    let ghost g2 = registry@;
    let b2 = get_value_byte(inv, byte_offset, 2, big_endian, registry);
    let ghost g3 = registry@;
    let b1 = get_value_byte(inv, byte_offset, 1, big_endian, registry);
    proof {
        let b = byte_offset as int;
        let g4 = registry@;
        g4.extending_is_transitive(g3, g2);
        g4.extending_is_transitive(g2, g1);
        g4.extending_is_transitive(g1, g0);
        g4.names_are_stable(g1, holder(b, 8).name(DataKind::Svalues));
        g4.names_are_stable(g2, holder(b, 4).name(DataKind::Svalues));
        g4.names_are_stable(g3, holder(b, 2).name(DataKind::Svalues));
    }
    if b8.is_some() { b8 } else if b4.is_some() { b4 } else if b2.is_some() { b2 } else { b1 }
}

/// The value of the bytes of a cell, where all are known.
pub(crate) fn reconstruct_value_from_bytes(inv: &NumAbsDomain, c: Cell, registry: &mut VariableRegistry, big_endian: bool) -> (r: Option<u64>)
    requires inv.wf(), old(registry)@.wf(),
    ensures
        final(registry)@.wf(),
        final(registry)@.extends(old(registry)@),
        cell_probed(final(registry)@, c),
        r is Some <==> rebuilt(numeric_steps::num(inv), final(registry)@, c, big_endian) is Some,
        r matches Some(v) ==> rebuilt(numeric_steps::num(inv), final(registry)@, c, big_endian) == Some(v as int),
{
    let ghost older = registry@;
    let ghost n = numeric_steps::num(inv);
    let offset: u64 = c.offset;
    let size: u32 = c.size;
    if !(size == 1 || size == 2 || size == 4 || size == 8) || offset > u64::MAX - size as u64 {
        return None;
    }
    let mut bytes: Vec<Option<u8>> = Vec::new();
    let mut complete: bool = true;
    let mut i: u32 = 0;
    while i < size
        invariant
            i <= size,
            size == 1 || size == 2 || size == 4 || size == 8,
            c == (Cell { offset, size }),
            offset + size <= u64::MAX,
            inv.wf(),
            n == numeric_steps::num(inv),
            registry@.wf(),
            registry@.extends(older),
            bytes.len() == i,
            forall|j: int| 0 <= j < i ==> #[trigger] holders_named(registry@, c.offset + j),
            forall|j: int| 0 <= j < i ==> (#[trigger] bytes@[j] is Some <==> known_byte(n, registry@, c.offset + j, big_endian) is Some),
            forall|j: int| 0 <= j < i && (#[trigger] bytes@[j]) is Some ==> known_byte(n, registry@, c.offset + j, big_endian) == Some(bytes@[j]->Some_0 as int),
            complete <==> forall|j: int| 0 <= j < i ==> (#[trigger] bytes@[j]) is Some,
        decreases size - i,
    {
        let byte_offset: u64 = offset + i as u64;
        let ghost g0 = registry@;
        let byte: Option<u8> = get_known_byte(inv, byte_offset, big_endian, registry);
        let ghost g4 = registry@;
        proof {
            g4.extending_is_transitive(g0, older);
            assert(holders_named(g4, c.offset + i));
            assert forall|j: int| 0 <= j < i implies #[trigger] holders_named(g4, c.offset + j)
                && known_byte(n, g0, c.offset + j, big_endian) == known_byte(n, g4, c.offset + j, big_endian) by {
                assert(holders_named(g0, c.offset + j));
                lemma_holders_stay(g0, g4, n, c.offset + j, big_endian);
            }
        }
        let ghost before = bytes@;
        bytes.push(byte);
        if byte.is_none() {
            complete = false;
        }
        proof {
            assert forall|j: int| 0 <= j < i + 1 implies (#[trigger] bytes@[j] is Some <==> known_byte(n, g4, c.offset + j, big_endian) is Some) by {
                if j < i { assert(before[j] == bytes@[j]); assert(holders_named(g4, c.offset + j)); }
            }
            assert forall|j: int| 0 <= j < i + 1 && (#[trigger] bytes@[j]) is Some implies known_byte(n, g4, c.offset + j, big_endian) == Some(bytes@[j]->Some_0 as int) by {
                if j < i { assert(before[j] == bytes@[j]); assert(holders_named(g4, c.offset + j)); }
            }
            if forall|j: int| 0 <= j < i + 1 ==> (#[trigger] bytes@[j]) is Some {
                assert forall|j: int| 0 <= j < i implies (#[trigger] before[j]) is Some by { assert(before[j] == bytes@[j]); }
                assert(bytes@[i as int] is Some);
            }
            if complete {
                assert forall|j: int| 0 <= j < i + 1 implies (#[trigger] bytes@[j]) is Some by {
                    if j < i { assert(before[j] == bytes@[j]); }
                }
            }
        }
        i = i + 1;
    }
    if !complete {
        proof {
            let j = choose|j: int| 0 <= j < size && !((#[trigger] bytes@[j]) is Some);
            assert(!(known_byte(n, registry@, c.offset + j, big_endian) is Some));
        }
        return None;
    }
    let ghost f = |j: int| known_byte(n, registry@, c.offset + j, big_endian)->Some_0;
    let mut value: u128 = 0;
    let mut unit: u128 = 1;
    let mut k: u32 = 0;
    proof {
        lemma2_to64();
        assert forall|j: int| 0 <= j < size implies 0 <= #[trigger] f(j) < 256 by { assert(bytes@[j] is Some); }
        assert forall|j: int| 0 <= j < size implies #[trigger] known_byte(n, registry@, c.offset + j, big_endian) is Some by { assert(bytes@[j] is Some); }
    }
    while k < size
        invariant
            k <= size,
            size <= 8,
            bytes.len() == size,
            forall|j: int| 0 <= j < size ==> 0 <= #[trigger] f(j) < 256,
            forall|j: int| 0 <= j < size ==> (#[trigger] bytes@[j]) is Some && f(j) == bytes@[j]->Some_0,
            value == value_of_bytes(f, k as nat, big_endian),
            unit == pow2((8 * k) as nat),
            value < unit,
            unit <= pow2(64),
        decreases size - k,
    {
        let b: u8 = match bytes[k as usize] { Some(b) => b, None => 0 };
        proof {
            bytes_fit(f, (k + 1) as nat, big_endian);
            lemma2_to64();
            lemma_pow2_adds((8 * k) as nat, 8);
            assert(bytes@[k as int] is Some && f(k as int) == b);
            if k + 1 < 8 { lemma_pow2_strictly_increases((8 * (k + 1)) as nat, 64); }
            lemma_pow2_strictly_increases((8 * k) as nat, 64);
            assert(b as int * unit as int <= 255 * unit as int && 0 <= b as int * unit as int) by(nonlinear_arith) requires b <= 255, unit >= 0;
        }
        value = if big_endian { value * 256 + b as u128 } else { value + (b as u128) * unit };
        unit = unit * 256;
        k = k + 1;
    }
    proof {
        lemma2_to64();
        bytes_fit(f, size as nat, big_endian);
    }
    Some(value as u64)
}

}
