//! The kinds of data tracked per register, and the types a register may hold.
use vstd::prelude::*;
use vstd::string::*;
use crate::text::same_text;

verus! {

/// The different kinds of per-register data tracked by the abstract domains.
#[derive(Clone, Copy, Debug, PartialEq, Eq, PartialOrd, Ord, Hash, Structural)]
pub enum DataKind {
    Types,
    Svalues,
    Uvalues,
    CtxOffsets,
    MapFds,
    MapFdPrograms,
    PacketOffsets,
    SharedOffsets,
    StackOffsets,
    SharedRegionSizes,
    StackNumericSizes,
    SocketOffsets,
    BtfIdOffsets,
    AllocMemOffsets,
    AllocMemSizes,
}

/// The first kind.
pub const KIND_MIN: DataKind = DataKind::Types;
/// The first kind that describes a value.
pub const KIND_VALUE_MIN: DataKind = DataKind::Svalues;
/// The last kind of the range that is walked when a register is forgotten.
pub const KIND_MAX: DataKind = DataKind::StackNumericSizes;

impl DataKind {
    /// Position of the kind in the declaration order.
    pub open spec fn rank(self) -> int {
        match self {
            DataKind::Types => 0,
            DataKind::Svalues => 1,
            DataKind::Uvalues => 2,
            DataKind::CtxOffsets => 3,
            DataKind::MapFds => 4,
            DataKind::MapFdPrograms => 5,
            DataKind::PacketOffsets => 6,
            DataKind::SharedOffsets => 7,
            DataKind::StackOffsets => 8,
            DataKind::SharedRegionSizes => 9,
            DataKind::StackNumericSizes => 10,
            DataKind::SocketOffsets => 11,
            DataKind::BtfIdOffsets => 12,
            DataKind::AllocMemOffsets => 13,
            DataKind::AllocMemSizes => 14,
        }
    }

    /// The kind at a position of the declaration order.
    pub open spec fn of_rank(i: int) -> DataKind {
        if i == 0 { DataKind::Types }
        else if i == 1 { DataKind::Svalues }
        else if i == 2 { DataKind::Uvalues }
        else if i == 3 { DataKind::CtxOffsets }
        else if i == 4 { DataKind::MapFds }
        else if i == 5 { DataKind::MapFdPrograms }
        else if i == 6 { DataKind::PacketOffsets }
        else if i == 7 { DataKind::SharedOffsets }
        else if i == 8 { DataKind::StackOffsets }
        else if i == 9 { DataKind::SharedRegionSizes }
        else if i == 10 { DataKind::StackNumericSizes }
        else if i == 11 { DataKind::SocketOffsets }
        else if i == 12 { DataKind::BtfIdOffsets }
        else if i == 13 { DataKind::AllocMemOffsets }
        else { DataKind::AllocMemSizes }
    }

    /// The text of the kind in variable names.
    pub open spec fn label(self) -> Seq<char> {
        match self {
            DataKind::Types => "type"@,
            DataKind::Svalues => "svalue"@,
            DataKind::Uvalues => "uvalue"@,
            DataKind::CtxOffsets => "ctx_offset"@,
            DataKind::MapFds => "map_fd"@,
            DataKind::MapFdPrograms => "map_fd_programs"@,
            DataKind::PacketOffsets => "packet_offset"@,
            DataKind::SharedOffsets => "shared_offset"@,
            DataKind::StackOffsets => "stack_offset"@,
            DataKind::SharedRegionSizes => "shared_region_size"@,
            DataKind::StackNumericSizes => "stack_numeric_size"@,
            DataKind::SocketOffsets => "socket_offset"@,
            DataKind::BtfIdOffsets => "btf_id_offset"@,
            DataKind::AllocMemOffsets => "alloc_mem_offset"@,
            DataKind::AllocMemSizes => "alloc_mem_size"@,
        }
    }

    /// The kind's text, as an owned string.
    pub fn to_string(self) -> (r: String)
        ensures r@ == self.label(),
    {
        String::from_str(name_of(self))
    }

    fn position(self) -> (r: usize)
        ensures r == self.rank(),
    {
        match self {
            DataKind::Types => 0,
            DataKind::Svalues => 1,
            DataKind::Uvalues => 2,
            DataKind::CtxOffsets => 3,
            DataKind::MapFds => 4,
            DataKind::MapFdPrograms => 5,
            DataKind::PacketOffsets => 6,
            DataKind::SharedOffsets => 7,
            DataKind::StackOffsets => 8,
            DataKind::SharedRegionSizes => 9,
            DataKind::StackNumericSizes => 10,
            DataKind::SocketOffsets => 11,
            DataKind::BtfIdOffsets => 12,
            DataKind::AllocMemOffsets => 13,
            DataKind::AllocMemSizes => 14,
        }
    }

    fn at_position(i: usize) -> (r: DataKind)
        requires i < 15,
        ensures r == DataKind::of_rank(i as int), r.rank() == i,
    {
        if i == 0 { DataKind::Types }
        else if i == 1 { DataKind::Svalues }
        else if i == 2 { DataKind::Uvalues }
        else if i == 3 { DataKind::CtxOffsets }
        else if i == 4 { DataKind::MapFds }
        else if i == 5 { DataKind::MapFdPrograms }
        else if i == 6 { DataKind::PacketOffsets }
        else if i == 7 { DataKind::SharedOffsets }
        else if i == 8 { DataKind::StackOffsets }
        else if i == 9 { DataKind::SharedRegionSizes }
        else if i == 10 { DataKind::StackNumericSizes }
        else if i == 11 { DataKind::SocketOffsets }
        else if i == 12 { DataKind::BtfIdOffsets }
        else if i == 13 { DataKind::AllocMemOffsets }
        else { DataKind::AllocMemSizes }
    }
}

/// Two kinds never share a text, so a text names at most one kind.
pub proof fn kind_labels_differ(a: DataKind, b: DataKind)
    requires a.label() == b.label(),
    ensures a == b,
{
    reveal_strlit("type");
    reveal_strlit("svalue");
    reveal_strlit("uvalue");
    reveal_strlit("ctx_offset");
    reveal_strlit("map_fd");
    reveal_strlit("map_fd_programs");
    reveal_strlit("packet_offset");
    reveal_strlit("shared_offset");
    reveal_strlit("stack_offset");
    reveal_strlit("shared_region_size");
    reveal_strlit("stack_numeric_size");
    reveal_strlit("socket_offset");
    reveal_strlit("btf_id_offset");
    reveal_strlit("alloc_mem_offset");
    reveal_strlit("alloc_mem_size");
    let x = a.label();
    let y = b.label();
    assert(x.len() == y.len());
    assert(x[0] == y[0]);
    assert(x[1] == y[1]);
    assert(x[2] == y[2]);
    if x.len() > 4 { assert(x[4] == y[4]); }
    if x.len() > 6 { assert(x[6] == y[6]); }
}

/// Returns the text used in variable names for the given kind.
pub fn name_of(kind: DataKind) -> (r: &'static str)
    ensures r@ == kind.label(),
{
    match kind {
        DataKind::Types => "type",
        DataKind::Svalues => "svalue",
        DataKind::Uvalues => "uvalue",
        DataKind::CtxOffsets => "ctx_offset",
        DataKind::MapFds => "map_fd",
        DataKind::MapFdPrograms => "map_fd_programs",
        DataKind::PacketOffsets => "packet_offset",
        DataKind::SharedOffsets => "shared_offset",
        DataKind::StackOffsets => "stack_offset",
        DataKind::SharedRegionSizes => "shared_region_size",
        DataKind::StackNumericSizes => "stack_numeric_size",
        DataKind::SocketOffsets => "socket_offset",
        DataKind::BtfIdOffsets => "btf_id_offset",
        DataKind::AllocMemOffsets => "alloc_mem_offset",
        DataKind::AllocMemSizes => "alloc_mem_size",
    }
}

/// Reverse lookup: the kind with the given text, if there is one.
pub fn regkind(s: &str) -> (r: Option<DataKind>)
    ensures
        match r {
            Some(k) => k.label() == s@,
            None => forall|k: DataKind| #[trigger] k.label() != s@,
        },
{
    let mut i: usize = 0;
    while i < 15
        invariant
            i <= 15,
            forall|k: DataKind| k.rank() < i ==> #[trigger] k.label() != s@,
        decreases 15 - i,
    {
        let k = DataKind::at_position(i);
        if same_text(name_of(k), s) {
            return Some(k);
        }
        assert forall|q: DataKind| q.rank() < i + 1 implies #[trigger] q.label() != s@ by {
            if q.rank() == i {
                assert(q == k);
            }
        }
        i = i + 1;
    }
    None
}

/// The kinds from `lb` to `ub`, both ends counted.
pub open spec fn kind_range(lb: DataKind, ub: DataKind) -> Seq<DataKind> {
    Seq::new((ub.rank() - lb.rank() + 1) as nat, |i: int| DataKind::of_rank(lb.rank() + i))
}

/// Lists the kinds from `lb` to `ub`, both ends counted.
pub fn iterate_kinds(lb: DataKind, ub: DataKind) -> (r: Vec<DataKind>)
    requires lb.rank() <= ub.rank(),
    ensures
        r@ == kind_range(lb, ub),
        forall|k: DataKind| #[trigger] r@.contains(k) <==> lb.rank() <= k.rank() <= ub.rank(),
{
    let first: usize = lb.position();
    let last: usize = ub.position();
    let mut r: Vec<DataKind> = Vec::new();
    let mut i: usize = first;
    while i <= last
        invariant
            first <= i <= last + 1,
            last < 15,
            r.len() == i - first,
            forall|j: int| 0 <= j < r.len() ==> r@[j] == DataKind::of_rank(first + j),
        decreases last + 1 - i,
    {
        r.push(DataKind::at_position(i));
        i = i + 1;
    }
    assert(r@ =~= kind_range(lb, ub));
    assert forall|k: DataKind| #[trigger] r@.contains(k) <==> lb.rank() <= k.rank() <= ub.rank() by {
        if lb.rank() <= k.rank() <= ub.rank() {
            assert(r@[k.rank() - lb.rank()] == k);
        }
    }
    r
}

/// The types a register may hold. Each has a number, from -7 (`TUninit`) to 0 (`TShared`).
#[derive(Clone, Copy, Debug, PartialEq, Eq, PartialOrd, Ord, Hash, Structural)]
pub enum TypeEncoding {
    TUninit,
    TMapPrograms,
    TMap,
    TNum,
    TCtx,
    TPacket,
    TStack,
    TShared,
}

pub const T_UNINIT: TypeEncoding = TypeEncoding::TUninit;
pub const T_MAP_PROGRAMS: TypeEncoding = TypeEncoding::TMapPrograms;
pub const T_MAP: TypeEncoding = TypeEncoding::TMap;
pub const T_NUM: TypeEncoding = TypeEncoding::TNum;
pub const T_CTX: TypeEncoding = TypeEncoding::TCtx;
pub const T_PACKET: TypeEncoding = TypeEncoding::TPacket;
pub const T_STACK: TypeEncoding = TypeEncoding::TStack;
pub const T_SHARED: TypeEncoding = TypeEncoding::TShared;

pub const T_MIN: TypeEncoding = TypeEncoding::TUninit;
pub const T_MIN_VALID: TypeEncoding = TypeEncoding::TMapPrograms;
pub const T_MAX: TypeEncoding = TypeEncoding::TShared;

/// How many types there are.
pub const NUM_TYPE_ENCODINGS: usize = 8;

impl TypeEncoding {
    /// Position of the type among all types; also its bit in a `TypeSet`.
    pub open spec fn rank(self) -> int {
        match self {
            TypeEncoding::TUninit => 0,
            TypeEncoding::TMapPrograms => 1,
            TypeEncoding::TMap => 2,
            TypeEncoding::TNum => 3,
            TypeEncoding::TCtx => 4,
            TypeEncoding::TPacket => 5,
            TypeEncoding::TStack => 6,
            TypeEncoding::TShared => 7,
        }
    }

    /// The type at a position.
    pub open spec fn of_rank(i: int) -> TypeEncoding {
        if i == 0 { TypeEncoding::TUninit }
        else if i == 1 { TypeEncoding::TMapPrograms }
        else if i == 2 { TypeEncoding::TMap }
        else if i == 3 { TypeEncoding::TNum }
        else if i == 4 { TypeEncoding::TCtx }
        else if i == 5 { TypeEncoding::TPacket }
        else if i == 6 { TypeEncoding::TStack }
        else { TypeEncoding::TShared }
    }

    /// The number that stands for the type.
    pub open spec fn code(self) -> int {
        self.rank() - 7
    }

    /// The name of the type.
    pub open spec fn label(self) -> Seq<char> {
        match self {
            TypeEncoding::TUninit => "uninit"@,
            TypeEncoding::TMapPrograms => "map_fd_programs"@,
            TypeEncoding::TMap => "map_fd"@,
            TypeEncoding::TNum => "number"@,
            TypeEncoding::TCtx => "ctx"@,
            TypeEncoding::TPacket => "packet"@,
            TypeEncoding::TStack => "stack"@,
            TypeEncoding::TShared => "shared"@,
        }
    }

    /// The position of the type, from 0 to 7.
    pub fn position(self) -> (r: usize)
        ensures r == self.rank(), r < 8,
    {
        match self {
            TypeEncoding::TUninit => 0,
            TypeEncoding::TMapPrograms => 1,
            TypeEncoding::TMap => 2,
            TypeEncoding::TNum => 3,
            TypeEncoding::TCtx => 4,
            TypeEncoding::TPacket => 5,
            TypeEncoding::TStack => 6,
            TypeEncoding::TShared => 7,
        }
    }

    /// The type at a position.
    pub fn at_position(i: usize) -> (r: TypeEncoding)
        requires i < 8,
        ensures r == TypeEncoding::of_rank(i as int), r.rank() == i,
    {
        if i == 0 { TypeEncoding::TUninit }
        else if i == 1 { TypeEncoding::TMapPrograms }
        else if i == 2 { TypeEncoding::TMap }
        else if i == 3 { TypeEncoding::TNum }
        else if i == 4 { TypeEncoding::TCtx }
        else if i == 5 { TypeEncoding::TPacket }
        else if i == 6 { TypeEncoding::TStack }
        else { TypeEncoding::TShared }
    }

    /// The number that stands for the type.
    pub fn to_i32(self) -> (r: i32)
        ensures r == self.code(),
    {
        match self {
            TypeEncoding::TUninit => -7,
            TypeEncoding::TMapPrograms => -6,
            TypeEncoding::TMap => -5,
            TypeEncoding::TNum => -4,
            TypeEncoding::TCtx => -3,
            TypeEncoding::TPacket => -2,
            TypeEncoding::TStack => -1,
            TypeEncoding::TShared => 0,
        }
    }

    fn name(self) -> (r: &'static str)
        ensures r@ == self.label(),
    {
        match self {
            TypeEncoding::TUninit => "uninit",
            TypeEncoding::TMapPrograms => "map_fd_programs",
            TypeEncoding::TMap => "map_fd",
            TypeEncoding::TNum => "number",
            TypeEncoding::TCtx => "ctx",
            TypeEncoding::TPacket => "packet",
            TypeEncoding::TStack => "stack",
            TypeEncoding::TShared => "shared",
        }
    }

    /// The type's name, as an owned string.
    pub fn to_string(self) -> (r: String)
        ensures r@ == self.label(),
    {
        String::from_str(self.name())
    }
}

/// Two types never share a name.
pub proof fn type_labels_differ(a: TypeEncoding, b: TypeEncoding)
    requires a.label() == b.label(),
    ensures a == b,
{
    reveal_strlit("uninit");
    reveal_strlit("map_fd_programs");
    reveal_strlit("map_fd");
    reveal_strlit("number");
    reveal_strlit("ctx");
    reveal_strlit("packet");
    reveal_strlit("stack");
    reveal_strlit("shared");
    let x = a.label();
    let y = b.label();
    assert(x.len() == y.len());
    assert(x[0] == y[0]);
    assert(x[1] == y[1]);
}

/// The types from `lb` to `ub`, both ends counted, in order; none where `lb` comes after `ub`.
pub open spec fn type_range(lb: TypeEncoding, ub: TypeEncoding) -> Seq<TypeEncoding> {
    if lb.rank() > ub.rank() {
        seq![]
    } else {
        Seq::new((ub.rank() - lb.rank() + 1) as nat, |i: int| TypeEncoding::of_rank(lb.rank() + i))
    }
}

/// Lists the types from `lb` to `ub`, both ends counted.
pub fn iterate_types(lb: TypeEncoding, ub: TypeEncoding) -> (r: Vec<TypeEncoding>)
    ensures
        r@ == type_range(lb, ub),
        forall|t: TypeEncoding| #[trigger] r@.contains(t) <==> lb.rank() <= t.rank() <= ub.rank(),
{
    let first: usize = lb.position();
    let last: usize = ub.position();
    let mut r: Vec<TypeEncoding> = Vec::new();
    let mut i: usize = first;
    while i <= last
        invariant
            first <= i,
            i <= last + 1 || i == first,
            last < 8,
            r.len() == i - first,
            forall|j: int| 0 <= j < r.len() ==> r@[j] == TypeEncoding::of_rank(first + j),
        decreases last + 1 - i,
    {
        r.push(TypeEncoding::at_position(i));
        i = i + 1;
    }
    assert(r@ =~= type_range(lb, ub));
    assert forall|t: TypeEncoding| #[trigger] r@.contains(t) <==> lb.rank() <= t.rank() <= ub.rank() by {
        if lb.rank() <= t.rank() <= ub.rank() {
            assert(r@[t.rank() - lb.rank()] == t);
        }
    }
    r
}

/// Parses a type's name.
pub fn string_to_type_encoding(s: &str) -> (r: Option<TypeEncoding>)
    ensures
        match r {
            Some(t) => t.label() == s@,
            None => forall|t: TypeEncoding| #[trigger] t.label() != s@,
        },
{
    let mut i: usize = 0;
    while i < 8
        invariant
            i <= 8,
            forall|t: TypeEncoding| t.rank() < i ==> #[trigger] t.label() != s@,
        decreases 8 - i,
    {
        let t = TypeEncoding::at_position(i);
        if same_text(t.name(), s) {
            return Some(t);
        }
        assert forall|q: TypeEncoding| q.rank() < i + 1 implies #[trigger] q.label() != s@ by {
            if q.rank() == i {
                assert(q == t);
            }
        }
        i = i + 1;
    }
    None
}

/// The type with the given number, if there is one.
pub fn int_to_type_encoding(v: i32) -> (r: Option<TypeEncoding>)
    ensures
        r is Some <==> -7 <= v <= 0,
        r is Some ==> r->Some_0.code() == v,
{
    if -7 <= v && v <= 0 {
        Some(TypeEncoding::at_position((v + 7) as usize))
    } else {
        None
    }
}

/// The names of the types of a list, with `", "` between neighbours.
pub open spec fn joined_labels(items: Seq<TypeEncoding>) -> Seq<char>
    decreases items.len(),
{
    if items.len() == 0 {
        seq![]
    } else if items.len() == 1 {
        items[0].label()
    } else {
        joined_labels(items.drop_last()) + ", "@ + items.last().label()
    }
}

/// A list of types in braces.
pub open spec fn braced_labels(items: Seq<TypeEncoding>) -> Seq<char> {
    "{"@ + joined_labels(items) + "}"@
}

/// Renders a list of types in braces, such as `{number, ctx, packet}`.
pub fn typeset_to_string(items: &[TypeEncoding]) -> (r: String)
    ensures r@ == braced_labels(items@),
{
    let mut s = String::from_str("{");
    let mut i: usize = 0;
    assert(joined_labels(items@.take(0)) =~= seq![]);
    assert(s@ =~= "{"@ + joined_labels(items@.take(0)));
    while i < items.len()
        invariant
            i <= items@.len(),
            s@ == "{"@ + joined_labels(items@.take(i as int)),
        decreases items@.len() - i,
    {
        let ghost before = s@;
        if i > 0 {
            s.append(", ");
        }
        s.append(items[i].name());
        proof {
            let next = items@.take(i + 1);
            assert(next.drop_last() =~= items@.take(i as int));
            assert(next.last() == items@[i as int]);
            assert(s@ =~= "{"@ + joined_labels(next));
        }
        i = i + 1;
    }
    assert(items@.take(items@.len() as int) =~= items@);
    s.append("}");
    s
}

/// A set of types, one bit for each.
#[derive(Clone, Copy, Debug, PartialEq, Eq, Hash, Structural)]
pub struct TypeSet {
    pub bits: u8,
}

/// The bit of a type.
pub open spec fn type_bit(t: TypeEncoding) -> u8 {
    match t {
        TypeEncoding::TUninit => 1,
        TypeEncoding::TMapPrograms => 2,
        TypeEncoding::TMap => 4,
        TypeEncoding::TNum => 8,
        TypeEncoding::TCtx => 16,
        TypeEncoding::TPacket => 32,
        TypeEncoding::TStack => 64,
        TypeEncoding::TShared => 128,
    }
}

fn bit_of(t: TypeEncoding) -> (r: u8)
    ensures r == type_bit(t),
{
    match t {
        TypeEncoding::TUninit => 1,
        TypeEncoding::TMapPrograms => 2,
        TypeEncoding::TMap => 4,
        TypeEncoding::TNum => 8,
        TypeEncoding::TCtx => 16,
        TypeEncoding::TPacket => 32,
        TypeEncoding::TStack => 64,
        TypeEncoding::TShared => 128,
    }
}

proof fn lemma_bit_algebra(a: u8, b: u8, m: u8, n: u8)
    requires
        m == 1 || m == 2 || m == 4 || m == 8 || m == 16 || m == 32 || m == 64 || m == 128,
        n == 1 || n == 2 || n == 4 || n == 8 || n == 16 || n == 32 || n == 64 || n == 128,
    ensures
        ((a | b) & m != 0) <==> (a & m != 0 || b & m != 0),
        ((a & b) & m != 0) <==> (a & m != 0 && b & m != 0),
        ((a & !n) & m != 0) <==> (a & m != 0 && m != n),
        (n & m != 0) <==> m == n,
        0u8 & m == 0,
        255u8 & m != 0,
{
    assert(((a | b) & m != 0) <==> (a & m != 0 || b & m != 0)) by (bit_vector);
    assert(((a & b) & m != 0) <==> (a & m != 0 && b & m != 0)) by (bit_vector)
        requires m == 1 || m == 2 || m == 4 || m == 8 || m == 16 || m == 32 || m == 64 || m == 128;
    assert(((a & !n) & m != 0) <==> (a & m != 0 && m != n)) by (bit_vector)
        requires
            m == 1 || m == 2 || m == 4 || m == 8 || m == 16 || m == 32 || m == 64 || m == 128,
            n == 1 || n == 2 || n == 4 || n == 8 || n == 16 || n == 32 || n == 64 || n == 128;
    assert((n & m != 0) <==> m == n) by (bit_vector)
        requires
            m == 1 || m == 2 || m == 4 || m == 8 || m == 16 || m == 32 || m == 64 || m == 128,
            n == 1 || n == 2 || n == 4 || n == 8 || n == 16 || n == 32 || n == 64 || n == 128;
    assert(0u8 & m == 0 && 255u8 & m != 0) by (bit_vector)
        requires m == 1 || m == 2 || m == 4 || m == 8 || m == 16 || m == 32 || m == 64 || m == 128;
}

impl TypeSet {
    /// Whether the set holds a type.
    pub open spec fn has(self, t: TypeEncoding) -> bool {
        self.bits & type_bit(t) != 0
    }

    /// The members among the first `n` types, in order.
    pub open spec fn members_below(self, n: nat) -> Seq<TypeEncoding>
        decreases n,
    {
        if n == 0 {
            seq![]
        } else if self.has(TypeEncoding::of_rank(n - 1)) {
            self.members_below((n - 1) as nat).push(TypeEncoding::of_rank(n - 1))
        } else {
            self.members_below((n - 1) as nat)
        }
    }

    /// The members in order.
    pub open spec fn members(self) -> Seq<TypeEncoding> {
        self.members_below(8)
    }

    /// Whether the set holds `t` and nothing else.
    pub open spec fn is_just(self, t: TypeEncoding) -> bool {
        forall|u: TypeEncoding| #[trigger] self.has(u) <==> u == t
    }

    /// Whether the set has a member.
    pub open spec fn inhabited(self) -> bool {
        exists|t: TypeEncoding| #[trigger] self.has(t)
    }

    /// Whether every member is one of `other`'s.
    pub open spec fn subset(self, other: TypeSet) -> bool {
        forall|t: TypeEncoding| #[trigger] self.has(t) ==> other.has(t)
    }

    /// How the set is shown: a lone member by its name, any other set in braces.
    pub open spec fn text(self) -> Seq<char> {
        if self.members().len() == 0 {
            "{}"@
        } else if self.members().len() == 1 {
            self.members()[0].label()
        } else {
            braced_labels(self.members())
        }
    }

    /// Sets with the same members are equal.
    pub proof fn extensional(self, other: TypeSet)
        requires forall|t: TypeEncoding| #[trigger] self.has(t) == other.has(t),
        ensures self == other,
    {
        let a = self.bits;
        let b = other.bits;
        assert(self.has(TypeEncoding::TUninit) == other.has(TypeEncoding::TUninit));
        assert(self.has(TypeEncoding::TMapPrograms) == other.has(TypeEncoding::TMapPrograms));
        assert(self.has(TypeEncoding::TMap) == other.has(TypeEncoding::TMap));
        assert(self.has(TypeEncoding::TNum) == other.has(TypeEncoding::TNum));
        assert(self.has(TypeEncoding::TCtx) == other.has(TypeEncoding::TCtx));
        assert(self.has(TypeEncoding::TPacket) == other.has(TypeEncoding::TPacket));
        assert(self.has(TypeEncoding::TStack) == other.has(TypeEncoding::TStack));
        assert(self.has(TypeEncoding::TShared) == other.has(TypeEncoding::TShared));
        assert(a == b) by (bit_vector)
            requires
                (a & 1u8 != 0) == (b & 1u8 != 0),
                (a & 2u8 != 0) == (b & 2u8 != 0),
                (a & 4u8 != 0) == (b & 4u8 != 0),
                (a & 8u8 != 0) == (b & 8u8 != 0),
                (a & 16u8 != 0) == (b & 16u8 != 0),
                (a & 32u8 != 0) == (b & 32u8 != 0),
                (a & 64u8 != 0) == (b & 64u8 != 0),
                (a & 128u8 != 0) == (b & 128u8 != 0);
    }

    proof fn lemma_members_below(self, n: nat, t: TypeEncoding)
        requires n <= 8,
        ensures
            self.members_below(n).contains(t) <==> (self.has(t) && t.rank() < n),
            self.members_below(n).no_duplicates(),
            self.members_below(n).len() <= n,
        decreases n,
    {
        if n > 0 {
            let p = TypeEncoding::of_rank(n - 1);
            let rest = self.members_below((n - 1) as nat);
            self.lemma_members_below((n - 1) as nat, t);
            self.lemma_members_below((n - 1) as nat, p);
            assert(p.rank() == n - 1);
            if self.has(p) {
                let all = rest.push(p);
                assert(!rest.contains(p));
                assert forall|i: int, j: int| 0 <= i < all.len() && 0 <= j < all.len() && i != j implies all[i] != all[j] by {
                    if i == rest.len() { assert(rest.contains(all[j])); }
                    if j == rest.len() { assert(rest.contains(all[i])); }
                }
                if all.contains(t) {
                    let i = choose|i: int| 0 <= i < all.len() && all[i] == t;
                    if i < rest.len() { assert(rest.contains(t)); }
                }
                if rest.contains(t) {
                    let i = choose|i: int| 0 <= i < rest.len() && rest[i] == t;
                    assert(all[i] == t);
                }
                if t == p {
                    assert(all[rest.len() as int] == t);
                }
            }
            if t.rank() == n - 1 {
                assert(t == p);
            }
        }
    }

    /// The list of members names exactly the members, each once.
    pub proof fn members_exact(self)
        ensures
            forall|t: TypeEncoding| #[trigger] self.members().contains(t) <==> self.has(t),
            self.members().no_duplicates(),
            self.members().len() <= 8,
    {
        assert forall|t: TypeEncoding| #[trigger] self.members().contains(t) <==> self.has(t) by {
            self.lemma_members_below(8, t);
        }
        self.lemma_members_below(8, TypeEncoding::TUninit);
    }

    /// A set has one member exactly where it holds just one type.
    pub proof fn lone_member(self, t: TypeEncoding)
        ensures self.is_just(t) <==> (self.members().len() == 1 && self.members()[0] == t),
    {
        self.members_exact();
        let m = self.members();
        if self.is_just(t) {
            assert(self.has(t));
            assert(m.contains(t));
            if m.len() > 1 {
                assert(m.contains(m[0]));
                assert(m.contains(m[1]));
            }
        }
        if m.len() == 1 && m[0] == t {
            assert forall|u: TypeEncoding| #[trigger] self.has(u) <==> u == t by {
                assert(m.contains(u) <==> self.has(u));
                if u == t {
                    assert(m[0] == u);
                }
            }
        }
    }

    /// The set of all types.
    pub open spec fn full() -> TypeSet {
        TypeSet { bits: 255 }
    }

    /// The types that two sets share.
    pub open spec fn common(self, other: TypeSet) -> TypeSet {
        TypeSet { bits: self.bits & other.bits }
    }

    /// The types that one of two sets has.
    pub open spec fn either(self, other: TypeSet) -> TypeSet {
        TypeSet { bits: self.bits | other.bits }
    }

    /// The set without a type.
    pub open spec fn less(self, te: TypeEncoding) -> TypeSet {
        TypeSet { bits: self.bits & !type_bit(te) }
    }

    /// The set of one type.
    pub open spec fn just(te: TypeEncoding) -> TypeSet {
        TypeSet { bits: type_bit(te) }
    }

    /// How membership goes through the operations.
    pub proof fn algebra(self, other: TypeSet, te: TypeEncoding, t: TypeEncoding)
        ensures
            TypeSet::full().has(t),
            self.common(other).has(t) <==> self.has(t) && other.has(t),
            self.either(other).has(t) <==> self.has(t) || other.has(t),
            self.less(te).has(t) <==> self.has(t) && t != te,
            TypeSet::just(te).has(t) <==> t == te,
    {
        lemma_bit_algebra(self.bits, other.bits, type_bit(t), type_bit(te));
    }

    /// The set of one type.
    pub fn singleton(te: TypeEncoding) -> (r: TypeSet)
        ensures r == TypeSet::just(te), r.is_just(te),
    {
        let r = TypeSet { bits: bit_of(te) };
        assert forall|u: TypeEncoding| #[trigger] r.has(u) <==> u == te by {
            lemma_bit_algebra(0, 0, type_bit(u), type_bit(te));
        }
        r
    }

    /// The set of the types of a list.
    pub fn of(types: &[TypeEncoding]) -> (r: TypeSet)
        ensures forall|t: TypeEncoding| #[trigger] r.has(t) <==> types@.contains(t),
    {
        let mut r = TypeSet::empty();
        let mut i: usize = 0;
        while i < types.len()
            invariant
                i <= types@.len(),
                forall|t: TypeEncoding| #[trigger] r.has(t) <==> types@.take(i as int).contains(t),
            decreases types@.len() - i,
        {
            let ghost before = r;
            let te = types[i];
            r = r.union(TypeSet::singleton(te));
            proof {
                let p = types@.take(i as int);
                let q = types@.take(i + 1);
                assert(q =~= p.push(te));
                assert forall|t: TypeEncoding| #[trigger] r.has(t) <==> q.contains(t) by {
                    assert(before.has(t) <==> p.contains(t));
                    if p.contains(t) {
                        let k = choose|k: int| 0 <= k < p.len() && p[k] == t;
                        assert(q[k] == t);
                    }
                    if t == te {
                        assert(q[i as int] == t);
                    }
                }
            }
            i = i + 1;
        }
        assert(types@.take(types@.len() as int) =~= types@);
        r
    }

    /// The empty set.
    pub fn empty() -> (r: TypeSet)
        ensures r.bits == 0, forall|t: TypeEncoding| !(#[trigger] r.has(t)),
    {
        let r = TypeSet { bits: 0 };
        assert forall|t: TypeEncoding| !(#[trigger] r.has(t)) by {
            lemma_bit_algebra(0, 0, type_bit(t), type_bit(t));
        }
        r
    }

    /// The set of all types.
    pub fn all() -> (r: TypeSet)
        ensures r == TypeSet::full(), forall|t: TypeEncoding| #[trigger] r.has(t),
    {
        let r = TypeSet { bits: 255 };
        assert forall|t: TypeEncoding| #[trigger] r.has(t) by {
            lemma_bit_algebra(0, 0, type_bit(t), type_bit(t));
        }
        r
    }

    /// Whether the set is empty.
    pub fn is_empty(self) -> (r: bool)
        ensures
            r == (self.bits == 0),
            r == !self.inhabited(),
            r <==> forall|t: TypeEncoding| !(#[trigger] self.has(t)),
            r <==> self.members().len() == 0,
    {
        proof {
            self.members_exact();
            if self.bits == 0 {
                assert forall|t: TypeEncoding| !(#[trigger] self.has(t)) by {
                    lemma_bit_algebra(0, 0, type_bit(t), type_bit(t));
                }
                if self.members().len() > 0 {
                    assert(self.members().contains(self.members()[0]));
                }
            }
            if forall|t: TypeEncoding| !(#[trigger] self.has(t)) {
                let z = TypeSet { bits: 0 };
                assert forall|t: TypeEncoding| #[trigger] self.has(t) == z.has(t) by {
                    lemma_bit_algebra(0, 0, type_bit(t), type_bit(t));
                }
                self.extensional(z);
            }
            if self.members().len() == 0 {
                assert forall|t: TypeEncoding| !(#[trigger] self.has(t)) by {
                    assert(self.members().contains(t) <==> self.has(t));
                }
            }
        }
        self.bits == 0
    }

    /// Whether the set holds exactly one type.
    pub fn is_singleton(self) -> (r: bool)
        ensures
            r == (self.members().len() == 1),
            r <==> exists|t: TypeEncoding| self.is_just(t),
    {
        self.as_singleton().is_some()
    }

    /// Whether the set holds a type.
    pub fn contains(self, te: TypeEncoding) -> (r: bool)
        ensures r == self.has(te),
    {
        self.bits & bit_of(te) != 0
    }

    /// Set union.
    pub fn union(self, other: TypeSet) -> (r: TypeSet)
        ensures r == self.either(other), forall|t: TypeEncoding| #[trigger] r.has(t) <==> self.has(t) || other.has(t),
    {
        let r = TypeSet { bits: self.bits | other.bits };
        assert forall|t: TypeEncoding| #[trigger] r.has(t) <==> self.has(t) || other.has(t) by {
            lemma_bit_algebra(self.bits, other.bits, type_bit(t), type_bit(t));
        }
        r
    }

    /// Set intersection.
    pub fn intersect(self, other: TypeSet) -> (r: TypeSet)
        ensures r == self.common(other), forall|t: TypeEncoding| #[trigger] r.has(t) <==> self.has(t) && other.has(t),
    {
        let r = TypeSet { bits: self.bits & other.bits };
        assert forall|t: TypeEncoding| #[trigger] r.has(t) <==> self.has(t) && other.has(t) by {
            lemma_bit_algebra(self.bits, other.bits, type_bit(t), type_bit(t));
        }
        r
    }

    /// The set without one type.
    pub fn remove(self, te: TypeEncoding) -> (r: TypeSet)
        ensures r == self.less(te), forall|t: TypeEncoding| #[trigger] r.has(t) <==> self.has(t) && t != te,
    {
        let r = TypeSet { bits: self.bits & !bit_of(te) };
        assert forall|t: TypeEncoding| #[trigger] r.has(t) <==> self.has(t) && t != te by {
            lemma_bit_algebra(self.bits, self.bits, type_bit(t), type_bit(te));
        }
        r
    }

    /// Whether every member is one of `other`'s.
    pub fn is_subset_of(self, other: TypeSet) -> (r: bool)
        ensures r == self.subset(other),
    {
        let mut i: usize = 0;
        while i < 8
            invariant
                i <= 8,
                forall|t: TypeEncoding| t.rank() < i && #[trigger] self.has(t) ==> other.has(t),
            decreases 8 - i,
        {
            let t = TypeEncoding::at_position(i);
            if self.contains(t) && !other.contains(t) {
                return false;
            }
            assert forall|q: TypeEncoding| q.rank() < i + 1 && #[trigger] self.has(q) implies other.has(q) by {
                if q.rank() == i {
                    assert(q == t);
                }
            }
            i = i + 1;
        }
        true
    }

    /// How many types the set holds.
    pub fn len(self) -> (r: u32)
        ensures r == self.members().len(),
    {
        proof { self.members_exact(); }
        self.iter().len() as u32
    }

    /// The lone member, if the set holds exactly one type.
    pub fn as_singleton(self) -> (r: Option<TypeEncoding>)
        ensures
            r is Some <==> self.members().len() == 1,
            match r {
                Some(t) => self.is_just(t),
                None => forall|t: TypeEncoding| !(#[trigger] self.is_just(t)),
            },
    {
        let m = self.iter();
        proof {
            assert forall|t: TypeEncoding| self.members().len() != 1 implies !(#[trigger] self.is_just(t)) by {
                self.lone_member(t);
            }
            if self.members().len() == 1 {
                self.lone_member(self.members()[0]);
            }
        }
        if m.len() == 1 {
            Some(m[0])
        } else {
            None
        }
    }

    /// Lists the members in order.
    pub fn iter(self) -> (r: Vec<TypeEncoding>)
        ensures
            r@ == self.members(),
            forall|t: TypeEncoding| #[trigger] r@.contains(t) <==> self.has(t),
            r@.no_duplicates(),
    {
        let mut r: Vec<TypeEncoding> = Vec::new();
        let mut i: usize = 0;
        while i < 8
            invariant
                i <= 8,
                r@ == self.members_below(i as nat),
            decreases 8 - i,
        {
            let t = TypeEncoding::at_position(i);
            if self.contains(t) {
                r.push(t);
            }
            i = i + 1;
        }
        proof { self.members_exact(); }
        r
    }

    /// Renders the set.
    pub fn to_string(self) -> (r: String)
        ensures r@ == self.text(),
    {
        let items = self.iter();
        if items.len() == 0 {
            String::from_str("{}")
        } else if items.len() == 1 {
            items[0].to_string()
        } else {
            typeset_to_string(items.as_slice())
        }
    }
}

/// Groups of types used in checks.
#[derive(Clone, Copy, Debug, PartialEq, Eq, Hash, Structural)]
pub enum TypeGroup {
    Number,
    MapFd,
    Ctx,
    CtxOrNum,
    Packet,
    Stack,
    StackOrNum,
    Shared,
    MapFdPrograms,
    Mem,
    MemOrNum,
    Pointer,
    PtrOrNum,
    StackOrPacket,
    SingletonPtr,
}

/// Groups with one type.
pub open spec fn lone_type(g: TypeGroup) -> Option<TypeEncoding> {
    match g {
        TypeGroup::Number => Some(TypeEncoding::TNum),
        TypeGroup::MapFd => Some(TypeEncoding::TMap),
        TypeGroup::Ctx => Some(TypeEncoding::TCtx),
        TypeGroup::Packet => Some(TypeEncoding::TPacket),
        TypeGroup::Stack => Some(TypeEncoding::TStack),
        TypeGroup::Shared => Some(TypeEncoding::TShared),
        TypeGroup::MapFdPrograms => Some(TypeEncoding::TMapPrograms),
        _ => None,
    }
}

/// The types of a group in the order in which they are shown.
pub open spec fn group_types(g: TypeGroup) -> Seq<TypeEncoding> {
    match g {
        TypeGroup::CtxOrNum => seq![TypeEncoding::TNum, TypeEncoding::TCtx],
        TypeGroup::StackOrNum => seq![TypeEncoding::TNum, TypeEncoding::TStack],
        TypeGroup::Mem => seq![TypeEncoding::TStack, TypeEncoding::TPacket, TypeEncoding::TShared],
        TypeGroup::MemOrNum => seq![TypeEncoding::TNum, TypeEncoding::TStack, TypeEncoding::TPacket, TypeEncoding::TShared],
        TypeGroup::Pointer => seq![TypeEncoding::TCtx, TypeEncoding::TStack, TypeEncoding::TPacket, TypeEncoding::TShared],
        TypeGroup::PtrOrNum => seq![TypeEncoding::TNum, TypeEncoding::TCtx, TypeEncoding::TStack, TypeEncoding::TPacket, TypeEncoding::TShared],
        TypeGroup::StackOrPacket => seq![TypeEncoding::TStack, TypeEncoding::TPacket],
        TypeGroup::SingletonPtr => seq![TypeEncoding::TCtx, TypeEncoding::TStack, TypeEncoding::TPacket],
        _ => match lone_type(g) {
            Some(t) => seq![t],
            None => seq![],
        },
    }
}

/// Whether a type belongs to a group.
pub open spec fn in_group(g: TypeGroup, t: TypeEncoding) -> bool {
    match g {
        TypeGroup::CtxOrNum => t is TNum || t is TCtx,
        TypeGroup::StackOrNum => t is TNum || t is TStack,
        TypeGroup::Mem => t is TPacket || t is TStack || t is TShared,
        TypeGroup::MemOrNum => t is TNum || t is TPacket || t is TStack || t is TShared,
        TypeGroup::Pointer => t is TCtx || t is TPacket || t is TStack || t is TShared,
        TypeGroup::PtrOrNum => t is TNum || t is TCtx || t is TPacket || t is TStack || t is TShared,
        TypeGroup::StackOrPacket => t is TStack || t is TPacket,
        TypeGroup::SingletonPtr => t is TCtx || t is TPacket || t is TStack,
        _ => lone_type(g) == Some(t),
    }
}

impl TypeGroup {
    /// How the group is shown: one type by its name, several in braces.
    pub open spec fn text(self) -> Seq<char> {
        match lone_type(self) {
            Some(t) => t.label(),
            None => braced_labels(group_types(self)),
        }
    }

    /// Whether the group is a single type.
    pub fn is_singleton_type(self) -> (r: bool)
        ensures r == (lone_type(self) is Some),
    {
        match self {
            TypeGroup::Number | TypeGroup::MapFd | TypeGroup::Ctx | TypeGroup::Packet
            | TypeGroup::Stack | TypeGroup::Shared | TypeGroup::MapFdPrograms => true,
            _ => false,
        }
    }

    /// The types of the group, in the order in which they are shown.
    fn listing(self) -> (r: Vec<TypeEncoding>)
        ensures
            r@ == group_types(self),
            forall|t: TypeEncoding| #[trigger] r@.contains(t) <==> in_group(self, t),
    {
        let mut v: Vec<TypeEncoding> = Vec::new();
        match self {
            TypeGroup::Number => { v.push(T_NUM); }
            TypeGroup::MapFd => { v.push(T_MAP); }
            TypeGroup::Ctx => { v.push(T_CTX); }
            TypeGroup::Packet => { v.push(T_PACKET); }
            TypeGroup::Stack => { v.push(T_STACK); }
            TypeGroup::Shared => { v.push(T_SHARED); }
            TypeGroup::MapFdPrograms => { v.push(T_MAP_PROGRAMS); }
            TypeGroup::CtxOrNum => { v.push(T_NUM); v.push(T_CTX); }
            TypeGroup::StackOrNum => { v.push(T_NUM); v.push(T_STACK); }
            TypeGroup::Mem => { v.push(T_STACK); v.push(T_PACKET); v.push(T_SHARED); }
            TypeGroup::MemOrNum => { v.push(T_NUM); v.push(T_STACK); v.push(T_PACKET); v.push(T_SHARED); }
            TypeGroup::Pointer => { v.push(T_CTX); v.push(T_STACK); v.push(T_PACKET); v.push(T_SHARED); }
            TypeGroup::PtrOrNum => {
                v.push(T_NUM); v.push(T_CTX); v.push(T_STACK); v.push(T_PACKET); v.push(T_SHARED);
            }
            TypeGroup::StackOrPacket => { v.push(T_STACK); v.push(T_PACKET); }
            TypeGroup::SingletonPtr => { v.push(T_CTX); v.push(T_STACK); v.push(T_PACKET); }
        }
        assert(v@ =~= group_types(self));
        assert forall|t: TypeEncoding| #[trigger] v@.contains(t) <==> in_group(self, t) by {
            let s = group_types(self);
            if in_group(self, t) {
                if s[0] == t {} else if s[1] == t {} else if s[2] == t {} else if s[3] == t {} else { assert(s[4] == t); }
            }
        }
        v
    }

    /// The set of the group's types.
    pub fn to_typeset(self) -> (r: TypeSet)
        ensures forall|t: TypeEncoding| #[trigger] r.has(t) <==> in_group(self, t),
    {
        let v = self.listing();
        let r = TypeSet::of(v.as_slice());
        assert forall|t: TypeEncoding| #[trigger] r.has(t) <==> in_group(self, t) by {
            assert(v@.contains(t) <==> in_group(self, t));
        }
        r
    }

    /// Renders the group.
    pub fn to_string(self) -> (r: String)
        ensures r@ == self.text(),
    {
        let v = self.listing();
        if self.is_singleton_type() {
            v[0].to_string()
        } else {
            typeset_to_string(v.as_slice())
        }
    }
}

/// The set of the number type alone.
pub fn ts_num() -> (r: TypeSet)
    ensures forall|t: TypeEncoding| #[trigger] r.has(t) <==> t is TNum,
{
    TypeSet::singleton(T_NUM)
}

/// The set of the map types.
pub fn ts_map() -> (r: TypeSet)
    ensures forall|t: TypeEncoding| #[trigger] r.has(t) <==> (t is TMap || t is TMapPrograms),
{
    TypeSet::singleton(T_MAP).union(TypeSet::singleton(T_MAP_PROGRAMS))
}

/// The set of the pointer types.
pub fn ts_pointer() -> (r: TypeSet)
    ensures forall|t: TypeEncoding| #[trigger] r.has(t) <==> in_group(TypeGroup::Pointer, t),
{
    TypeGroup::Pointer.to_typeset()
}

/// The set of the pointer types that have one region each.
pub fn ts_singleton_ptr() -> (r: TypeSet)
    ensures forall|t: TypeEncoding| #[trigger] r.has(t) <==> in_group(TypeGroup::SingletonPtr, t),
{
    TypeGroup::SingletonPtr.to_typeset()
}

}
