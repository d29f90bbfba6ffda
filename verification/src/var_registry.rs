//! The registry of variable names.
use vstd::prelude::*;
use vstd::string::*;
use crate::arith::number;
use crate::arith::number::Number;
use crate::arith::variable::Variable;
use crate::text;
use crate::text::{push_int, same_text, text_less};
use crate::type_encoding;
use crate::type_encoding::{name_of, DataKind};

verus! {

/// What is known of a variable besides its name.
#[derive(Clone, Copy, Debug)]
pub struct VarMetadata {
    /// The kind of data, if the variable has one.
    pub kind: Option<DataKind>,
    /// Whether this is a stack cell variable.
    pub is_stack_cell: bool,
    /// Whether this is a loop counter.
    pub is_loop_counter: bool,
    /// Whether only the lower bound of the variable means anything.
    pub is_min_only: bool,
}

/// The metadata of a variable without a kind.
pub open spec fn plain_meta() -> VarMetadata {
    VarMetadata { kind: None, is_stack_cell: false, is_loop_counter: false, is_min_only: false }
}

/// The metadata of a loop counter.
pub open spec fn counter_meta() -> VarMetadata {
    VarMetadata { kind: None, is_stack_cell: false, is_loop_counter: true, is_min_only: false }
}

/// The metadata of a variable without a kind whose lower bound alone counts.
pub open spec fn size_meta() -> VarMetadata {
    VarMetadata { kind: None, is_stack_cell: false, is_loop_counter: false, is_min_only: true }
}

/// The metadata of a variable of a kind.
pub open spec fn kind_meta(kind: DataKind, is_stack_cell: bool) -> VarMetadata {
    VarMetadata {
        kind: Some(kind),
        is_stack_cell,
        is_loop_counter: false,
        is_min_only: kind is StackNumericSizes || kind is SharedRegionSizes,
    }
}

impl Default for VarMetadata {
    fn default() -> (r: Self)
        ensures r == plain_meta(),
    {
        VarMetadata { kind: None, is_stack_cell: false, is_loop_counter: false, is_min_only: false }
    }
}

/// The name `r{i}.{kind}`.
pub open spec fn reg_name(kind: DataKind, i: int) -> Seq<char> {
    "r"@ + text::dec_int(i) + "."@ + kind.label()
}

/// The name `{prefix}/r{i}.{kind}`.
pub open spec fn frame_name(kind: DataKind, i: int, prefix: Seq<char>) -> Seq<char> {
    prefix + "/"@ + reg_name(kind, i)
}

/// The name of the stack cell of `size` bytes at `offset`, an offset being read modulo two to the
/// sixty-four.
pub open spec fn cell_name(kind: DataKind, offset: Number, size: Number) -> Seq<char> {
    let o = number::wrap_unsigned(offset@, 64);
    if size@ != 1 {
        let end = number::saturate(number::saturate(o + size@) - 1);
        "s["@ + text::dec_int(o) + "..."@ + text::dec_int(end) + "]."@ + kind.label()
    } else {
        "s["@ + text::dec_int(o) + "]."@ + kind.label()
    }
}

/// The name of a loop counter.
pub open spec fn counter_name(label: Seq<char>) -> Seq<char> {
    "pc["@ + label + "]"@
}

/// The position of the last dot among the first `n` characters; -1 where there is none.
pub open spec fn last_dot(s: Seq<char>, n: nat) -> int
    decreases n,
{
    if n == 0 { -1 } else if s[n - 1] == '.' { n - 1 } else { last_dot(s, (n - 1) as nat) }
}

/// A name with its part after the last dot replaced by a kind's.
pub open spec fn rekinded(name: Seq<char>, kind: DataKind) -> Seq<char> {
    name.take(last_dot(name, name.len())) + "."@ + kind.label()
}

proof fn lemma_last_dot(s: Seq<char>, n: nat)
    requires n <= s.len(),
    ensures
        -1 <= last_dot(s, n) < n,
        last_dot(s, n) >= 0 ==> s[last_dot(s, n)] == '.',
        forall|j: int| last_dot(s, n) < j < n ==> s[j] != '.',
    decreases n,
{
    if n > 0 && s[n - 1] != '.' {
        lemma_last_dot(s, (n - 1) as nat);
    }
}

/// No kind's text holds a dot.
pub proof fn labels_have_no_dot(kind: DataKind)
    ensures
        !kind.label().contains('.'),
        kind.label().len() > 0,
{
    reveal_strlit("type");
    reveal_strlit("svalue");
    reveal_strlit("uvalue");
    reveal_strlit("ctx_offset");
    reveal_strlit("map_fd");
    reveal_strlit("map_fd_programs");
    reveal_strlit("packet_offset");
    reveal_strlit("shared_offset");
    reveal_strlit("stack_offset");
    reveal_strlit("shared_region_size");
    reveal_strlit("stack_numeric_size");
    reveal_strlit("socket_offset");
    reveal_strlit("btf_id_offset");
    reveal_strlit("alloc_mem_offset");
    reveal_strlit("alloc_mem_size");
    assert forall|i: int| 0 <= i < kind.label().len() implies kind.label()[i] != '.' by {}
}

/// Replacing the kind of a name that ends in a dot and a kind.
pub proof fn rekinding(stem: Seq<char>, from: DataKind, to: DataKind)
    ensures
        (stem + "."@ + from.label()).contains('.'),
        rekinded(stem + "."@ + from.label(), to) == stem + "."@ + to.label(),
{
    reveal_strlit(".");
    labels_have_no_dot(from);
    let s = stem + "."@ + from.label();
    assert(s[stem.len() as int] == '.');
    lemma_last_dot(s, s.len());
    let p = last_dot(s, s.len());
    if p > stem.len() {
        assert(s[p] == from.label()[p - stem.len() - 1]);
        assert(from.label().contains(s[p]));
    }
    assert(p == stem.len());
    assert(s.take(p) =~= stem);
}

/// A name with a kind ends in a dot and the kind's text.
pub open spec fn kind_fits(name: Seq<char>, meta: VarMetadata) -> bool {
    meta.kind matches Some(k) ==> name.contains('.') && rekinded(name, k) == name
}

/// Replacing the kind of a name puts the last kind at its end.
pub proof fn rekinding_twice(name: Seq<char>, kind: DataKind, last: DataKind)
    ensures
        rekinded(name, kind).contains('.'),
        rekinded(rekinded(name, kind), last) == rekinded(name, last),
{
    rekinding(name.take(last_dot(name, name.len())), kind, last);
}

/// The kind variable of a register's variable is the register's variable of that kind.
pub proof fn register_rekinding(from: DataKind, to: DataKind, i: int)
    ensures
        reg_name(from, i).contains('.'),
        rekinded(reg_name(from, i), to) == reg_name(to, i),
{
    rekinding("r"@ + text::dec_int(i), from, to);
}

/// Registers and kinds can be read off the names.
pub proof fn reg_names_differ(k: DataKind, i: int, m: DataKind, j: int)
    requires reg_name(k, i) == reg_name(m, j),
    ensures k == m, i == j,
{
    reveal_strlit("r");
    reveal_strlit(".");
    let a = reg_name(k, i);
    let b = reg_name(m, j);
    let d = text::dec_int(i);
    let e = text::dec_int(j);
    let p = d.len() as int;
    let q = e.len() as int;
    text::dec_int_injective(i, j);
    text::dec_int_injective(j, i);
    assert(a[1 + p] == '.');
    assert(b[1 + q] == '.');
    if p < q {
        assert(b[1 + p] == e[p]);
    } else if q < p {
        assert(a[1 + q] == d[q]);
    }
    assert(a.subrange(1, 1 + p) =~= d);
    assert(b.subrange(1, 1 + q) =~= e);
    assert(a.skip(2 + p) =~= k.label());
    assert(b.skip(2 + q) =~= m.label());
    type_encoding::kind_labels_differ(k, m);
}

/// The kinds of a register's variables, in the order in which they are registered.
pub open spec fn default_kind(k: int) -> DataKind {
    if k == 0 { DataKind::Svalues }
    else if k == 1 { DataKind::Uvalues }
    else if k == 2 { DataKind::CtxOffsets }
    else if k == 3 { DataKind::MapFds }
    else if k == 4 { DataKind::MapFdPrograms }
    else if k == 5 { DataKind::PacketOffsets }
    else if k == 6 { DataKind::SharedOffsets }
    else if k == 7 { DataKind::StackOffsets }
    else if k == 8 { DataKind::Types }
    else if k == 9 { DataKind::SharedRegionSizes }
    else if k == 10 { DataKind::StackNumericSizes }
    else if k == 11 { DataKind::SocketOffsets }
    else if k == 12 { DataKind::BtfIdOffsets }
    else if k == 13 { DataKind::AllocMemOffsets }
    else { DataKind::AllocMemSizes }
}

/// The place of a kind among a register's variables.
pub open spec fn default_place(kind: DataKind) -> int {
    match kind {
        DataKind::Svalues => 0,
        DataKind::Uvalues => 1,
        DataKind::CtxOffsets => 2,
        DataKind::MapFds => 3,
        DataKind::MapFdPrograms => 4,
        DataKind::PacketOffsets => 5,
        DataKind::SharedOffsets => 6,
        DataKind::StackOffsets => 7,
        DataKind::Types => 8,
        DataKind::SharedRegionSizes => 9,
        DataKind::StackNumericSizes => 10,
        DataKind::SocketOffsets => 11,
        DataKind::BtfIdOffsets => 12,
        DataKind::AllocMemOffsets => 13,
        DataKind::AllocMemSizes => 14,
    }
}

/// The variable of a register in a registry that holds the default names.
pub open spec fn reg_var(kind: DataKind, i: int) -> Variable {
    Variable { id: (15 * i + default_place(kind)) as u64 }
}

/// The name registered at a position at the start: fifteen kinds for each of twelve registers,
/// then four sizes and offsets.
pub open spec fn default_name(n: int) -> Seq<char> {
    if n < 180 { reg_name(default_kind(n % 15), n / 15) }
    else if n == 180 { "data_size"@ }
    else if n == 181 { "meta_size"@ }
    else if n == 182 { "meta_offset"@ }
    else { "packet_size"@ }
}

/// The metadata registered at a position at the start.
pub open spec fn default_meta(n: int) -> VarMetadata {
    if n < 180 { kind_meta(default_kind(n % 15), false) }
    else if n < 183 { plain_meta() }
    else { size_meta() }
}

proof fn lemma_default_names(a: int, b: int)
    requires 0 <= a < 184, 0 <= b < 184, default_name(a) == default_name(b),
    ensures a == b,
{
    reveal_strlit("r");
    reveal_strlit("data_size");
    reveal_strlit("meta_size");
    reveal_strlit("meta_offset");
    reveal_strlit("packet_size");
    assert(default_name(a)[0] == default_name(b)[0]);
    assert(default_name(a).len() == default_name(b).len());
    if a < 180 && b < 180 {
        reg_names_differ(default_kind(a % 15), a / 15, default_kind(b % 15), b / 15);
        assert(a % 15 == b % 15);
        assert(a == 15 * (a / 15) + a % 15);
        assert(b == 15 * (b / 15) + b % 15);
        assert(a == b);
    } else if a < 180 {
        assert(default_name(a)[0] == 'r');
        assert(default_name(b)[0] != 'r');
    } else if b < 180 {
        assert(default_name(b)[0] == 'r');
        assert(default_name(a)[0] != 'r');
    } else {
        assert("data_size"@[0] == 'd' && "meta_size"@[0] == 'm' && "meta_offset"@[0] == 'm' && "packet_size"@[0] == 'p');
        assert("meta_size"@.len() != "meta_offset"@.len());
    }
}

/// The names and metadata that a registry holds, by variable number.
pub struct RegistryView {
    pub names: Seq<Seq<char>>,
    pub metas: Seq<VarMetadata>,
}

impl RegistryView {
    /// The registry at the start.
    pub open spec fn initial() -> RegistryView {
        RegistryView {
            names: Seq::new(184, |i: int| default_name(i)),
            metas: Seq::new(184, |i: int| default_meta(i)),
        }
    }

    /// Whether every name stands once and has metadata, and the names of variables with a kind
    /// have a dot.
    pub open spec fn wf(self) -> bool {
        &&& self.names.len() == self.metas.len()
        &&& self.names.len() <= u64::MAX
        &&& self.names.no_duplicates()
        &&& forall|i: int| #![trigger self.metas[i]] 0 <= i < self.metas.len() ==> kind_fits(self.names[i], self.metas[i])
    }

    /// Whether the registry holds the default names under their numbers.
    pub open spec fn ready(self) -> bool {
        self.wf() && self.extends(RegistryView::initial())
    }

    /// The variables of the twelve registers are registered under fixed numbers.
    pub proof fn register_variable(self, kind: DataKind, i: int)
        requires self.ready(), 0 <= i <= 11,
        ensures
            self.has(reg_name(kind, i)),
            self.var(reg_name(kind, i)) == reg_var(kind, i),
            self.knows(reg_var(kind, i)),
            self.name(reg_var(kind, i)) == reg_name(kind, i),
            self.meta(reg_var(kind, i)) == kind_meta(kind, false),
    {
        let n = 15 * i + default_place(kind);
        assert(n % 15 == default_place(kind) && n / 15 == i);
        assert(default_name(n) == reg_name(kind, i));
        assert(RegistryView::initial().names[n] == default_name(n));
        assert(RegistryView::initial().metas[n] == default_meta(n));
        assert(self.names[n] == RegistryView::initial().names[n]);
        assert(self.metas[n] == RegistryView::initial().metas[n]);
        self.var_is_unique(reg_name(kind, i), n);
    }

    /// Finding a register's variable changes nothing.
    pub proof fn register_is_there(self, kind: DataKind, i: int, meta: VarMetadata)
        requires self.ready(), 0 <= i <= 11,
        ensures self.interned(reg_name(kind, i), meta) == self,
    {
        self.register_variable(kind, i);
    }

    /// The variables of the packet are registered under fixed numbers.
    pub proof fn packet_variables(self)
        requires self.ready(),
        ensures
            self.has("meta_offset"@) && self.var("meta_offset"@).id == 182 && self.interned("meta_offset"@, plain_meta()) == self,
            self.has("packet_size"@) && self.var("packet_size"@).id == 183 && self.interned("packet_size"@, size_meta()) == self,
            self.size() >= 184,
    {
        assert(RegistryView::initial().names[182] == default_name(182));
        assert(RegistryView::initial().names[183] == default_name(183));
        self.var_is_unique("meta_offset"@, 182);
        self.var_is_unique("packet_size"@, 183);
    }

    /// What extends a registry that holds the default names holds them too.
    pub proof fn readiness_lasts(self, older: RegistryView)
        requires self.wf(), self.extends(older), older.ready(),
        ensures self.ready(),
    {
        self.extending_is_transitive(older, RegistryView::initial());
    }

    /// The number of variables.
    pub open spec fn size(self) -> nat {
        self.names.len()
    }

    /// Whether a variable is registered.
    pub open spec fn knows(self, v: Variable) -> bool {
        v.id < self.names.len()
    }

    pub open spec fn name(self, v: Variable) -> Seq<char> {
        self.names[v.id as int]
    }

    pub open spec fn meta(self, v: Variable) -> VarMetadata {
        self.metas[v.id as int]
    }

    pub open spec fn min_only(self, v: Variable) -> bool {
        self.meta(v).is_min_only
    }

    pub open spec fn has(self, name: Seq<char>) -> bool {
        self.names.contains(name)
    }

    /// The type variables among the first `n` variables, in order.
    pub open spec fn type_variables_below(self, n: nat) -> Seq<Variable>
        decreases n,
    {
        if n == 0 {
            seq![]
        } else if self.metas[n - 1].kind == Some(DataKind::Types) {
            self.type_variables_below((n - 1) as nat).push(Variable { id: (n - 1) as u64 })
        } else {
            self.type_variables_below((n - 1) as nat)
        }
    }

    /// The type variables in order.
    pub open spec fn type_variables(self) -> Seq<Variable> {
        self.type_variables_below(self.metas.len())
    }

    /// The list of type variables holds type variables, each once, and has all of them.
    pub proof fn type_variables_exact(self, n: nat)
        requires n <= self.metas.len(), self.metas.len() <= u64::MAX,
        ensures
            forall|i: int| 0 <= i < self.type_variables_below(n).len() ==> (#[trigger] self.type_variables_below(n)[i]).id < n
                && self.metas[self.type_variables_below(n)[i].id as int].kind == Some(DataKind::Types),
            forall|i: int, j: int| 0 <= i < j < self.type_variables_below(n).len() ==>
                (#[trigger] self.type_variables_below(n)[i]).id < (#[trigger] self.type_variables_below(n)[j]).id,
            forall|v: Variable| v.id < n && #[trigger] self.meta(v).kind == Some(DataKind::Types) ==> self.type_variables_below(n).contains(v),
        decreases n,
    {
        if n > 0 {
            self.type_variables_exact((n - 1) as nat);
            let before = self.type_variables_below((n - 1) as nat);
            let now = self.type_variables_below(n);
            assert forall|v: Variable| v.id < n && #[trigger] self.meta(v).kind == Some(DataKind::Types) implies now.contains(v) by {
                if v.id < n - 1 {
                    assert(before.contains(v));
                    let k = choose|k: int| 0 <= k < before.len() && before[k] == v;
                    assert(now[k] == v);
                } else {
                    assert(now[before.len() as int] == v);
                }
            }
        }
    }

    /// The variable with a name: the registered one, or the one that registering the name gives.
    pub open spec fn var(self, name: Seq<char>) -> Variable {
        if self.has(name) {
            Variable { id: (choose|i: int| 0 <= i < self.names.len() && self.names[i] == name) as u64 }
        } else {
            Variable { id: self.names.len() as u64 }
        }
    }

    /// The registry after a name is registered: unchanged where the name is there.
    pub open spec fn interned(self, name: Seq<char>, meta: VarMetadata) -> RegistryView {
        if self.has(name) {
            self
        } else {
            RegistryView { names: self.names.push(name), metas: self.metas.push(meta) }
        }
    }

    /// Whether the registry holds all that an older one held, under the same numbers.
    pub open spec fn extends(self, older: RegistryView) -> bool {
        &&& older.names.len() <= self.names.len()
        &&& older.metas.len() <= self.metas.len()
        &&& forall|i: int| 0 <= i < older.names.len() ==> #[trigger] self.names[i] == older.names[i]
        &&& forall|i: int| 0 <= i < older.metas.len() ==> #[trigger] self.metas[i] == older.metas[i]
    }

    /// The variable with a name carries that name, and a name has one variable.
    pub proof fn var_is_unique(self, name: Seq<char>, i: int)
        requires self.wf(), 0 <= i < self.names.len(), self.names[i] == name,
        ensures self.has(name), self.var(name).id == i,
    {
        assert(self.has(name));
        let k = choose|k: int| 0 <= k < self.names.len() && self.names[k] == name;
        assert(k == i);
    }

    /// Asking for a kind of a variable again finds the same variable and changes nothing, and asking
    /// that variable for the first one's kind leads back to it.
    pub proof fn kinds_lead_back(self, t: Variable, kind: DataKind)
        requires
            self.wf(),
            self.size() < u64::MAX,
            self.knows(t),
            self.name(t).contains('.'),
        ensures
            ({
                let name = rekinded(self.name(t), kind);
                let v = self.var(name);
                let after = self.interned(name, kind_meta(kind, self.meta(t).is_stack_cell));
                &&& after.knows(t) && after.name(t) == self.name(t) && after.meta(t) == self.meta(t)
                &&& after.var(rekinded(after.name(t), kind)) == v
                &&& after.interned(name, kind_meta(kind, after.meta(t).is_stack_cell)) == after
                &&& after.name(v).contains('.')
                &&& self.meta(t).kind matches Some(own) ==> after.var(rekinded(after.name(v), own)) == t
            }),
    {
        let name = rekinded(self.name(t), kind);
        let meta = kind_meta(kind, self.meta(t).is_stack_cell);
        rekinding_twice(self.name(t), kind, kind);
        self.interning(name, meta);
        let after = self.interned(name, meta);
        assert(after.names[t.id as int] == self.names[t.id as int]);
        assert(after.metas[t.id as int] == self.metas[t.id as int]);
        if let Some(own) = self.meta(t).kind {
            rekinding_twice(self.name(t), kind, own);
            assert(kind_fits(self.names[t.id as int], self.metas[t.id as int]));
            after.var_is_unique(self.name(t), t.id as int);
        }
    }

    /// Registering a name keeps every number, and the name is then registered under the number
    /// that was returned. Registering it again changes nothing.
    pub proof fn interning(self, name: Seq<char>, meta: VarMetadata)
        requires self.wf(), self.size() < u64::MAX, kind_fits(name, meta),
        ensures
            self.interned(name, meta).wf(),
            self.interned(name, meta).extends(self),
            self.interned(name, meta).has(name),
            self.interned(name, meta).var(name) == self.var(name),
            self.interned(name, meta).knows(self.var(name)),
            self.interned(name, meta).name(self.var(name)) == name,
            !self.has(name) ==> self.interned(name, meta).meta(self.var(name)) == meta,
            forall|again: VarMetadata| #[trigger] self.interned(name, meta).interned(name, again) == self.interned(name, meta),
    {
        let after = self.interned(name, meta);
        if self.has(name) {
            let k = choose|k: int| 0 <= k < self.names.len() && self.names[k] == name;
            assert(self.names[k] == name);
        } else {
            let n = self.names.len() as int;
            assert(after.names[n] == name);
            assert forall|i: int, j: int| 0 <= i < after.names.len() && 0 <= j < after.names.len() && i != j implies
                after.names[i] != after.names[j] by {
                if i == n { assert(self.names.contains(self.names[j])); }
                if j == n { assert(self.names.contains(self.names[i])); }
            }
            assert forall|i: int| #![trigger after.metas[i]] 0 <= i < after.metas.len() implies kind_fits(after.names[i], after.metas[i]) by {
                if i < n { assert(after.metas[i] == self.metas[i]); }
            }
            after.var_is_unique(name, n);
        }
    }

    /// A registered name keeps its variable in every extension.
    pub proof fn names_are_stable(self, older: RegistryView, name: Seq<char>)
        requires self.wf(), older.wf(), self.extends(older), older.has(name),
        ensures
            self.has(name),
            self.var(name) == older.var(name),
            self.knows(older.var(name)),
            self.meta(older.var(name)) == older.meta(older.var(name)),
            self.name(older.var(name)) == name,
    {
        let k = choose|k: int| 0 <= k < older.names.len() && older.names[k] == name;
        older.var_is_unique(name, k);
        assert(self.names[k] == older.names[k]);
        self.var_is_unique(name, k);
    }

    /// Extending twice is extending.
    pub proof fn extending_is_transitive(self, mid: RegistryView, older: RegistryView)
        requires self.extends(mid), mid.extends(older),
        ensures self.extends(older),
    {
        assert forall|i: int| 0 <= i < older.names.len() implies #[trigger] self.names[i] == older.names[i] by {
            assert(mid.names[i] == older.names[i]);
        }
        assert forall|i: int| 0 <= i < older.metas.len() implies #[trigger] self.metas[i] == older.metas[i] by {
            assert(mid.metas[i] == older.metas[i]);
        }
    }

    /// At the start every register's variable is registered, under distinct numbers.
    pub proof fn initial_names(n: int)
        requires 0 <= n < 184,
        ensures
            RegistryView::initial().wf(),
            RegistryView::initial().has(default_name(n)),
            RegistryView::initial().var(default_name(n)).id == n,
    {
        let v = RegistryView::initial();
        assert forall|i: int, j: int| 0 <= i < v.names.len() && 0 <= j < v.names.len() && i != j implies
            v.names[i] != v.names[j] by {
            if v.names[i] == v.names[j] {
                lemma_default_names(i, j);
            }
        }
        assert forall|i: int| #![trigger v.metas[i]] 0 <= i < v.metas.len() implies kind_fits(v.names[i], v.metas[i]) by {
            register_rekinding(default_kind(i % 15), default_kind(i % 15), i / 15);
            assert(v.names[i] == default_name(i));
        }
        assert(v.names[n] == default_name(n));
        v.var_is_unique(default_name(n), n);
    }
}

/// A registry that maps names to variables.
///
/// It starts with the 184 names that are derived from the registers; further names are added on
/// demand.
pub struct VariableRegistry {
    names: Vec<String>,
    metadata: Vec<VarMetadata>,
}

impl View for VariableRegistry {
    type V = RegistryView;

    closed spec fn view(&self) -> RegistryView {
        RegistryView {
            names: self.names@.map_values(|s: String| s@),
            metas: self.metadata@,
        }
    }
}

fn kind_at(k: usize) -> (r: DataKind)
    ensures r == default_kind(k as int),
{
    if k == 0 { DataKind::Svalues }
    else if k == 1 { DataKind::Uvalues }
    else if k == 2 { DataKind::CtxOffsets }
    else if k == 3 { DataKind::MapFds }
    else if k == 4 { DataKind::MapFdPrograms }
    else if k == 5 { DataKind::PacketOffsets }
    else if k == 6 { DataKind::SharedOffsets }
    else if k == 7 { DataKind::StackOffsets }
    else if k == 8 { DataKind::Types }
    else if k == 9 { DataKind::SharedRegionSizes }
    else if k == 10 { DataKind::StackNumericSizes }
    else if k == 11 { DataKind::SocketOffsets }
    else if k == 12 { DataKind::BtfIdOffsets }
    else if k == 13 { DataKind::AllocMemOffsets }
    else { DataKind::AllocMemSizes }
}

fn reg_text(kind: DataKind, i: i32) -> (r: String)
    ensures r@ == reg_name(kind, i as int),
{
    let mut s = String::from_str("r");
    push_int(&mut s, i as i128);
    s.append(".");
    s.append(name_of(kind));
    s
}

impl VariableRegistry {
    #[verifier::type_invariant]
    spec fn inv(&self) -> bool {
        self@.wf()
    }

    /// Every name stands once and has metadata, and names with a kind have a dot.
    pub fn names_are_distinct(&self)
        ensures self@.wf(),
    {
        proof { use_type_invariant(self); }
    }

    /// A registry with the default names.
    pub fn new() -> (r: Self)
        ensures r@ == RegistryView::initial(),
    {
        let mut names: Vec<String> = Vec::new();
        let mut metadata: Vec<VarMetadata> = Vec::new();
        let mut n: usize = 0;
        while n < 180
            invariant
                n <= 180,
                names.len() == n,
                metadata.len() == n,
                forall|j: int| 0 <= j < n ==> (#[trigger] names@[j])@ == default_name(j),
                forall|j: int| 0 <= j < n ==> #[trigger] metadata@[j] == default_meta(j),
            decreases 180 - n,
        {
            let kind = kind_at(n % 15);
            names.push(reg_text(kind, (n / 15) as i32));
            metadata.push(VariableRegistry::meta_for_kind(kind, false));
            n = n + 1;
        }
        names.push(String::from_str("data_size"));
        metadata.push(VarMetadata::default());
        names.push(String::from_str("meta_size"));
        metadata.push(VarMetadata::default());
        names.push(String::from_str("meta_offset"));
        metadata.push(VarMetadata::default());
        names.push(String::from_str("packet_size"));
        metadata.push(VarMetadata { kind: None, is_stack_cell: false, is_loop_counter: false, is_min_only: true });
        proof {
            RegistryView::initial_names(0);
            assert(names@.map_values(|s: String| s@) =~= RegistryView::initial().names);
            assert(metadata@ =~= RegistryView::initial().metas);
        }
        VariableRegistry { names, metadata }
    }

    /// The names in the order of the variables' numbers.
    pub fn names(&self) -> (r: &Vec<String>)
        ensures
            r@.len() == self@.size(),
            forall|i: int| 0 <= i < r@.len() ==> (#[trigger] r@[i])@ == self@.names[i],
    {
        &self.names
    }

    /// The metadata in the order of the variables' numbers.
    pub fn metadata(&self) -> (r: &Vec<VarMetadata>)
        ensures r@ == self@.metas,
    {
        &self.metadata
    }

    fn find(&self, name: &str) -> (r: Option<u64>)
        ensures
            match r {
                Some(i) => self@.has(name@) && i == self@.var(name@).id && i < self@.size(),
                None => !self@.has(name@),
            },
    {
        proof { use_type_invariant(self); }
        let mut i: usize = 0;
        while i < self.names.len()
            invariant
                i <= self.names@.len(),
                self@.wf(),
                forall|j: int| 0 <= j < i ==> #[trigger] self@.names[j] != name@,
            decreases self.names@.len() - i,
        {
            if same_text(self.names[i].as_str(), name) {
                proof { self@.var_is_unique(name@, i as int); }
                return Some(i as u64);
            }
            assert(self@.names[i as int] == self.names@[i as int]@);
            i = i + 1;
        }
        None
    }

    /// Registers a name with its metadata: finds it, or adds it.
    fn register(&mut self, name: &str, meta: VarMetadata) -> (r: Variable)
        requires kind_fits(name@, meta),
        ensures
            final(self)@ == old(self)@.interned(name@, meta),
            r == old(self)@.var(name@),
            final(self)@.wf(),
            final(self)@.extends(old(self)@),
            final(self)@.knows(r),
    {
        proof { use_type_invariant(&*self); }
        match self.find(name) {
            Some(id) => Variable::new(id),
            None => {
                let id: usize = self.names.len();
                let ghost before = self@;
                let mut spare = VariableRegistry { names: Vec::new(), metadata: Vec::new() };
                std::mem::swap(self, &mut spare);
                let VariableRegistry { names: mut names, metadata: mut metadata } = spare;
                names.push(String::from_str(name));
                metadata.push(meta);
                let grown: usize = names.len();
                proof {
                    assert(grown == id + 1);
                    before.interning(name@, meta);
                }
                assert(names@.map_values(|s: String| s@) =~= before.names.push(name@));
                assert(metadata@ =~= before.metas.push(meta));
                *self = VariableRegistry { names, metadata };
                Variable::new(id as u64)
            }
        }
    }

    /// Registers a name without particular metadata.
    pub fn make(&mut self, name: &str) -> (r: Variable)
        ensures
            final(self)@ == old(self)@.interned(name@, plain_meta()),
            r == old(self)@.var(name@),
            final(self)@.wf(),
            final(self)@.extends(old(self)@),
            final(self)@.knows(r),
    {
        self.register(name, VarMetadata::default())
    }

    /// The name of a variable.
    pub fn name(&self, v: Variable) -> (r: &str)
        requires self@.knows(v),
        ensures r@ == self@.name(v),
    {
        assert(v.id < self.names.len());
        self.names[v.id as usize].as_str()
    }

    /// The variable of a registered name.
    pub fn get(&self, name: &str) -> (r: Variable)
        requires self@.has(name@),
        ensures r == self@.var(name@), self@.knows(r),
    {
        Variable::new(self.find(name).unwrap())
    }

    /// The variable `r{i}.{kind}`, which must be registered.
    pub fn reg_ref(&self, kind: DataKind, i: i32) -> (r: Variable)
        requires self@.has(reg_name(kind, i as int)),
        ensures r == self@.var(reg_name(kind, i as int)), self@.knows(r),
    {
        let name = reg_text(kind, i);
        self.get(name.as_str())
    }

    fn meta_for_kind(kind: DataKind, is_stack_cell: bool) -> (r: VarMetadata)
        ensures r == kind_meta(kind, is_stack_cell),
    {
        VarMetadata {
            kind: Some(kind),
            is_stack_cell,
            is_loop_counter: false,
            is_min_only: matches!(kind, DataKind::StackNumericSizes | DataKind::SharedRegionSizes),
        }
    }

    /// Finds or adds the variable `r{i}.{kind}`.
    pub fn reg(&mut self, kind: DataKind, i: i32) -> (r: Variable)
        ensures
            final(self)@ == old(self)@.interned(reg_name(kind, i as int), kind_meta(kind, false)),
            r == old(self)@.var(reg_name(kind, i as int)),
            final(self)@.wf(),
            final(self)@.extends(old(self)@),
            final(self)@.knows(r),
    {
        let name = reg_text(kind, i);
        proof { register_rekinding(kind, kind, i as int); }
        self.register(name.as_str(), Self::meta_for_kind(kind, false))
    }

    /// Finds or adds the variable `r{i}.type`.
    pub fn type_reg(&mut self, i: i32) -> (r: Variable)
        ensures
            final(self)@ == old(self)@.interned(reg_name(DataKind::Types, i as int), kind_meta(DataKind::Types, false)),
            r == old(self)@.var(reg_name(DataKind::Types, i as int)),
            final(self)@.wf(),
            final(self)@.extends(old(self)@),
            final(self)@.knows(r),
    {
        self.reg(DataKind::Types, i)
    }

    /// Finds or adds the variable `{prefix}/r{i}.{kind}`.
    pub fn stack_frame_var(&mut self, kind: DataKind, i: i32, prefix: &str) -> (r: Variable)
        ensures
            final(self)@ == old(self)@.interned(frame_name(kind, i as int, prefix@), kind_meta(kind, false)),
            r == old(self)@.var(frame_name(kind, i as int, prefix@)),
            final(self)@.wf(),
            final(self)@.extends(old(self)@),
            final(self)@.knows(r),
    {
        let mut name = String::from_str(prefix);
        name.append("/");
        let tail = reg_text(kind, i);
        name.append(tail.as_str());
        proof {
            let stem = prefix@ + "/"@ + "r"@ + text::dec_int(i as int);
            rekinding(stem, kind, kind);
            assert(name@ =~= stem + "."@ + kind.label());
        }
        self.register(name.as_str(), Self::meta_for_kind(kind, false))
    }

    /// Finds or adds the variable of a stack cell: `s[{offset}...{end}].{kind}`, or
    /// `s[{offset}].{kind}` for a cell of one byte.
    pub fn cell_var(&mut self, array: DataKind, offset: &Number, size: &Number) -> (r: Variable)
        ensures
            final(self)@ == old(self)@.interned(cell_name(array, *offset, *size), kind_meta(array, true)),
            r == old(self)@.var(cell_name(array, *offset, *size)),
            final(self)@.wf(),
            final(self)@.extends(old(self)@),
            final(self)@.knows(r),
    {
        let o: Number = offset.cast_to_unsigned_width(64);
        let mut name = String::from_str("s[");
        push_int(&mut name, o.n);
        if size.n != 1 {
            let end: Number = o.add(*size).sub(Number::of(1));
            name.append("...");
            push_int(&mut name, end.n);
        }
        let ghost stem = name@;
        name.append("].");
        name.append(name_of(array));
        proof {
            reveal_strlit("].");
            reveal_strlit("]");
            reveal_strlit(".");
            rekinding(stem + "]"@, array, array);
            assert(name@ =~= stem + "]"@ + "."@ + array.label());
        }
        self.register(name.as_str(), Self::meta_for_kind(array, true))
    }

    /// Finds or adds the variable of a stack cell, by integers.
    pub fn cell_var_int(&mut self, kind: DataKind, offset: u64, size: u32) -> (r: Variable)
        ensures
            final(self)@ == old(self)@.interned(
                cell_name(kind, Number { n: offset as i64 as i128 }, Number { n: size as i128 }), kind_meta(kind, true)),
            r == old(self)@.var(cell_name(kind, Number { n: offset as i64 as i128 }, Number { n: size as i128 })),
            final(self)@.wf(),
            final(self)@.extends(old(self)@),
            final(self)@.knows(r),
    {
        let o = Number { n: offset as i64 as i128 };
        let s = Number { n: size as i128 };
        self.cell_var(kind, &o, &s)
    }

    /// Finds or adds the variable `r{i}.map_fd_programs`.
    pub fn map_fd_programs_reg(&mut self, i: i32) -> (r: Variable)
        ensures
            final(self)@ == old(self)@.interned(reg_name(DataKind::MapFdPrograms, i as int), kind_meta(DataKind::MapFdPrograms, false)),
            r == old(self)@.var(reg_name(DataKind::MapFdPrograms, i as int)),
            final(self)@.wf(),
            final(self)@.extends(old(self)@),
            final(self)@.knows(r),
    {
        self.reg(DataKind::MapFdPrograms, i)
    }

    /// Whether all variables of a list are registered.
    pub fn knows_all(&self, vars: &Vec<Variable>) -> (r: bool)
        ensures r == (forall|i: int| 0 <= i < vars.len() ==> self@.knows(#[trigger] vars@[i])),
    {
        let mut i: usize = 0;
        while i < vars.len()
            invariant
                i <= vars.len(),
                forall|j: int| 0 <= j < i ==> self@.knows(#[trigger] vars@[j]),
            decreases vars.len() - i,
        {
            if vars[i].id >= self.names.len() as u64 {
                assert(!self@.knows(vars@[i as int]));
                return false;
            }
            i = i + 1;
        }
        true
    }

    /// Finds or adds the variable of another kind that belongs to a variable: the part of the name
    /// after the last dot is replaced.
    pub fn kind_var(&mut self, kind: DataKind, type_variable: Variable) -> (r: Variable)
        requires
            old(self)@.knows(type_variable),
            old(self)@.name(type_variable).contains('.'),
        ensures
            final(self)@ == old(self)@.interned(
                rekinded(old(self)@.name(type_variable), kind),
                kind_meta(kind, old(self)@.meta(type_variable).is_stack_cell)),
            r == old(self)@.var(rekinded(old(self)@.name(type_variable), kind)),
            final(self)@.wf(),
            final(self)@.extends(old(self)@),
            final(self)@.knows(r),
    {
        assert(type_variable.id < self.names.len());
        proof { use_type_invariant(&*self); }
        assert(type_variable.id < self.metadata.len());
        let is_stack: bool = self.metadata[type_variable.id as usize].is_stack_cell;
        let var_name = self.name(type_variable);
        let mut p: usize = var_name.unicode_len();
        let ghost whole = var_name@;
        proof {
            lemma_last_dot(whole, whole.len());
            let k = choose|k: int| 0 <= k < whole.len() && whole[k] == '.';
            assert(whole[k] == '.');
        }
        while var_name.get_char(p - 1) != '.'
            invariant
                whole == var_name@,
                0 < p <= whole.len(),
                last_dot(whole, p as nat) == last_dot(whole, whole.len()),
                last_dot(whole, whole.len()) >= 0,
            decreases p,
        {
            proof { lemma_last_dot(whole, (p - 1) as nat); }
            p = p - 1;
        }
        let mut name = String::from_str(var_name.substring_char(0, p - 1));
        name.append(".");
        name.append(name_of(kind));
        assert(name@ =~= rekinded(whole, kind));
        proof {
            rekinding_twice(whole, kind, kind);
        }
        self.register(name.as_str(), Self::meta_for_kind(kind, is_stack))
    }

    /// The variable `meta_offset`.
    pub fn meta_offset(&mut self) -> (r: Variable)
        ensures
            final(self)@ == old(self)@.interned("meta_offset"@, plain_meta()),
            r == old(self)@.var("meta_offset"@),
            final(self)@.wf(),
            final(self)@.extends(old(self)@),
            final(self)@.knows(r),
    {
        self.make("meta_offset")
    }

    /// The variable `packet_size`.
    pub fn packet_size(&mut self) -> (r: Variable)
        ensures
            final(self)@ == old(self)@.interned("packet_size"@, size_meta()),
            r == old(self)@.var("packet_size"@),
            final(self)@.wf(),
            final(self)@.extends(old(self)@),
            final(self)@.knows(r),
    {
        self.register("packet_size", VarMetadata { kind: None, is_stack_cell: false, is_loop_counter: false, is_min_only: true })
    }

    /// Finds or adds the iteration counter of a label.
    pub fn loop_counter(&mut self, label: &str) -> (r: Variable)
        ensures
            final(self)@ == old(self)@.interned(counter_name(label@), counter_meta()),
            r == old(self)@.var(counter_name(label@)),
            final(self)@.wf(),
            final(self)@.extends(old(self)@),
            final(self)@.knows(r),
    {
        let mut name = String::from_str("pc[");
        name.append(label);
        name.append("]");
        self.register(name.as_str(), VarMetadata { kind: None, is_stack_cell: false, is_loop_counter: true, is_min_only: false })
    }

    fn meta_of(&self, v: Variable) -> (r: VarMetadata)
        requires self@.knows(v),
        ensures r == self@.meta(v),
    {
        proof { use_type_invariant(self); }
        assert(v.id < self.metadata.len());
        self.metadata[v.id as usize]
    }

    /// Whether the variable is a type.
    pub fn is_type(&self, v: Variable) -> (r: bool)
        requires self@.knows(v),
        ensures r == (self@.meta(v).kind == Some(DataKind::Types)),
    {
        matches!(self.meta_of(v).kind, Some(DataKind::Types))
    }

    /// Whether the variable is an unsigned value.
    pub fn is_unsigned(&self, v: Variable) -> (r: bool)
        requires self@.knows(v),
        ensures r == (self@.meta(v).kind == Some(DataKind::Uvalues)),
    {
        matches!(self.meta_of(v).kind, Some(DataKind::Uvalues))
    }

    /// Whether the variable is a stack cell.
    pub fn is_in_stack(&self, v: Variable) -> (r: bool)
        requires self@.knows(v),
        ensures r == self@.meta(v).is_stack_cell,
    {
        self.meta_of(v).is_stack_cell
    }

    /// Whether only the lower bound of the variable means anything.
    pub fn is_min_only(&self, v: Variable) -> (r: bool)
        requires self@.knows(v),
        ensures r == self@.min_only(v),
    {
        self.meta_of(v).is_min_only
    }

    /// Lists the type variables by increasing number.
    pub fn get_type_variables(&self) -> (r: Vec<Variable>)
        ensures
            r@ == self@.type_variables(),
            forall|i: int| 0 <= i < r.len() ==> self@.knows(#[trigger] r@[i]) && self@.meta(r@[i]).kind == Some(DataKind::Types),
            forall|v: Variable| self@.knows(v) && #[trigger] self@.meta(v).kind == Some(DataKind::Types) ==> r@.contains(v),
            forall|i: int, j: int| 0 <= i < j < r.len() ==> (#[trigger] r@[i]).id < (#[trigger] r@[j]).id,
    {
        proof { use_type_invariant(self); }
        let mut r: Vec<Variable> = Vec::new();
        let mut n: usize = 0;
        while n < self.metadata.len()
            invariant
                n <= self.metadata@.len(),
                self@.wf(),
                r@ == self@.type_variables_below(n as nat),
            decreases self.metadata@.len() - n,
        {
            if matches!(self.metadata[n].kind, Some(DataKind::Types)) {
                r.push(Variable::new(n as u64));
            }
            n = n + 1;
        }
        proof { self@.type_variables_exact(self@.metas.len()); }
        r
    }

    /// Lists the loop counters by increasing number.
    pub fn get_loop_counters(&self) -> (r: Vec<Variable>)
        ensures
            forall|i: int| 0 <= i < r.len() ==> self@.knows(#[trigger] r@[i]) && self@.meta(r@[i]).is_loop_counter,
            forall|v: Variable| self@.knows(v) && #[trigger] self@.meta(v).is_loop_counter ==> r@.contains(v),
            forall|i: int, j: int| 0 <= i < j < r.len() ==> (#[trigger] r@[i]).id < (#[trigger] r@[j]).id,
    {
        proof { use_type_invariant(self); }
        let mut r: Vec<Variable> = Vec::new();
        let mut n: usize = 0;
        while n < self.metadata.len()
            invariant
                n <= self.metadata@.len(),
                self@.wf(),
                forall|i: int| 0 <= i < r.len() ==> (#[trigger] r@[i]).id < n,
                forall|i: int| 0 <= i < r.len() ==> self@.knows(#[trigger] r@[i]) && self@.meta(r@[i]).is_loop_counter,
                forall|v: Variable| v.id < n && #[trigger] self@.meta(v).is_loop_counter ==> r@.contains(v),
                forall|i: int, j: int| 0 <= i < j < r.len() ==> (#[trigger] r@[i]).id < (#[trigger] r@[j]).id,
            decreases self.metadata@.len() - n,
        {
            let ghost before = r@;
            let v = Variable::new(n as u64);
            if self.metadata[n].is_loop_counter {
                r.push(v);
            }
            assert forall|u: Variable| u.id < n + 1 && #[trigger] self@.meta(u).is_loop_counter implies r@.contains(u) by {
                if u.id < n {
                    assert(before.contains(u));
                    let k = choose|k: int| 0 <= k < before.len() && before[k] == u;
                    assert(r@[k] == u);
                } else {
                    assert(u == v);
                    assert(r@[before.len() as int] == v);
                }
            }
            n = n + 1;
        }
        r
    }

    /// Whether one variable's name precedes another's.
    pub fn name_precedes(&self, a: Variable, b: Variable) -> (r: bool)
        requires self@.knows(a), self@.knows(b),
        ensures r == text::text_lt(self@.name(a), self@.name(b)),
    {
        text_less(self.name(a), self.name(b))
    }

    /// Orders two variables by their names, for printing.
    pub fn printing_order(&self, a: Variable, b: Variable) -> (r: std::cmp::Ordering)
        requires self@.knows(a), self@.knows(b),
        ensures
            r == (if text::text_lt(self@.name(a), self@.name(b)) {
                std::cmp::Ordering::Less
            } else if text::text_lt(self@.name(b), self@.name(a)) {
                std::cmp::Ordering::Greater
            } else {
                std::cmp::Ordering::Equal
            }),
            r == std::cmp::Ordering::Equal <==> self@.name(a) == self@.name(b),
    {
        proof { text::text_lt_total(self@.name(a), self@.name(b)); }
        if text_less(self.name(a), self.name(b)) {
            std::cmp::Ordering::Less
        } else if text_less(self.name(b), self.name(a)) {
            std::cmp::Ordering::Greater
        } else {
            std::cmp::Ordering::Equal
        }
    }
}

impl Default for VariableRegistry {
    fn default() -> (r: Self)
        ensures r@ == RegistryView::initial(),
    {
        Self::new()
    }
}

}
