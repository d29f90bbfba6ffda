//! Invariants as sets of text lines.
use vstd::prelude::*;
use vstd::string::*;
use crate::text;
use crate::text::{same_text, text_less};

verus! {

/// The text form of an unreachable state.
pub const BOTTOM_LINE: &'static str = "_|_";

/// Whether the lines increase strictly.
pub open spec fn sorted_lines(s: Seq<Seq<char>>) -> bool {
    forall|i: int, j: int| #![trigger s[i], s[j]] 0 <= i < j < s.len() ==> text::text_lt(s[i], s[j])
}

/// A set of text lines, kept in increasing order.
pub struct LineSet {
    lines: Vec<String>,
}

impl LineSet {
    /// The lines in increasing order.
    pub closed spec fn lines(&self) -> Seq<Seq<char>> {
        self.lines@.map_values(|s: String| s@)
    }

    /// Whether a line belongs to the set.
    pub open spec fn has(&self, line: Seq<char>) -> bool {
        self.lines().contains(line)
    }

    #[verifier::type_invariant]
    spec fn inv(&self) -> bool {
        sorted_lines(self.lines())
    }

    /// The lines stand in strictly increasing order, so no line stands twice.
    pub fn order_is_strict(&self)
        ensures sorted_lines(self.lines()),
    {
        proof { use_type_invariant(self); }
    }

    /// The empty set.
    pub fn new() -> (r: LineSet)
        ensures r.lines() == Seq::<Seq<char>>::empty(),
    {
        let lines: Vec<String> = Vec::new();
        assert(lines@.map_values(|s: String| s@) =~= Seq::<Seq<char>>::empty());
        LineSet { lines }
    }

    /// The number of lines.
    pub fn len(&self) -> (r: usize)
        ensures r == self.lines().len(),
    {
        self.lines.len()
    }

    /// Whether there is no line.
    pub fn is_empty(&self) -> (r: bool)
        ensures r == (self.lines().len() == 0),
    {
        self.lines.len() == 0
    }

    /// The line at a position of the order.
    pub fn line(&self, i: usize) -> (r: &str)
        requires i < self.lines().len(),
        ensures r@ == self.lines()[i as int],
    {
        self.lines[i].as_str()
    }

    /// The position of the first line that does not precede `item`.
    fn place(&self, item: &str) -> (p: usize)
        ensures
            p <= self.lines().len(),
            forall|j: int| 0 <= j < p ==> text::text_lt(#[trigger] self.lines()[j], item@),
            p < self.lines().len() ==> !text::text_lt(self.lines()[p as int], item@),
    {
        let mut p: usize = 0;
        while p < self.lines.len() && text_less(self.lines[p].as_str(), item)
            invariant
                p <= self.lines@.len(),
                forall|j: int| 0 <= j < p ==> text::text_lt(#[trigger] self.lines()[j], item@),
            decreases self.lines@.len() - p,
        {
            p = p + 1;
        }
        p
    }

    /// Whether a line belongs to the set.
    pub fn contains(&self, item: &str) -> (r: bool)
        ensures r == self.has(item@),
    {
        proof { use_type_invariant(self); }
        let p: usize = self.place(item);
        proof {
            if self.has(item@) {
                let k = choose|k: int| 0 <= k < self.lines().len() && self.lines()[k] == item@;
                text::text_lt_total(self.lines()[k], item@);
                if p < k {
                    assert(text::text_lt(self.lines()[p as int], self.lines()[k]));
                }
            }
        }
        if p < self.lines.len() && same_text(self.lines[p].as_str(), item) {
            assert(self.lines()[p as int] == item@);
            true
        } else {
            false
        }
    }

    /// Adds a line, and tells whether it is new.
    pub fn insert(&mut self, item: String) -> (r: bool)
        ensures
            r == !old(self).has(item@),
            forall|l: Seq<char>| #[trigger] final(self).has(l) <==> old(self).has(l) || l == item@,
            final(self).lines().len() == old(self).lines().len() + (if r { 1int } else { 0 }),
    {
        proof { use_type_invariant(&*self); }
        if self.contains(item.as_str()) {
            return false;
        }
        let p: usize = self.place(item.as_str());
        let ghost before = self.lines();
        let ghost text = item@;
        let mut work: Vec<String> = Vec::new();
        let mut spare = LineSet::new();
        std::mem::swap(self, &mut spare);
        let LineSet { lines: taken } = spare;
        work = taken;
        work.insert(p, item);
        proof {
            let after = work@.map_values(|s: String| s@);
            assert(after =~= before.insert(p as int, text));
            assert forall|i: int, j: int| #![trigger after[i], after[j]] 0 <= i < j < after.len() implies
                text::text_lt(after[i], after[j]) by {
                if j == p {
                    assert(after[i] == before[i]);
                } else if i == p {
                    assert(after[j] == before[j - 1]);
                    assert(before.contains(before[p as int]));
                    text::text_lt_total(before[p as int], text);
                    if j - 1 > p {
                        assert(text::text_lt(before[p as int], before[j - 1]));
                        text::text_lt_transitive(text, before[p as int], before[j - 1]);
                    }
                } else {
                    let a = if i < p { i } else { i - 1 };
                    let b = if j < p { j } else { j - 1 };
                    assert(text::text_lt(before[a], before[b]));
                }
            }
            assert forall|l: Seq<char>| #[trigger] after.contains(l) <==> before.contains(l) || l == text by {
                if before.contains(l) {
                    let k = choose|k: int| 0 <= k < before.len() && before[k] == l;
                    assert(after[if k < p { k } else { k + 1 }] == l);
                }
                if l == text {
                    assert(after[p as int] == l);
                }
                if after.contains(l) {
                    let k = choose|k: int| 0 <= k < after.len() && after[k] == l;
                    if k < p {
                        assert(before[k] == l);
                    } else if k > p {
                        assert(before[k - 1] == l);
                    }
                }
            }
        }
        *self = LineSet { lines: work };
        true
    }

    /// The lines of both sets.
    pub fn union(&self, other: &LineSet) -> (r: LineSet)
        ensures forall|l: Seq<char>| #[trigger] r.has(l) <==> self.has(l) || other.has(l),
    {
        let mut r = self.copy();
        let mut i: usize = 0;
        while i < other.lines.len()
            invariant
                i <= other.lines().len(),
                other.lines().len() == other.lines@.len(),
                forall|l: Seq<char>| #[trigger] r.has(l) <==> self.has(l) || other.lines().take(i as int).contains(l),
            decreases other.lines@.len() - i,
        {
            let ghost before = r;
            r.insert(other.lines[i].clone());
            proof {
                let a = other.lines().take(i as int);
                let b = other.lines().take(i + 1);
                assert(b =~= a.push(other.lines()[i as int]));
                assert forall|l: Seq<char>| #[trigger] r.has(l) <==> self.has(l) || b.contains(l) by {
                    assert(before.has(l) <==> self.has(l) || a.contains(l));
                    if a.contains(l) {
                        let k = choose|k: int| 0 <= k < a.len() && a[k] == l;
                        assert(b[k] == l);
                    }
                    if l == other.lines()[i as int] {
                        assert(b[i as int] == l);
                    }
                }
            }
            i = i + 1;
        }
        assert(other.lines().take(other.lines().len() as int) =~= other.lines());
        r
    }

    /// The lines that `other` does not hold.
    pub fn difference(&self, other: &LineSet) -> (r: LineSet)
        ensures forall|l: Seq<char>| #[trigger] r.has(l) <==> self.has(l) && !other.has(l),
    {
        let mut r = LineSet::new();
        let mut i: usize = 0;
        while i < self.lines.len()
            invariant
                i <= self.lines().len(),
                self.lines().len() == self.lines@.len(),
                forall|l: Seq<char>| #[trigger] r.has(l) <==> self.lines().take(i as int).contains(l) && !other.has(l),
            decreases self.lines@.len() - i,
        {
            let ghost before = r;
            if !other.contains(self.lines[i].as_str()) {
                r.insert(self.lines[i].clone());
            }
            proof {
                let a = self.lines().take(i as int);
                let b = self.lines().take(i + 1);
                assert(b =~= a.push(self.lines()[i as int]));
                assert forall|l: Seq<char>| #[trigger] r.has(l) <==> b.contains(l) && !other.has(l) by {
                    assert(before.has(l) <==> a.contains(l) && !other.has(l));
                    if a.contains(l) {
                        let k = choose|k: int| 0 <= k < a.len() && a[k] == l;
                        assert(b[k] == l);
                    }
                    if l == self.lines()[i as int] {
                        assert(b[i as int] == l);
                    }
                }
            }
            i = i + 1;
        }
        assert(self.lines().take(self.lines().len() as int) =~= self.lines());
        r
    }

    /// A copy of the set.
    pub fn copy(&self) -> (r: LineSet)
        ensures r.lines() == self.lines(),
    {
        proof { use_type_invariant(self); }
        let mut lines: Vec<String> = Vec::new();
        let mut i: usize = 0;
        while i < self.lines.len()
            invariant
                i <= self.lines@.len(),
                lines.len() == i,
                forall|j: int| 0 <= j < i ==> (#[trigger] lines@[j])@ == self.lines@[j]@,
            decreases self.lines@.len() - i,
        {
            lines.push(self.lines[i].clone());
            i = i + 1;
        }
        assert(lines@.map_values(|s: String| s@) =~= self.lines());
        LineSet { lines }
    }

    /// Whether both sets hold the same lines.
    pub fn same(&self, other: &LineSet) -> (r: bool)
        ensures
            r == (self.lines() == other.lines()),
            r <==> forall|l: Seq<char>| #[trigger] self.has(l) <==> other.has(l),
    {
        proof { use_type_invariant(self); use_type_invariant(other); }
        let mut eq = self.lines.len() == other.lines.len();
        let mut i: usize = 0;
        while eq && i < self.lines.len()
            invariant
                i <= self.lines@.len(),
                eq ==> self.lines@.len() == other.lines@.len(),
                eq ==> forall|j: int| 0 <= j < i ==> (#[trigger] self.lines()[j]) == other.lines()[j],
                !eq ==> self.lines() != other.lines(),
            decreases self.lines@.len() - i,
        {
            if !same_text(self.lines[i].as_str(), other.lines[i].as_str()) {
                assert(self.lines()[i as int] != other.lines()[i as int]);
                eq = false;
            }
            i = i + 1;
        }
        proof {
            if eq {
                assert(self.lines() =~= other.lines());
            }
            if forall|l: Seq<char>| #[trigger] self.has(l) <==> other.has(l) {
                assert forall|l: Seq<char>| #[trigger] self.lines().contains(l) <==> other.lines().contains(l) by {
                    assert(self.has(l) <==> other.has(l));
                }
                same_lines(self.lines(), other.lines());
            }
        }
        eq
    }
}

/// Two strictly increasing lists with the same members are the same list.
pub proof fn same_lines(a: Seq<Seq<char>>, b: Seq<Seq<char>>)
    requires
        sorted_lines(a),
        sorted_lines(b),
        forall|l: Seq<char>| #[trigger] a.contains(l) <==> b.contains(l),
    ensures a == b,
    decreases a.len(),
{
    if a.len() == 0 {
        if b.len() > 0 {
            assert(b.contains(b[0]));
            assert(a.contains(b[0]));
        }
        assert(a =~= b);
    } else {
        assert(a.contains(a.last()));
        assert(b.contains(a.last()));
        let j = choose|j: int| 0 <= j < b.len() && b[j] == a.last();
        assert(b.contains(b.last()));
        assert(a.contains(b.last()));
        let i = choose|i: int| 0 <= i < a.len() && a[i] == b.last();
        if a.last() != b.last() {
            assert(text::text_lt(a[i], a[a.len() - 1]));
            assert(text::text_lt(b[j], b[b.len() - 1]));
            text::text_lt_total(a.last(), b.last());
        }
        let x = a.drop_last();
        let y = b.drop_last();
        assert forall|l: Seq<char>| #[trigger] x.contains(l) <==> y.contains(l) by {
            if x.contains(l) {
                let k = choose|k: int| 0 <= k < x.len() && x[k] == l;
                assert(a[k] == l);
                assert(text::text_lt(a[k], a[a.len() - 1]));
                text::text_lt_total(l, a.last());
                assert(a.contains(l));
                assert(b.contains(l));
                let m = choose|m: int| 0 <= m < b.len() && b[m] == l;
                assert(m != b.len() - 1);
                assert(y[m] == l);
            }
            if y.contains(l) {
                let k = choose|k: int| 0 <= k < y.len() && y[k] == l;
                assert(b[k] == l);
                assert(text::text_lt(b[k], b[b.len() - 1]));
                text::text_lt_total(l, b.last());
                assert(a.contains(l));
                let m = choose|m: int| 0 <= m < a.len() && a[m] == l;
                assert(m != a.len() - 1);
                assert(x[m] == l);
            }
        }
        same_lines(x, y);
        assert(a =~= x.push(a.last()));
        assert(b =~= y.push(b.last()));
    }
}

/// The position of the first `.`, `=` or `[` of a line, from `i` on; the line's length where
/// there is none.
pub open spec fn base_end(line: Seq<char>, i: int) -> int
    decreases line.len() - i,
{
    if i >= line.len() {
        line.len() as int
    } else if line[i] == '.' || line[i] == '=' || line[i] == '[' {
        i
    } else {
        base_end(line, i + 1)
    }
}

/// The name that a line speaks of: what precedes its first `.`, `=` or `[`.
pub open spec fn line_base(line: Seq<char>) -> Seq<char> {
    line.take(base_end(line, 0))
}

/// The name that the line before position `n` speaks of; empty before the first line.
pub open spec fn base_before(lines: Seq<Seq<char>>, n: int) -> Seq<char> {
    if n <= 0 { seq![] } else { line_base(lines[n - 1]) }
}

/// The first `n` lines as they are shown: a comma between neighbours, and a new row wherever the
/// name changes.
pub open spec fn shown_lines(lines: Seq<Seq<char>>, n: nat) -> Seq<char>
    decreases n,
{
    if n == 0 {
        "["@
    } else {
        shown_lines(lines, (n - 1) as nat)
            + (if n > 1 { ", "@ } else { seq![] })
            + (if line_base(lines[n - 1]) != base_before(lines, n - 1) { "\n    "@ } else { seq![] })
            + lines[n - 1]
    }
}

fn base_len(line: &str) -> (r: usize)
    ensures r == base_end(line@, 0), r <= line@.len(),
{
    let n: usize = line.unicode_len();
    let mut i: usize = 0;
    while i < n
        invariant
            i <= n,
            n == line@.len(),
            base_end(line@, 0) == base_end(line@, i as int),
        decreases n - i,
    {
        let c: char = line.get_char(i);
        if c == '.' || c == '=' || c == '[' {
            return i;
        }
        i = i + 1;
    }
    n
}

/// Whether a predicate answers `keep` on some text with the characters of `line`.
pub open spec fn decided<F: Fn(&str) -> bool>(pred: F, line: Seq<char>, keep: bool) -> bool {
    exists|s: &str| s@ == line && #[trigger] pred.ensures((s,), keep)
}

/// A state as a set of lines, or the unreachable state.
///
/// Top is the empty set of lines.
pub struct StringInvariant {
    maybe_inv: Option<LineSet>,
}

impl StringInvariant {
    /// The lines, or `None` for the unreachable state.
    pub closed spec fn content(&self) -> Option<Seq<Seq<char>>> {
        match self.maybe_inv {
            Some(s) => Some(s.lines()),
            None => None,
        }
    }

    /// Whether the invariant is reachable and holds a line.
    pub open spec fn has(&self, line: Seq<char>) -> bool {
        self.content() is Some && self.content()->Some_0.contains(line)
    }

    /// How the invariant is shown.
    pub open spec fn text(&self) -> Seq<char> {
        match self.content() {
            None => "_|_"@,
            Some(lines) => shown_lines(lines, lines.len()) + "]"@,
        }
    }

    /// Top: a reachable state with no constraints.
    pub fn top() -> (r: Self)
        ensures r.content() == Some(Seq::<Seq<char>>::empty()),
    {
        StringInvariant { maybe_inv: Some(LineSet::new()) }
    }

    /// Bottom: the unreachable state.
    pub fn bottom() -> (r: Self)
        ensures r.content() is None,
    {
        StringInvariant { maybe_inv: None }
    }

    /// The state with the given lines.
    pub fn from_set(inv: LineSet) -> (r: Self)
        ensures r.content() == Some(inv.lines()),
    {
        StringInvariant { maybe_inv: Some(inv) }
    }

    /// Whether the state is unreachable.
    pub fn is_bottom(&self) -> (r: bool)
        ensures r == (self.content() is None),
    {
        self.maybe_inv.is_none()
    }

    /// Whether the state is reachable and has no lines.
    pub fn is_empty(&self) -> (r: bool)
        ensures r == (self.content() is Some && self.content()->Some_0.len() == 0),
    {
        match &self.maybe_inv {
            Some(s) => s.is_empty(),
            None => false,
        }
    }

    /// Keeps the lines that the predicate accepts. Bottom stays bottom.
    pub fn retain<F: Fn(&str) -> bool>(self, pred: F) -> (r: Self)
        requires forall|s: &str| #[trigger] pred.requires((s,)),
        ensures
            r.content() is None <==> self.content() is None,
            forall|l: Seq<char>| #[trigger] r.has(l) ==> self.has(l),
            forall|l: Seq<char>| #[trigger] self.has(l) ==> decided(pred, l, r.has(l)),
    {
        match self.maybe_inv {
            None => StringInvariant { maybe_inv: None },
            Some(ref inv) => {
                let mut kept = LineSet::new();
                let mut i: usize = 0;
                let ghost all = inv.lines();
                inv.order_is_strict();
                while i < inv.len()
                    invariant
                        i <= all.len(),
                        all == inv.lines(),
                        sorted_lines(all),
                        forall|s: &str| #[trigger] pred.requires((s,)),
                        forall|l: Seq<char>| #[trigger] kept.has(l) ==> all.take(i as int).contains(l),
                        forall|j: int| 0 <= j < i ==> decided(pred, #[trigger] all[j], kept.has(all[j])),
                    decreases all.len() - i,
                {
                    let ghost before = kept;
                    let line = inv.line(i);
                    let keep: bool = pred(line);
                    if keep {
                        kept.insert(String::from_str(line));
                    }
                    proof {
                        let a = all.take(i as int);
                        let b = all.take(i + 1);
                        assert(b =~= a.push(all[i as int]));
                        assert forall|l: Seq<char>| #[trigger] kept.has(l) implies b.contains(l) by {
                            if before.has(l) {
                                assert(a.contains(l));
                                let k = choose|k: int| 0 <= k < a.len() && a[k] == l;
                                assert(b[k] == l);
                            } else {
                                assert(b[i as int] == l);
                            }
                        }
                        assert forall|j: int| 0 <= j < i + 1 implies decided(pred, #[trigger] all[j], kept.has(all[j])) by {
                            if j < i {
                                assert(text::text_lt(all[j], all[i as int]));
                                text::text_lt_total(all[j], all[i as int]);
                                assert(kept.has(all[j]) == before.has(all[j]));
                            } else {
                                if before.has(all[i as int]) {
                                    assert(a.contains(all[i as int]));
                                    let m = choose|m: int| 0 <= m < a.len() && a[m] == all[i as int];
                                    assert(text::text_lt(all[m], all[i as int]));
                                    text::text_lt_total(all[m], all[i as int]);
                                }
                                assert(line@ == all[j] && pred.ensures((line,), keep) && keep == kept.has(all[j]));
                            }
                        }
                    }
                    i = i + 1;
                }
                assert(all.take(all.len() as int) =~= all);
                let r = StringInvariant { maybe_inv: Some(kept) };
                proof {
                    assert forall|l: Seq<char>| #[trigger] self.has(l) implies decided(pred, l, r.has(l)) by {
                        let j = choose|j: int| 0 <= j < all.len() && all[j] == l;
                        assert(decided(pred, all[j], kept.has(all[j])));
                        assert(r.has(l) == kept.has(l));
                    }
                    assert forall|l: Seq<char>| #[trigger] r.has(l) implies self.has(l) by {
                        assert(kept.has(l));
                    }
                }
                r
            }
        }
    }

    /// The lines of a reachable state.
    pub fn value(&self) -> (r: &LineSet)
        requires self.content() is Some,
        ensures Some(r.lines()) == self.content(),
    {
        self.maybe_inv.as_ref().unwrap()
    }

    /// Whether a reachable state holds a line.
    pub fn contains(&self, item: &str) -> (r: bool)
        requires self.content() is Some,
        ensures r == self.has(item@),
    {
        self.value().contains(item)
    }

    /// The lines used for display and comparison: those of a reachable state, and the one line
    /// `_|_` for bottom.
    pub fn to_lines(&self) -> (r: LineSet)
        ensures
            match self.content() {
                None => forall|l: Seq<char>| #[trigger] r.has(l) <==> l == "_|_"@,
                Some(lines) => r.lines() == lines,
            },
    {
        match &self.maybe_inv {
            None => {
                let mut s = LineSet::new();
                s.insert(String::from_str("_|_"));
                s
            }
            Some(inv) => inv.copy(),
        }
    }

    /// The lines of both; bottom adds nothing to the other operand.
    pub fn union(&self, other: &StringInvariant) -> (r: StringInvariant)
        ensures
            r.content() is None <==> self.content() is None && other.content() is None,
            forall|l: Seq<char>| #[trigger] r.has(l) <==> self.has(l) || other.has(l),
            self.content() is None ==> r.content() == other.content(),
            other.content() is None ==> r.content() == self.content(),
    {
        match (&self.maybe_inv, &other.maybe_inv) {
            (None, _) => other.copy(),
            (_, None) => self.copy(),
            (Some(a), Some(b)) => {
                let u = a.union(b);
                let r = StringInvariant { maybe_inv: Some(u) };
                assert forall|l: Seq<char>| #[trigger] r.has(l) <==> self.has(l) || other.has(l) by {
                    assert(u.has(l) <==> a.has(l) || b.has(l));
                }
                r
            }
        }
    }

    /// A copy of the invariant.
    pub fn copy(&self) -> (r: Self)
        ensures r.content() == self.content(),
    {
        match &self.maybe_inv {
            None => StringInvariant { maybe_inv: None },
            Some(s) => StringInvariant { maybe_inv: Some(s.copy()) },
        }
    }

    /// Whether both are bottom, or both hold the same lines.
    pub fn same(&self, other: &StringInvariant) -> (r: bool)
        ensures r == (self.content() == other.content()),
    {
        match (&self.maybe_inv, &other.maybe_inv) {
            (None, None) => true,
            (Some(a), Some(b)) => a.same(b),
            _ => false,
        }
    }

    /// Renders the invariant.
    pub fn to_string(&self) -> (r: String)
        ensures r@ == self.text(),
    {
        match &self.maybe_inv {
            None => String::from_str("_|_"),
            Some(inv) => {
                let mut s = String::from_str("[");
                let ghost all = inv.lines();
                let mut i: usize = 0;
                let mut last_base = String::new();
                assert(last_base@ =~= seq![]);
                while i < inv.len()
                    invariant
                        i <= all.len(),
                        all == inv.lines(),
                        s@ == shown_lines(all, i as nat),
                        last_base@ == base_before(all, i as int),
                    decreases all.len() - i,
                {
                    let ghost start = s@;
                    if i > 0 {
                        s.append(", ");
                    }
                    let item = inv.line(i);
                    let end: usize = base_len(item);
                    let base = item.substring_char(0, end);
                    assert(base@ =~= line_base(all[i as int]));
                    if !same_text(base, last_base.as_str()) {
                        s.append("\n    ");
                        last_base = String::from_str(base);
                    }
                    s.append(item);
                    assert(s@ =~= shown_lines(all, (i + 1) as nat));
                    i = i + 1;
                }
                s.append("]");
                s
            }
        }
    }
}

}
