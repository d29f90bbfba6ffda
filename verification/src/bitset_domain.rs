//! Which bytes of the stack are numbers.
//!
//! A bit is set where the byte may be something else than a number.
use vstd::prelude::*;
use vstd::string::*;
use fixedbitset::FixedBitSet;
use crate::string_constraints::{LineSet, StringInvariant};
use crate::text;
use crate::text::push_nat;

verus! {

/// The bit set of the `fixedbitset` crate.
#[verifier::external_type_specification]
#[verifier::external_body]
pub struct ExFixedBitSet(FixedBitSet);

/// The bits of a bit set, from the first to the last.
pub uninterp spec fn bit_values(b: FixedBitSet) -> Seq<bool>;

/// How many bits are set.
pub open spec fn count_set(s: Seq<bool>) -> nat
    decreases s.len(),
{
    if s.len() == 0 { 0 } else { count_set(s.drop_last()) + (if s.last() { 1nat } else { 0nat }) }
}

/// A row of bits with a range set to one value.
pub open spec fn filled(s: Seq<bool>, lo: int, hi: int, b: bool) -> Seq<bool> {
    Seq::new(s.len(), |i: int| if lo <= i < hi { b } else { s[i] })
}

/// The bits that one of two rows has.
pub open spec fn either_bits(a: Seq<bool>, b: Seq<bool>) -> Seq<bool> {
    Seq::new(a.len(), |i: int| a[i] || b[i])
}

/// The bits that both rows have.
pub open spec fn common_bits(a: Seq<bool>, b: Seq<bool>) -> Seq<bool> {
    Seq::new(a.len(), |i: int| a[i] && b[i])
}

/// `FixedBitSet::with_capacity`: a set of the given number of bits, all clear.
#[verifier::external_body]
fn bits_with_capacity(n: usize) -> (r: FixedBitSet)
    ensures bit_values(r) == Seq::new(n as nat, |i: int| false),
{
    FixedBitSet::with_capacity(n)
}

/// `FixedBitSet::len`: the number of bits, set or clear.
#[verifier::external_body]
fn bits_len(b: &FixedBitSet) -> (r: usize)
    ensures r == bit_values(*b).len(),
{
    b.len()
}

/// `FixedBitSet::contains`: whether a bit is set; bits beyond the end are not.
#[verifier::external_body]
fn bits_contains(b: &FixedBitSet, i: usize) -> (r: bool)
    ensures r == (i < bit_values(*b).len() && bit_values(*b)[i as int]),
{
    b.contains(i)
}

/// `FixedBitSet::insert_range`: sets the bits of a range that lies within the set.
#[verifier::external_body]
fn bits_insert_range(b: &mut FixedBitSet, lo: usize, hi: usize)
    requires lo <= hi <= bit_values(*old(b)).len(),
    ensures bit_values(*final(b)) == filled(bit_values(*old(b)), lo as int, hi as int, true),
{
    b.insert_range(lo..hi)
}

/// `FixedBitSet::remove_range`: clears the bits of a range that lies within the set.
#[verifier::external_body]
fn bits_remove_range(b: &mut FixedBitSet, lo: usize, hi: usize)
    requires lo <= hi <= bit_values(*old(b)).len(),
    ensures bit_values(*final(b)) == filled(bit_values(*old(b)), lo as int, hi as int, false),
{
    b.remove_range(lo..hi)
}

/// `FixedBitSet::clear`: clears all bits.
#[verifier::external_body]
fn bits_clear(b: &mut FixedBitSet)
    ensures bit_values(*final(b)) == Seq::new(bit_values(*old(b)).len(), |i: int| false),
{
    b.clear()
}

/// `FixedBitSet::count_ones` over the whole set: how many bits are set.
#[verifier::external_body]
fn bits_count_ones(b: &FixedBitSet) -> (r: usize)
    ensures r == count_set(bit_values(*b)),
{
    b.count_ones(..)
}

/// `FixedBitSet::is_subset`, of sets of one length: whether every bit of the first is set in the
/// second.
#[verifier::external_body]
fn bits_is_subset(a: &FixedBitSet, b: &FixedBitSet) -> (r: bool)
    requires bit_values(*a).len() == bit_values(*b).len(),
    ensures r == (forall|i: int| 0 <= i < bit_values(*a).len() && #[trigger] bit_values(*a)[i] ==> bit_values(*b)[i]),
{
    a.is_subset(b)
}

/// `FixedBitSet`'s `|`, of sets of one length: the bits of either.
#[verifier::external_body]
fn bits_or(a: &FixedBitSet, b: &FixedBitSet) -> (r: FixedBitSet)
    requires bit_values(*a).len() == bit_values(*b).len(),
    ensures bit_values(r) == either_bits(bit_values(*a), bit_values(*b)),
{
    a | b
}

/// `FixedBitSet`'s `&`, of sets of one length: the bits of both.
#[verifier::external_body]
fn bits_and(a: &FixedBitSet, b: &FixedBitSet) -> (r: FixedBitSet)
    requires bit_values(*a).len() == bit_values(*b).len(),
    ensures bit_values(r) == common_bits(bit_values(*a), bit_values(*b)),
{
    a & b
}

/// `FixedBitSet::union_with`, of sets of one length: adds the bits of the other set.
#[verifier::external_body]
fn bits_union_with(a: &mut FixedBitSet, b: &FixedBitSet)
    requires bit_values(*old(a)).len() == bit_values(*b).len(),
    ensures bit_values(*final(a)) == either_bits(bit_values(*old(a)), bit_values(*b)),
{
    a.union_with(b)
}

/// `FixedBitSet`'s `clone`: a set with the same bits.
#[verifier::external_body]
fn bits_clone(b: &FixedBitSet) -> (r: FixedBitSet)
    ensures bit_values(r) == bit_values(*b),
{
    b.clone()
}

/// `FixedBitSet`'s `==`: whether two sets have the same length and the same bits.
#[verifier::external_body]
fn bits_equal(a: &FixedBitSet, b: &FixedBitSet) -> (r: bool)
    ensures r == (bit_values(*a) == bit_values(*b)),
{
    a == b
}

/// All bits are set exactly where as many are set as there are.
proof fn lemma_count(s: Seq<bool>)
    ensures
        count_set(s) <= s.len(),
        count_set(s) == s.len() <==> forall|i: int| 0 <= i < s.len() ==> #[trigger] s[i],
    decreases s.len(),
{
    if s.len() > 0 {
        let t = s.drop_last();
        lemma_count(t);
        if count_set(s) == s.len() {
            assert forall|i: int| 0 <= i < s.len() implies #[trigger] s[i] by {
                if i < t.len() { assert(t[i]); }
            }
        }
        if forall|i: int| 0 <= i < s.len() ==> #[trigger] s[i] {
            assert forall|i: int| 0 <= i < t.len() implies #[trigger] t[i] by { assert(s[i]); }
            assert(s[s.len() - 1]);
        }
    }
}

/// The end of the run of clear bits that starts at `i`.
pub open spec fn run_end(s: Seq<bool>, i: int) -> int
    decreases s.len() - i,
{
    if i < 0 || i >= s.len() || s[i] { i } else { run_end(s, i + 1) }
}

/// The runs of clear bits from `i` on, each by its first and last position.
pub open spec fn runs_from(s: Seq<bool>, i: int) -> Seq<(int, int)>
    decreases s.len() - i,
{
    if i < 0 || i >= s.len() {
        seq![]
    } else if s[i] {
        runs_from(s, i + 1)
    } else if run_end(s, i) <= i || run_end(s, i) > s.len() {
        seq![]
    } else {
        seq![(i, run_end(s, i) - 1)] + runs_from(s, run_end(s, i))
    }
}

pub proof fn lemma_run_end(s: Seq<bool>, i: int)
    requires 0 <= i <= s.len(),
    ensures
        i <= run_end(s, i) <= s.len(),
        i < s.len() && !s[i] ==> i < run_end(s, i),
        forall|j: int| i <= j < run_end(s, i) ==> !(#[trigger] s[j]),
        run_end(s, i) < s.len() ==> s[run_end(s, i)],
    decreases s.len() - i,
{
    if i < s.len() && !s[i] {
        lemma_run_end(s, i + 1);
    }
}

/// The listed runs are the maximal runs of clear bits.
pub proof fn runs_are_maximal(s: Seq<bool>, i: int, k: int)
    requires 0 <= i <= s.len(), i == 0 || s[i - 1] || (i < s.len() && s[i]) || i == s.len(), 0 <= k < runs_from(s, i).len(),
    ensures
        ({
            let (a, b) = runs_from(s, i)[k];
            &&& i <= a <= b < s.len()
            &&& forall|j: int| a <= j <= b ==> !(#[trigger] s[j])
            &&& a == 0 || s[a - 1]
            &&& b + 1 == s.len() || s[b + 1]
        }),
    decreases s.len() - i,
{
    if i < s.len() {
        if s[i] {
            runs_are_maximal(s, i + 1, k);
        } else {
            lemma_run_end(s, i);
            let e = run_end(s, i);
            if k > 0 {
                runs_are_maximal(s, e, k - 1);
            }
        }
    }
}

/// Every clear bit lies in a listed run.
pub proof fn runs_are_complete(s: Seq<bool>, i: int, p: int)
    requires 0 <= i <= p < s.len(), !s[p],
    ensures exists|k: int| 0 <= k < runs_from(s, i).len() && (#[trigger] runs_from(s, i)[k]).0 <= p <= runs_from(s, i)[k].1,
    decreases s.len() - i,
{
    if s[i] {
        runs_are_complete(s, i + 1, p);
    } else {
        lemma_run_end(s, i);
        let e = run_end(s, i);
        if p < e {
            assert(runs_from(s, i)[0] == (i, e - 1));
        } else {
            runs_are_complete(s, e, p);
            let k = choose|k: int| 0 <= k < runs_from(s, e).len() && (#[trigger] runs_from(s, e)[k]).0 <= p <= runs_from(s, e)[k].1;
            assert(runs_from(s, i)[k + 1] == runs_from(s, e)[k]);
        }
    }
}

/// The text of a run: its first position, and its last where that is another.
pub open spec fn run_text(r: (int, int)) -> Seq<char> {
    text::dec_nat(r.0 as nat) + (if r.1 > r.0 { "..."@ + text::dec_nat(r.1 as nat) } else { seq![] })
}

/// The line of a run of numbers.
pub open spec fn run_line(r: (int, int)) -> Seq<char> {
    "s["@ + run_text(r) + "].type=number"@
}

/// The first `n` runs as they are shown.
pub open spec fn shown_runs(rs: Seq<(int, int)>, n: nat) -> Seq<char>
    decreases n,
{
    if n == 0 {
        "Numbers -> {"@
    } else {
        shown_runs(rs, (n - 1) as nat) + (if n > 1 { ", "@ } else { seq![] }) + "["@ + run_text(rs[n - 1]) + "]"@
    }
}

/// Which bytes of the stack may be something else than a number.
pub struct BitsetDomain {
    bits: FixedBitSet,
}

impl View for BitsetDomain {
    type V = Seq<bool>;

    closed spec fn view(&self) -> Seq<bool> {
        bit_values(self.bits)
    }
}

/// The number of bytes of a range that lies within `n` bytes from `lb` on.
pub open spec fn clipped(lb: int, width: int, n: int) -> int {
    if lb >= n { 0 } else if width > n - lb { n - lb } else if width < 0 { 0 } else { width }
}

fn clip(lb: usize, width: i32, n: usize) -> (r: usize)
    requires lb < n <= i32::MAX,
    ensures r == clipped(lb as int, width as int, n as int), lb + r <= n,
{
    let rest: i32 = (n - lb) as i32;
    if width > rest {
        rest as usize
    } else if width < 0 {
        0
    } else {
        width as usize
    }
}

impl BitsetDomain {
    /// Lengths are those of stacks.
    pub open spec fn wf(&self) -> bool {
        self@.len() <= i32::MAX
    }

    /// `total_bits` bytes, none of which is known to be a number.
    pub fn new(total_bits: i32) -> (r: Self)
        ensures
            r.wf(),
            r@ == Seq::new((if total_bits > 0 { total_bits as int } else { 0 }) as nat, |i: int| true),
    {
        let n: usize = if total_bits > 0 { total_bits as usize } else { 0 };
        let mut bits = bits_with_capacity(n);
        bits_insert_range(&mut bits, 0, n);
        let r = BitsetDomain { bits };
        assert(r@ =~= Seq::new((if total_bits > 0 { total_bits as int } else { 0 }) as nat, |i: int| true));
        r
    }

    /// The number of bytes.
    pub fn len(&self) -> (r: usize)
        ensures r == self@.len(),
    {
        bits_len(&self.bits)
    }

    /// Whether there are no bytes.
    pub fn is_empty(&self) -> (r: bool)
        ensures r == (self@.len() == 0),
    {
        bits_len(&self.bits) == 0
    }

    /// No byte is known to be a number.
    pub fn set_to_top(&mut self)
        ensures final(self)@ == Seq::new(old(self)@.len(), |i: int| true),
    {
        let n: usize = bits_len(&self.bits);
        bits_insert_range(&mut self.bits, 0, n);
        assert(self@ =~= Seq::new(old(self)@.len(), |i: int| true));
    }

    /// Every byte is a number.
    pub fn set_to_bottom(&mut self)
        ensures final(self)@ == Seq::new(old(self)@.len(), |i: int| false),
    {
        bits_clear(&mut self.bits);
    }

    /// Whether no byte is known to be a number.
    pub fn is_top(&self) -> (r: bool)
        ensures r <==> forall|i: int| 0 <= i < self@.len() ==> #[trigger] self@[i],
    {
        proof { lemma_count(self@); }
        bits_count_ones(&self.bits) == bits_len(&self.bits)
    }

    /// Never: there is no bottom.
    pub fn is_bottom(&self) -> (r: bool)
        ensures !r,
    {
        false
    }

    /// The runs of numbers as lines of text.
    pub fn to_set(&self) -> (r: StringInvariant)
        ensures
            r.content() is Some,
            forall|l: Seq<char>| #[trigger] r.has(l) <==> exists|k: int| 0 <= k < runs_from(self@, 0).len() && l == run_line(#[trigger] runs_from(self@, 0)[k]),
    {
        let ranges = self.numerical_ranges();
        let ghost rs = runs_from(self@, 0);
        let mut out = LineSet::new();
        let mut i: usize = 0;
        assert forall|l: Seq<char>| !(#[trigger] out.has(l)) by {}
        while i < ranges.len()
            invariant
                i <= ranges.len(),
                ranges.len() == rs.len(),
                forall|k: int| 0 <= k < rs.len() ==> #[trigger] rs[k] == (ranges@[k].0 as int, ranges@[k].1 as int),
                forall|l: Seq<char>| #[trigger] out.has(l) <==> exists|k: int| 0 <= k < i && l == run_line(#[trigger] rs[k]),
            decreases ranges.len() - i,
        {
            let (start, end) = ranges[i];
            let ghost before = out;
            let mut line = String::from_str("s[");
            push_nat(&mut line, start as u128);
            if end > start {
                line.append("...");
                push_nat(&mut line, end as u128);
            }
            line.append("].type=number");
            assert(rs[i as int] == (start as int, end as int));
            assert(line@ =~= run_line(rs[i as int]));
            let ghost shown = line@;
            out.insert(line);
            assert forall|l: Seq<char>| #[trigger] out.has(l) <==> exists|k: int| 0 <= k < i + 1 && l == run_line(#[trigger] rs[k]) by {
                if before.has(l) {
                    let k = choose|k: int| 0 <= k < i && l == run_line(#[trigger] rs[k]);
                    assert(0 <= k < i + 1 && l == run_line(rs[k]));
                }
            }
            i = i + 1;
        }
        let r = StringInvariant::from_set(out);
        assert forall|l: Seq<char>| #[trigger] r.has(l) <==> exists|k: int| 0 <= k < rs.len() && l == run_line(#[trigger] rs[k]) by {
            assert(r.has(l) <==> out.has(l));
        }
        r
    }

    /// Whether every byte that may be something else here may be so in the other.
    pub fn is_included_in(&self, other: &BitsetDomain) -> (r: bool)
        requires self@.len() == other@.len(),
        ensures r == (forall|i: int| 0 <= i < self@.len() && #[trigger] self@[i] ==> other@[i]),
    {
        bits_is_subset(&self.bits, &other.bits)
    }

    /// The bytes that may be something else on either side.
    pub fn join(&self, other: &BitsetDomain) -> (r: BitsetDomain)
        requires self@.len() == other@.len(),
        ensures r@ == either_bits(self@, other@),
    {
        BitsetDomain { bits: bits_or(&self.bits, &other.bits) }
    }

    /// Joins another domain into this one.
    pub fn join_assign(&mut self, other: &BitsetDomain)
        requires old(self)@.len() == other@.len(),
        ensures final(self)@ == either_bits(old(self)@, other@),
    {
        bits_union_with(&mut self.bits, &other.bits);
    }

    /// The bytes that may be something else on both sides.
    pub fn meet(&self, other: &BitsetDomain) -> (r: BitsetDomain)
        requires self@.len() == other@.len(),
        ensures r@ == common_bits(self@, other@),
    {
        BitsetDomain { bits: bits_and(&self.bits, &other.bits) }
    }

    /// Widening is joining.
    pub fn widen(&self, other: &BitsetDomain) -> (r: BitsetDomain)
        requires self@.len() == other@.len(),
        ensures r@ == either_bits(self@, other@),
    {
        self.join(other)
    }

    /// Narrowing is meeting.
    pub fn narrow(&self, other: &BitsetDomain) -> (r: BitsetDomain)
        requires self@.len() == other@.len(),
        ensures r@ == common_bits(self@, other@),
    {
        self.meet(other)
    }

    /// Whether all bytes of a range are numbers, and whether none is known to be. Bytes beyond the
    /// end do not count.
    pub fn uniformity(&self, lb: usize, width: i32) -> (r: (bool, bool))
        requires self.wf(),
        ensures
            r.0 <==> forall|i: int| lb <= i < lb + clipped(lb as int, width as int, self@.len() as int) ==> !(#[trigger] self@[i]),
            r.1 <==> forall|i: int| lb <= i < lb + clipped(lb as int, width as int, self@.len() as int) ==> #[trigger] self@[i],
    {
        let n: usize = bits_len(&self.bits);
        if lb >= n {
            return (true, true);
        }
        let w: usize = clip(lb, width, n);
        let mut only_num: bool = true;
        let mut only_non_num: bool = true;
        let mut j: usize = 0;
        while j < w
            invariant
                j <= w,
                lb + w <= n,
                n == self@.len(),
                only_num <==> forall|i: int| lb <= i < lb + j ==> !(#[trigger] self@[i]),
                only_non_num <==> forall|i: int| lb <= i < lb + j ==> #[trigger] self@[i],
            decreases w - j,
        {
            let b: bool = bits_contains(&self.bits, lb + j);
            assert(b == self@[lb + j]);
            if b {
                only_num = false;
            } else {
                only_non_num = false;
            }
            j = j + 1;
        }
        (only_num, only_non_num)
    }

    /// How many bytes from `lb` on are numbers.
    pub fn all_num_width(&self, lb: usize) -> (r: i32)
        requires self.wf(),
        ensures r == (if lb < self@.len() { run_end(self@, lb as int) - lb } else { 0 }),
    {
        let n: usize = bits_len(&self.bits);
        if lb >= n {
            return 0;
        }
        let mut ub: usize = lb;
        while ub < n && !bits_contains(&self.bits, ub)
            invariant
                lb <= ub <= n,
                n == self@.len(),
                run_end(self@, lb as int) == run_end(self@, ub as int),
            decreases n - ub,
        {
            ub = ub + 1;
        }
        (ub - lb) as i32
    }

    /// Makes the bytes of a range numbers.
    pub fn reset(&mut self, lb: usize, n: i32)
        requires old(self).wf(),
        ensures
            final(self).wf(),
            final(self)@ == filled(old(self)@, lb as int, lb + clipped(lb as int, n as int, old(self)@.len() as int), false),
    {
        let len: usize = bits_len(&self.bits);
        if lb >= len {
            assert(self@ =~= filled(old(self)@, lb as int, lb as int, false));
            return;
        }
        let w: usize = clip(lb, n, len);
        bits_remove_range(&mut self.bits, lb, lb + w);
    }

    /// Makes nothing known of the bytes of a range.
    pub fn havoc(&mut self, lb: usize, width: i32)
        requires old(self).wf(),
        ensures
            final(self).wf(),
            final(self)@ == filled(old(self)@, lb as int, lb + clipped(lb as int, width as int, old(self)@.len() as int), true),
    {
        let len: usize = bits_len(&self.bits);
        if lb >= len {
            assert(self@ =~= filled(old(self)@, lb as int, lb as int, true));
            return;
        }
        let w: usize = clip(lb, width, len);
        bits_insert_range(&mut self.bits, lb, lb + w);
    }

    /// The runs of numbers, each by its first and last position.
    fn numerical_ranges(&self) -> (r: Vec<(usize, usize)>)
        ensures
            r.len() == runs_from(self@, 0).len(),
            forall|k: int| 0 <= k < r.len() ==> #[trigger] runs_from(self@, 0)[k] == (r@[k].0 as int, r@[k].1 as int),
    {
        let mut ranges: Vec<(usize, usize)> = Vec::new();
        let n: usize = bits_len(&self.bits);
        let ghost s = self@;
        let mut i: usize = 0;
        let ghost mut done: Seq<(int, int)> = seq![];
        assert(done + runs_from(s, 0) =~= runs_from(s, 0));
        while i < n
            invariant
                i <= n,
                n == s.len(),
                s == self@,
                done + runs_from(s, i as int) == runs_from(s, 0),
                ranges.len() == done.len(),
                forall|k: int| 0 <= k < done.len() ==> #[trigger] done[k] == (ranges@[k].0 as int, ranges@[k].1 as int),
            decreases n - i,
        {
            if bits_contains(&self.bits, i) {
                i = i + 1;
                continue;
            }
            let start: usize = i;
            let mut j: usize = i + 1;
            proof { lemma_run_end(s, i as int); }
            while j < n && !bits_contains(&self.bits, j)
                invariant
                    start < j <= n,
                    n == s.len(),
                    s == self@,
                    run_end(s, start as int) == run_end(s, j as int),
                decreases n - j,
            {
                j = j + 1;
            }
            proof {
                let rest = runs_from(s, j as int);
                let more = done.push((start as int, j - 1));
                assert(done + runs_from(s, start as int) =~= more + rest);
                done = more;
            }
            ranges.push((start, j - 1));
            i = j;
        }
        assert(done + runs_from(s, n as int) =~= done);
        ranges
    }

    /// Whether all bytes of a range are numbers. Bytes outside the stack do not count.
    pub fn all_num(&self, lb: i32, ub: i32) -> (r: bool)
        requires self.wf(),
        ensures r <==> lb == ub || forall|i: int| lb <= i < ub && 0 <= i < self@.len() ==> !(#[trigger] self@[i]),
    {
        if lb == ub {
            return true;
        }
        let n: i32 = bits_len(&self.bits) as i32;
        let lo: i32 = if lb > 0 { lb } else { 0 };
        let hi: i32 = if ub < n { ub } else { n };
        let mut i: i32 = lo;
        while i < hi
            invariant
                0 <= lo <= i,
                i <= hi || i == lo,
                hi <= n,
                n == self@.len(),
                forall|k: int| lo <= k < i ==> !(#[trigger] self@[k]),
                lb <= lo,
                hi <= ub,
                lb != ub,
            decreases hi - i,
        {
            if bits_contains(&self.bits, i as usize) {
                assert(self@[i as int]);
                return false;
            }
            i = i + 1;
        }
        true
    }

    /// Whether a byte may be something else than a number.
    pub fn get_bit(&self, i: usize) -> (r: bool)
        ensures r == (i < self@.len() && self@[i as int]),
    {
        bits_contains(&self.bits, i)
    }

    /// A copy of the domain.
    pub fn copy(&self) -> (r: Self)
        ensures r@ == self@,
    {
        BitsetDomain { bits: bits_clone(&self.bits) }
    }

    /// Whether both domains have the same bytes.
    pub fn same(&self, other: &BitsetDomain) -> (r: bool)
        ensures r == (self@ == other@),
    {
        bits_equal(&self.bits, &other.bits)
    }

    /// Renders the runs of numbers.
    pub fn to_string(&self) -> (r: String)
        ensures r@ == shown_runs(runs_from(self@, 0), runs_from(self@, 0).len()) + "}"@,
    {
        let ranges = self.numerical_ranges();
        let ghost rs = runs_from(self@, 0);
        let mut s = String::from_str("Numbers -> {");
        let mut i: usize = 0;
        while i < ranges.len()
            invariant
                i <= ranges.len(),
                ranges.len() == rs.len(),
                forall|k: int| 0 <= k < rs.len() ==> #[trigger] rs[k] == (ranges@[k].0 as int, ranges@[k].1 as int),
                s@ == shown_runs(rs, i as nat),
            decreases ranges.len() - i,
        {
            let (start, end) = ranges[i];
            assert(rs[i as int] == (start as int, end as int));
            if i > 0 {
                s.append(", ");
            }
            s.append("[");
            push_nat(&mut s, start as u128);
            if end > start {
                s.append("...");
                push_nat(&mut s, end as u128);
            }
            s.append("]");
            assert(s@ =~= shown_runs(rs, (i + 1) as nat));
            i = i + 1;
        }
        s.append("}");
        s
    }
}

/// A join says no more than either side, and a meet no less.
pub proof fn bits_lattice(a: Seq<bool>, b: Seq<bool>)
    requires a.len() == b.len(),
    ensures
        forall|i: int| 0 <= i < a.len() && (a[i] || b[i]) ==> #[trigger] either_bits(a, b)[i],
        forall|i: int| 0 <= i < a.len() && #[trigger] common_bits(a, b)[i] ==> a[i] && b[i],
        either_bits(a, a) == a,
        common_bits(a, a) == a,
        either_bits(a, b) == either_bits(b, a),
        common_bits(a, b) == common_bits(b, a),
        either_bits(a, common_bits(a, b)) == a,
        common_bits(a, either_bits(a, b)) == a,
{
    assert(either_bits(a, a) =~= a);
    assert(common_bits(a, a) =~= a);
    assert(either_bits(a, b) =~= either_bits(b, a));
    assert(common_bits(a, b) =~= common_bits(b, a));
    assert(either_bits(a, common_bits(a, b)) =~= a);
    assert(common_bits(a, either_bits(a, b)) =~= a);
}

}
