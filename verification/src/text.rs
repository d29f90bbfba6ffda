//! Rendering of integers and assembly of text.
use vstd::prelude::*;
use vstd::string::*;

verus! {

/// The character of a decimal digit.
pub open spec fn digit_char(d: int) -> char {
    if d == 0 { '0' }
    else if d == 1 { '1' }
    else if d == 2 { '2' }
    else if d == 3 { '3' }
    else if d == 4 { '4' }
    else if d == 5 { '5' }
    else if d == 6 { '6' }
    else if d == 7 { '7' }
    else if d == 8 { '8' }
    else { '9' }
}

/// Decimal digits of a natural number, most significant first.
pub open spec fn dec_nat(n: nat) -> Seq<char>
    decreases n,
{
    if n < 10 {
        seq![digit_char(n as int)]
    } else {
        dec_nat(n / 10).push(digit_char((n % 10) as int))
    }
}

/// Decimal rendering of an integer.
pub open spec fn dec_int(n: int) -> Seq<char> {
    if n < 0 {
        seq!['-'] + dec_nat((-n) as nat)
    } else {
        dec_nat(n as nat)
    }
}

fn digit_str(d: u8) -> (r: &'static str)
    requires d < 10,
    ensures r@ == seq![digit_char(d as int)],
{
    proof {
        reveal_strlit("0"); reveal_strlit("1"); reveal_strlit("2"); reveal_strlit("3");
        reveal_strlit("4"); reveal_strlit("5"); reveal_strlit("6"); reveal_strlit("7");
        reveal_strlit("8"); reveal_strlit("9");
    }
    if d == 0 { "0" }
    else if d == 1 { "1" }
    else if d == 2 { "2" }
    else if d == 3 { "3" }
    else if d == 4 { "4" }
    else if d == 5 { "5" }
    else if d == 6 { "6" }
    else if d == 7 { "7" }
    else if d == 8 { "8" }
    else { "9" }
}

/// Appends the decimal digits of `n` to `s`.
pub fn push_nat(s: &mut String, n: u128)
    ensures final(s)@ == old(s)@ + dec_nat(n as nat),
    decreases n,
{
    if n < 10 {
        s.append(digit_str(n as u8));
    } else {
        push_nat(s, n / 10);
        s.append(digit_str((n % 10) as u8));
        assert(old(s)@ + dec_nat((n / 10) as nat) + seq![digit_char((n % 10) as int)] =~= old(s)@ + dec_nat(n as nat));
    }
}

/// Appends the decimal rendering of `n` to `s`.
pub fn push_int(s: &mut String, n: i128)
    ensures final(s)@ == old(s)@ + dec_int(n as int),
{
    if n < 0 {
        s.append("-");
        let m: u128 = (-(n + 1)) as u128;
        push_nat(s, m + 1);
        proof { reveal_strlit("-"); }
        assert(old(s)@ + seq!['-'] + dec_nat((m + 1) as nat) =~= old(s)@ + dec_int(n as int));
    } else {
        push_nat(s, n as u128);
    }
}

/// Whether two texts hold the same characters.
pub fn same_text(a: &str, b: &str) -> (r: bool)
    ensures r == (a@ == b@),
{
    let n: usize = a.unicode_len();
    if n != b.unicode_len() {
        return false;
    }
    let mut i: usize = 0;
    while i < n
        invariant
            i <= n,
            n == a@.len(),
            n == b@.len(),
            forall|j: int| 0 <= j < i ==> a@[j] == b@[j],
        decreases n - i,
    {
        if a.get_char(i) != b.get_char(i) {
            return false;
        }
        i = i + 1;
    }
    assert(a@ =~= b@);
    true
}

/// Lexicographic order on texts by code point.
pub open spec fn text_lt(a: Seq<char>, b: Seq<char>) -> bool
    decreases a.len(),
{
    if b.len() == 0 {
        false
    } else if a.len() == 0 {
        true
    } else if a[0] != b[0] {
        (a[0] as int) < (b[0] as int)
    } else {
        text_lt(a.drop_first(), b.drop_first())
    }
}

/// Decides the lexicographic order.
pub fn text_less(a: &str, b: &str) -> (r: bool)
    ensures r == text_lt(a@, b@),
{
    let n: usize = a.unicode_len();
    let m: usize = b.unicode_len();
    let mut i: usize = 0;
    assert(a@.skip(0) =~= a@);
    assert(b@.skip(0) =~= b@);
    while i < n && i < m
        invariant
            i <= n, i <= m,
            n == a@.len(),
            m == b@.len(),
            text_lt(a@, b@) == text_lt(a@.skip(i as int), b@.skip(i as int)),
        decreases n - i,
    {
        let x: char = a.get_char(i);
        let y: char = b.get_char(i);
        assert(a@.skip(i as int).drop_first() =~= a@.skip(i + 1));
        assert(b@.skip(i as int).drop_first() =~= b@.skip(i + 1));
        if x != y {
            return (x as u32) < (y as u32);
        }
        i = i + 1;
    }
    i < m
}

/// Order of texts is total: two texts either coincide or one precedes the other.
pub proof fn text_lt_total(a: Seq<char>, b: Seq<char>)
    ensures
        a == b || text_lt(a, b) || text_lt(b, a),
        !(text_lt(a, b) && text_lt(b, a)),
        text_lt(a, b) ==> a != b,
    decreases a.len(),
{
    if a.len() > 0 && b.len() > 0 && a[0] == b[0] {
        text_lt_total(a.drop_first(), b.drop_first());
        if a.drop_first() == b.drop_first() {
            assert(a =~= seq![a[0]] + a.drop_first());
            assert(b =~= seq![b[0]] + b.drop_first());
        }
    } else if a.len() == 0 && b.len() == 0 {
        assert(a =~= b);
    }
}

/// The lexicographic order is transitive.
pub proof fn text_lt_transitive(a: Seq<char>, b: Seq<char>, c: Seq<char>)
    requires text_lt(a, b), text_lt(b, c),
    ensures text_lt(a, c),
    decreases a.len(),
{
    if a.len() > 0 && b.len() > 0 && c.len() > 0 && a[0] == b[0] && b[0] == c[0] {
        text_lt_transitive(a.drop_first(), b.drop_first(), c.drop_first());
    }
}

/// Numbers with the same digits are equal.
pub proof fn dec_nat_injective(a: nat, b: nat)
    requires dec_nat(a) == dec_nat(b),
    ensures a == b,
    decreases a,
{
    let x = dec_nat(a);
    let y = dec_nat(b);
    dec_nat_digits(a);
    dec_nat_digits(b);
    assert(x.last() == y.last());
    if a >= 10 && b >= 10 {
        assert(x.drop_last() =~= dec_nat(a / 10));
        assert(y.drop_last() =~= dec_nat(b / 10));
        dec_nat_injective(a / 10, b / 10);
    } else if a >= 10 {
        dec_nat_digits(a / 10);
        assert(x.len() >= 2);
    } else if b >= 10 {
        dec_nat_digits(b / 10);
        assert(y.len() >= 2);
    }
}

/// Whether a character is a decimal digit.
pub open spec fn is_digit(c: char) -> bool {
    '0' <= c && c <= '9'
}

/// The decimal rendering of a natural number is a nonempty row of digits.
pub proof fn dec_nat_digits(n: nat)
    ensures
        dec_nat(n).len() > 0,
        forall|i: int| 0 <= i < dec_nat(n).len() ==> is_digit(#[trigger] dec_nat(n)[i]),
    decreases n,
{
    if n >= 10 {
        dec_nat_digits(n / 10);
    }
}

/// Integers with the same rendering are equal, and a rendering holds digits and a sign only.
pub proof fn dec_int_injective(a: int, b: int)
    ensures
        dec_int(a) == dec_int(b) ==> a == b,
        forall|i: int| 0 <= i < dec_int(a).len() ==> is_digit(#[trigger] dec_int(a)[i]) || dec_int(a)[i] == '-',
{
    if a < 0 { dec_nat_digits((-a) as nat); } else { dec_nat_digits(a as nat); }
    if b < 0 { dec_nat_digits((-b) as nat); } else { dec_nat_digits(b as nat); }
    if dec_int(a) == dec_int(b) {
        assert(dec_int(a)[0] == dec_int(b)[0]);
        if a < 0 && b < 0 {
            assert(dec_int(a).skip(1) =~= dec_nat((-a) as nat));
            assert(dec_int(b).skip(1) =~= dec_nat((-b) as nat));
            dec_nat_injective((-a) as nat, (-b) as nat);
        } else if a >= 0 && b >= 0 {
            dec_nat_injective(a as nat, b as nat);
        } else if a < 0 {
            assert(is_digit(dec_nat(b as nat)[0]));
        } else {
            assert(is_digit(dec_nat(a as nat)[0]));
        }
    }
}

}
