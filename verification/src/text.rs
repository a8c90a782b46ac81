//! Character-level helpers on strings, with their specifications.

use vstd::prelude::*;

verus! {

/// `p` occurs in `s` starting at position `i`.
pub open spec fn occurs_at(s: Seq<char>, p: Seq<char>, i: int) -> bool {
    0 <= i && i + p.len() <= s.len() && s.subrange(i, i + p.len()) == p
}

/// `p` occurs somewhere in `s` as a contiguous piece.
pub open spec fn contains_seq(s: Seq<char>, p: Seq<char>) -> bool {
    exists|i: int| occurs_at(s, p, i)
}

/// The part of `s` after the last occurrence of `c`; all of `s` when `c`
/// does not occur in it.
pub open spec fn after_last(s: Seq<char>, c: char) -> Seq<char>
    decreases s.len(),
{
    if s.len() == 0 {
        s
    } else if s.last() == c {
        Seq::empty()
    } else {
        after_last(s.drop_last(), c).push(s.last())
    }
}

/// The decimal digit `d` (for `d < 10`) as a character.
pub open spec fn digit(d: nat) -> char {
    ((d + 48) as u8) as char
}

/// The decimal representation of a natural number, without leading zeros.
pub open spec fn decimal_digits(n: nat) -> Seq<char>
    decreases n,
{
    if n < 10 {
        seq![digit(n)]
    } else {
        decimal_digits(n / 10).push(digit(n % 10))
    }
}

/// The decimal representation of an integer, with a leading `-` when it is
/// negative (what `{}` formatting prints for an integer).
pub open spec fn decimal(n: int) -> Seq<char> {
    if n < 0 {
        seq!['-'] + decimal_digits((-n) as nat)
    } else {
        decimal_digits(n as nat)
    }
}

/// Appends one character to a string.
///
/// Trusted: the body calls `String::push`, and the contract claims what its
/// documentation says, that the string afterwards is the old one with `c`
/// added at the end.
#[verifier::external_body]
pub(crate) fn push_char(s: &mut String, c: char)
    ensures
        final(s)@ == old(s)@.push(c),
{
    s.push(c);
}

/// The characters of `s`, in order.
pub fn chars_of(s: &str) -> (v: Vec<char>)
    ensures
        v@ == s@,
{
    let mut v: Vec<char> = Vec::new();
    for c in it: s.chars()
        invariant
            v@ == it.seq().take(it.index()),
    {
        v.push(c);
    }
    v
}

/// Whether `p` occurs in `s` at position `i`.
fn occurs_at_exec(s: &Vec<char>, p: &Vec<char>, i: usize) -> (r: bool)
    requires
        i + p.len() <= s.len(),
    ensures
        r == occurs_at(s@, p@, i as int),
{
    let mut j: usize = 0;
    while j < p.len()
        invariant
            i + p.len() <= s.len(),
            j <= p.len(),
            forall|k: int| 0 <= k < j ==> s@[i + k] == p@[k],
        decreases p.len() - j,
    {
        if s[i + j] != p[j] {
            assert(s@.subrange(i as int, i + p.len())[j as int] != p@[j as int]);
            return false;
        }
        j += 1;
    }
    assert(s@.subrange(i as int, i + p.len()) =~= p@);
    true
}

/// Whether the character sequence `p` occurs in `s` (`str::contains`).
pub fn contains_chars(s: &Vec<char>, p: &Vec<char>) -> (r: bool)
    ensures
        r == contains_seq(s@, p@),
{
    if p.len() > s.len() {
        return false;
    }
    let last = s.len() - p.len();
    let mut i: usize = 0;
    while i < last
        invariant
            last == s.len() - p.len(),
            i <= last,
            forall|k: int| 0 <= k < i ==> !occurs_at(s@, p@, k),
        decreases last - i,
    {
        if occurs_at_exec(s, p, i) {
            return true;
        }
        i += 1;
    }
    if occurs_at_exec(s, p, last) {
        return true;
    }
    assert forall|k: int| !occurs_at(s@, p@, k) by {
        if 0 <= k && k < i {
        }
    }
    false
}

/// Builds a string from the characters `v[from..to]`.
pub fn string_from_chars(v: &Vec<char>, from: usize, to: usize) -> (s: String)
    requires
        from <= to <= v.len(),
    ensures
        s@ == v@.subrange(from as int, to as int),
{
    let mut s = String::new();
    let mut i: usize = from;
    while i < to
        invariant
            from <= i <= to <= v.len(),
            s@ == v@.subrange(from as int, i as int),
        decreases to - i,
    {
        push_char(&mut s, v[i]);
        assert(v@.subrange(from as int, i + 1) =~= v@.subrange(from as int, i as int).push(v@[i as int]));
        i += 1;
    }
    s
}

proof fn lemma_after_last_split(s: Seq<char>, c: char, i: int)
    requires
        0 <= i <= s.len(),
        forall|j: int| i <= j < s.len() ==> s[j] != c,
    ensures
        after_last(s, c) == after_last(s.take(i), c) + s.subrange(i, s.len() as int),
    decreases s.len() - i,
{
    if i == s.len() {
        assert(s.take(i) =~= s);
        assert(s.subrange(i, s.len() as int) =~= Seq::<char>::empty());
        assert(after_last(s, c) + Seq::<char>::empty() =~= after_last(s, c));
    } else {
        lemma_after_last_split(s, c, i + 1);
        let t = s.take(i + 1);
        assert(t.drop_last() =~= s.take(i));
        assert(t.last() == s[i]);
        assert(after_last(t, c) == after_last(s.take(i), c).push(s[i]));
        assert(after_last(s.take(i), c).push(s[i]) + s.subrange(i + 1, s.len() as int)
            =~= after_last(s.take(i), c) + s.subrange(i, s.len() as int));
    }
}

/// The part of `s` after its last `c`, or all of `s` when there is none
/// (what `s.split(c).last()` returns).
pub fn after_last_char(s: &str, c: char) -> (r: String)
    ensures
        r@ == after_last(s@, c),
{
    let v = chars_of(s);
    let mut i: usize = v.len();
    while i > 0 && v[i - 1] != c
        invariant
            i <= v.len(),
            v@ == s@,
            forall|j: int| i <= j < v.len() ==> v@[j] != c,
        decreases i,
    {
        i -= 1;
    }
    proof {
        lemma_after_last_split(v@, c, i as int);
        if i == 0 {
            assert(v@.take(0) =~= Seq::<char>::empty());
        } else {
            let t = v@.take(i as int);
            assert(t.last() == c);
        }
    }
    string_from_chars(&v, i, v.len())
}

/// Appends the decimal digits of `n` to `s`.
pub fn push_decimal(s: &mut String, n: u64)
    ensures
        final(s)@ == old(s)@ + decimal_digits(n as nat),
    decreases n,
{
    if n >= 10 {
        push_decimal(s, n / 10);
    }
    let d: u8 = (n % 10) as u8;
    let ch: char = (d + 48u8) as char;
    push_char(s, ch);
    proof {
        if n >= 10 {
            assert(decimal_digits(n as nat) == decimal_digits((n / 10) as nat).push(digit((n % 10) as nat)));
        } else {
            assert(decimal_digits(n as nat) == seq![digit(n as nat)]);
        }
    }
}

/// The decimal representation of `n` (what `format!("{}", n)` gives).
pub fn decimal_string(n: i64) -> (s: String)
    ensures
        s@ == decimal(n as int),
{
    let mut s = String::new();
    if n < 0 {
        push_char(&mut s, '-');
        let m: u64 = (0i128 - (n as i128)) as u64;
        push_decimal(&mut s, m);
    } else {
        push_decimal(&mut s, n as u64);
    }
    s
}

/// Every character of a decimal representation is a digit or `-`; none is
/// `c` when `c` is neither.
pub proof fn lemma_decimal_digits_chars(n: nat)
    ensures
        forall|j: int| 0 <= j < decimal_digits(n).len() ==> {
            let ch = #[trigger] decimal_digits(n)[j];
            '0' <= ch <= '9'
        },
        decimal_digits(n).len() >= 1,
        n >= 10 ==> decimal_digits(n).len() >= 2,
    decreases n,
{
    if n >= 10 {
        lemma_decimal_digits_chars(n / 10);
        let d = (n % 10) as nat;
        assert('0' <= digit(d) <= '9');
        assert forall|j: int| 0 <= j < decimal_digits(n).len() implies {
            let ch = #[trigger] decimal_digits(n)[j];
            '0' <= ch <= '9'
        } by {
            if j < decimal_digits(n / 10).len() {
                assert(decimal_digits(n)[j] == decimal_digits(n / 10)[j]);
            }
        }
    } else {
        assert('0' <= digit(n) <= '9');
    }
}

proof fn lemma_digit_injective(a: nat, b: nat)
    requires
        a < 10,
        b < 10,
        digit(a) == digit(b),
    ensures
        a == b,
{
    assert(((a + 48) as u8) as char == ((b + 48) as u8) as char);
    assert(((a + 48) as u8) as u32 == (((a + 48) as u8) as char) as u32);
}

/// Different natural numbers have different decimal representations.
pub proof fn lemma_decimal_digits_injective(a: nat, b: nat)
    requires
        decimal_digits(a) == decimal_digits(b),
    ensures
        a == b,
    decreases a,
{
    lemma_decimal_digits_chars(a);
    lemma_decimal_digits_chars(b);
    if a < 10 && b < 10 {
        assert(decimal_digits(a)[0] == digit(a));
        assert(decimal_digits(b)[0] == digit(b));
        lemma_digit_injective(a, b);
    } else if a >= 10 && b >= 10 {
        let da = decimal_digits(a);
        let db = decimal_digits(b);
        assert(da.last() == digit((a % 10) as nat));
        assert(db.last() == digit((b % 10) as nat));
        lemma_digit_injective((a % 10) as nat, (b % 10) as nat);
        assert(da.drop_last() =~= decimal_digits(a / 10));
        assert(db.drop_last() =~= decimal_digits(b / 10));
        lemma_decimal_digits_injective(a / 10, b / 10);
    }
}

/// Different integers have different decimal representations.
pub proof fn lemma_decimal_injective(a: int, b: int)
    requires
        decimal(a) == decimal(b),
    ensures
        a == b,
{
    let na: nat = if a < 0 { (-a) as nat } else { a as nat };
    let nb: nat = if b < 0 { (-b) as nat } else { b as nat };
    lemma_decimal_digits_chars(na);
    lemma_decimal_digits_chars(nb);
    if a < 0 && b < 0 {
        assert(decimal(a).drop_first() =~= decimal_digits(na));
        assert(decimal(b).drop_first() =~= decimal_digits(nb));
        lemma_decimal_digits_injective(na, nb);
    } else if a >= 0 && b >= 0 {
        lemma_decimal_digits_injective(na, nb);
    } else if a < 0 {
        assert(decimal(a)[0] == '-');
        assert(decimal(b)[0] == decimal_digits(nb)[0]);
    } else {
        assert(decimal(b)[0] == '-');
        assert(decimal(a)[0] == decimal_digits(na)[0]);
    }
}

/// A decimal representation holds only digits and `-`.
pub proof fn lemma_decimal_chars(n: int)
    ensures
        forall|j: int| 0 <= j < decimal(n).len() ==> {
            let ch = #[trigger] decimal(n)[j];
            ('0' <= ch <= '9') || ch == '-'
        },
{
    let m: nat = if n < 0 { (-n) as nat } else { n as nat };
    lemma_decimal_digits_chars(m);
    if n < 0 {
        assert forall|j: int| 0 <= j < decimal(n).len() implies {
            let ch = #[trigger] decimal(n)[j];
            ('0' <= ch <= '9') || ch == '-'
        } by {
            if j > 0 {
                assert(decimal(n)[j] == decimal_digits(m)[j - 1]);
            }
        }
    }
}

/// The number a sequence of decimal digits denotes, read from the left.
pub open spec fn decimal_value(s: Seq<char>) -> int
    decreases s.len(),
{
    if s.len() == 0 {
        0
    } else {
        decimal_value(s.drop_last()) * 10 + ((s.last() as int) - 48)
    }
}

/// `s` is a non-empty run of the characters `0` to `9`.
pub open spec fn all_digits(s: Seq<char>) -> bool {
    s.len() > 0 && forall|i: int| 0 <= i < s.len() ==> '0' <= #[trigger] s[i] <= '9'
}

/// Reading back the decimal representation of `n` gives `n`: it is a
/// non-empty run of digits, without a leading zero unless `n` is 0, that
/// denotes `n`.
pub proof fn lemma_decimal_digits_read_back(n: nat)
    ensures
        all_digits(decimal_digits(n)),
        decimal_value(decimal_digits(n)) == n,
        n > 0 ==> decimal_digits(n)[0] != '0',
    decreases n,
{
    lemma_decimal_digits_chars(n);
    if n < 10 {
        let c = digit(n);
        assert(((n + 48) as u8) as u32 == (((n + 48) as u8) as char) as u32);
        assert((c as int) - 48 == n);
        assert(decimal_digits(n).drop_last() =~= Seq::<char>::empty());
        assert(decimal_value(Seq::<char>::empty()) == 0);
        assert(decimal_value(decimal_digits(n)) == decimal_value(decimal_digits(n).drop_last()) * 10 + (
        (decimal_digits(n).last() as int) - 48));
    } else {
        lemma_decimal_digits_read_back(n / 10);
        let d = (n % 10) as nat;
        assert(((d + 48) as u8) as u32 == (((d + 48) as u8) as char) as u32);
        assert((digit(d) as int) - 48 == d);
        let s = decimal_digits(n);
        assert(s.drop_last() =~= decimal_digits(n / 10));
        assert(s.last() == digit(d));
        assert((n / 10) * 10 + d == n) by (nonlinear_arith)
            requires
                d == n % 10,
        ;
        assert(decimal_value(s) == decimal_value(s.drop_last()) * 10 + ((s.last() as int) - 48));
        assert(decimal_value(s) == decimal_value(decimal_digits(n / 10)) * 10 + d);
        assert(s[0] == decimal_digits(n / 10)[0]);
    }
}

/// A piece occurs in any text made of something, the piece, and something
/// more; a piece longer than a text never occurs in it; the empty piece occurs
/// everywhere.
pub proof fn lemma_contains_seq_cases(a: Seq<char>, p: Seq<char>, b: Seq<char>, s: Seq<char>)
    ensures
        contains_seq(a + p + b, p),
        p.len() > s.len() ==> !contains_seq(s, p),
        contains_seq(s, Seq::<char>::empty()),
{
    let t = a + p + b;
    assert(t.subrange(a.len() as int, a.len() as int + p.len()) =~= p);
    assert(occurs_at(t, p, a.len() as int));
    assert(s.subrange(0, 0) =~= Seq::<char>::empty());
    assert(occurs_at(s, Seq::<char>::empty(), 0));
}

/// Reading back the decimal representation of an integer: a `-` exactly when
/// it is negative, then a run of digits without a leading zero (unless the
/// integer is 0) that denotes its magnitude.
pub proof fn lemma_decimal_read_back(n: int)
    ensures
        n < 0 ==> decimal(n)[0] == '-' && all_digits(decimal(n).drop_first())
            && decimal_value(decimal(n).drop_first()) == -n && decimal(n)[1] != '0',
        n >= 0 ==> all_digits(decimal(n)) && decimal_value(decimal(n)) == n && (n > 0 ==> decimal(n)[0]
            != '0'),
{
    if n < 0 {
        lemma_decimal_digits_read_back((-n) as nat);
        assert(decimal(n).drop_first() =~= decimal_digits((-n) as nat));
    } else {
        lemma_decimal_digits_read_back(n as nat);
    }
}

} // verus!
