//! IPv4 address arithmetic: parsing dotted-quad text, rendering an address
//! back to text, and enumerating an inclusive address range in sequential or
//! shuffled order.

use rand::seq::SliceRandom;
use vstd::prelude::*;
use vstd::seq_lib::group_to_multiset_ensures;

verus! {

/// Whether `c` is a decimal digit.
pub open spec fn is_digit(c: char) -> bool {
    '0' <= c && c <= '9'
}

/// The numeric value of a decimal digit.
pub open spec fn digit_value(c: char) -> int {
    c as int - '0' as int
}

/// The digit character for a value below ten.
pub open spec fn digit_char(d: int) -> char {
    if d == 0 {
        '0'
    } else if d == 1 {
        '1'
    } else if d == 2 {
        '2'
    } else if d == 3 {
        '3'
    } else if d == 4 {
        '4'
    } else if d == 5 {
        '5'
    } else if d == 6 {
        '6'
    } else if d == 7 {
        '7'
    } else if d == 8 {
        '8'
    } else {
        '9'
    }
}

/// The canonical decimal text of a non-negative number: no sign, no leading
/// zeros.
pub open spec fn decimal_text(n: int) -> Seq<char>
    decreases n,
{
    if n < 10 {
        seq![digit_char(n)]
    } else {
        decimal_text(n / 10).push(digit_char(n % 10))
    }
}

/// The numeric value of a run of decimal digits.
pub open spec fn octet_value(s: Seq<char>) -> int
    decreases s.len(),
{
    if s.len() == 0 {
        0
    } else {
        octet_value(s.drop_last()) * 10 + digit_value(s.last())
    }
}

/// Whether `s` is the text of one address octet: one to three digits, no
/// leading zero, value at most 255. This is the only form the parser
/// accepts, matching the canonical form the renderer produces.
pub open spec fn is_octet_text(s: Seq<char>) -> bool {
    1 <= s.len() <= 3 && (forall|k: int| 0 <= k < s.len() ==> is_digit(#[trigger] s[k])) && (s.len()
        > 1 ==> s[0] != '0') && octet_value(s) <= 255
}

/// The position of the first dot at or after `from`; the length of the
/// text when there is none.
pub open spec fn next_dot(s: Seq<char>, from: int) -> int
    decreases s.len() - from,
{
    if from < 0 || from >= s.len() {
        s.len() as int
    } else if s[from] == '.' {
        from
    } else {
        next_dot(s, from + 1)
    }
}

/// Whether `s` is a dotted-quad IPv4 literal: exactly four octet texts
/// separated by exactly three dots.
pub open spec fn is_ipv4_text(s: Seq<char>) -> bool {
    let p1 = next_dot(s, 0);
    let p2 = next_dot(s, p1 + 1);
    let p3 = next_dot(s, p2 + 1);
    let p4 = next_dot(s, p3 + 1);
    p3 < s.len() && p4 == s.len() && is_octet_text(s.subrange(0, p1)) && is_octet_text(
        s.subrange(p1 + 1, p2),
    ) && is_octet_text(s.subrange(p2 + 1, p3)) && is_octet_text(
        s.subrange(p3 + 1, s.len() as int),
    )
}

/// The 32-bit value of a dotted-quad literal; meaningful when
/// `is_ipv4_text` holds.
pub open spec fn ipv4_value_of(s: Seq<char>) -> u32 {
    let p1 = next_dot(s, 0);
    let p2 = next_dot(s, p1 + 1);
    let p3 = next_dot(s, p2 + 1);
    (octet_value(s.subrange(0, p1)) * 16777216 + octet_value(s.subrange(p1 + 1, p2)) * 65536
        + octet_value(s.subrange(p2 + 1, p3)) * 256 + octet_value(
        s.subrange(p3 + 1, s.len() as int),
    )) as u32
}

/// The canonical dotted-quad text of an address.
pub open spec fn ipv4_text(a: u32) -> Seq<char> {
    decimal_text(a as int / 16777216) + seq!['.'] + decimal_text(a as int / 65536 % 256)
        + seq!['.'] + decimal_text(a as int / 256 % 256) + seq!['.'] + decimal_text(a as int % 256)
}

/// The digit character for a value below ten.
fn digit_str(d: u32) -> (r: &'static str)
    requires
        d < 10,
    ensures
        r@ == seq![digit_char(d as int)],
{
    proof {
        reveal_strlit("0");
        reveal_strlit("1");
        reveal_strlit("2");
        reveal_strlit("3");
        reveal_strlit("4");
        reveal_strlit("5");
        reveal_strlit("6");
        reveal_strlit("7");
        reveal_strlit("8");
        reveal_strlit("9");
    }
    match d {
        0 => "0",
        1 => "1",
        2 => "2",
        3 => "3",
        4 => "4",
        5 => "5",
        6 => "6",
        7 => "7",
        8 => "8",
        _ => "9",
    }
}

/// Appends the canonical decimal text of one octet.
fn push_octet_text(s: &mut String, v: u32)
    requires
        v < 256,
    ensures
        final(s)@ == old(s)@ + decimal_text(v as int),
{
    proof {
        reveal_with_fuel(decimal_text, 4);
    }
    let ghost start = s@;
    if v >= 100 {
        s.append(digit_str(v / 100));
        s.append(digit_str(v / 10 % 10));
        s.append(digit_str(v % 10));
        proof {
            assert(v as int / 10 / 10 == v as int / 100);
            assert(s@ =~= start + decimal_text(v as int));
        }
    } else if v >= 10 {
        s.append(digit_str(v / 10));
        s.append(digit_str(v % 10));
        proof {
            assert(s@ =~= start + decimal_text(v as int));
        }
    } else {
        s.append(digit_str(v));
        proof {
            assert(s@ =~= start + decimal_text(v as int));
        }
    }
}

/// The canonical dotted-quad text of an address.
pub fn ipv4_to_string(a: u32) -> (r: String)
    ensures
        r@ == ipv4_text(a),
{
    proof {
        reveal_strlit(".");
    }
    let mut s = String::new();
    push_octet_text(&mut s, a / 16777216);
    s.append(".");
    push_octet_text(&mut s, a / 65536 % 256);
    s.append(".");
    push_octet_text(&mut s, a / 256 % 256);
    s.append(".");
    push_octet_text(&mut s, a % 256);
    proof {
        assert(s@ =~= ipv4_text(a));
    }
    s
}

/// The position of the first dot at or after `from`, as `next_dot`
/// describes it.
fn find_dot(s: &str, from: usize) -> (r: usize)
    requires
        from <= s@.len(),
    ensures
        r == next_dot(s@, from as int),
        from <= r <= s@.len(),
    decreases s@.len() - from,
{
    let n = s.unicode_len();
    if from >= n {
        return n;
    }
    if s.get_char(from) == '.' {
        return from;
    }
    find_dot(s, from + 1)
}

/// Reads one octet of the text between the given character positions;
/// `None` exactly when that stretch is not an octet text.
fn parse_octet(s: &str, lo: usize, hi: usize) -> (r: Option<u32>)
    requires
        lo <= hi <= s@.len(),
    ensures
        match r {
            Option::Some(v) => is_octet_text(s@.subrange(lo as int, hi as int)) && v as int
                == octet_value(s@.subrange(lo as int, hi as int)) && v <= 255,
            Option::None => !is_octet_text(s@.subrange(lo as int, hi as int)),
        },
{
    let ghost seg = s@.subrange(lo as int, hi as int);
    let n = hi - lo;
    if n < 1 || n > 3 {
        return Option::None;
    }
    if n > 1 && s.get_char(lo) == '0' {
        return Option::None;
    }
    let mut v: u32 = 0;
    let mut j: usize = lo;
    while j < hi
        invariant
            lo <= j <= hi <= s@.len(),
            seg == s@.subrange(lo as int, hi as int),
            hi - lo <= 3,
            forall|k: int| lo <= k < j ==> is_digit(#[trigger] s@[k]),
            v as int == octet_value(s@.subrange(lo as int, j as int)),
            j - lo == 0 ==> v == 0,
            j - lo == 1 ==> v <= 9,
            j - lo == 2 ==> v <= 99,
            j - lo == 3 ==> v <= 999,
        decreases hi - j,
    {
        let c = s.get_char(j);
        if c < '0' || c > '9' {
            proof {
                assert(seg[j - lo] == s@[j as int]);
                assert(!is_digit(seg[j - lo]));
            }
            return Option::None;
        }
        proof {
            assert(s@.subrange(lo as int, j + 1).drop_last() =~= s@.subrange(lo as int, j as int));
            assert(s@.subrange(lo as int, j + 1).last() == s@[j as int]);
        }
        v = v * 10 + (c as u32 - 48);
        j = j + 1;
    }
    proof {
        assert(seg =~= s@.subrange(lo as int, hi as int));
        assert(forall|k: int| 0 <= k < seg.len() ==> is_digit(#[trigger] seg[k]));
    }
    if v > 255 {
        return Option::None;
    }
    Option::Some(v)
}

/// Reads a dotted-quad IPv4 literal; `None` exactly when the text is not
/// one.
pub fn parse_ipv4(s: &str) -> (r: Option<u32>)
    ensures
        match r {
            Option::Some(v) => is_ipv4_text(s@) && v == ipv4_value_of(s@),
            Option::None => !is_ipv4_text(s@),
        },
{
    let n = s.unicode_len();
    let p1 = find_dot(s, 0);
    if p1 >= n {
        return Option::None;
    }
    let p2 = find_dot(s, p1 + 1);
    if p2 >= n {
        return Option::None;
    }
    let p3 = find_dot(s, p2 + 1);
    if p3 >= n {
        return Option::None;
    }
    let p4 = find_dot(s, p3 + 1);
    if p4 < n {
        return Option::None;
    }
    let o0 = match parse_octet(s, 0, p1) {
        Option::Some(v) => v,
        Option::None => {
            return Option::None;
        },
    };
    let o1 = match parse_octet(s, p1 + 1, p2) {
        Option::Some(v) => v,
        Option::None => {
            return Option::None;
        },
    };
    let o2 = match parse_octet(s, p2 + 1, p3) {
        Option::Some(v) => v,
        Option::None => {
            return Option::None;
        },
    };
    let o3 = match parse_octet(s, p3 + 1, n) {
        Option::Some(v) => v,
        Option::None => {
            return Option::None;
        },
    };
    Option::Some(o0 * 16777216 + o1 * 65536 + o2 * 256 + o3)
}

/// An inclusive range of addresses; a range whose start lies above its end
/// holds no address at all.
#[derive(Debug, Clone, Copy, PartialEq, Eq, Structural)]
pub struct AddressRange {
    pub start: u32,
    pub end: u32,
}

/// The order in which the enumerated addresses are visited.
#[derive(Debug, Clone, Copy, PartialEq, Eq, Structural)]
pub enum TraversalOrder {
    Sequential,
    Shuffled,
}

/// The addresses of the range in ascending order.
pub open spec fn sequential_addresses(range: AddressRange) -> Seq<u32> {
    if range.start <= range.end {
        Seq::new((range.end - range.start + 1) as nat, |i: int| (range.start + i) as u32)
    } else {
        Seq::empty()
    }
}

impl AddressRange {
    /// Every address of the range, in ascending order.
    pub fn enumerate(&self) -> (r: Vec<u32>)
        ensures
            r@ == sequential_addresses(*self),
    {
        let mut v: Vec<u32> = Vec::new();
        if self.start > self.end {
            proof {
                assert(v@ =~= sequential_addresses(*self));
            }
            return v;
        }
        let mut cur = self.start;
        while cur < self.end
            invariant
                self.start <= cur <= self.end,
                v@.len() == cur - self.start,
                forall|i: int| 0 <= i < v@.len() ==> v@[i] == self.start + i,
            decreases self.end - cur,
        {
            v.push(cur);
            cur = cur + 1;
        }
        v.push(cur);
        proof {
            assert(v@ =~= sequential_addresses(*self));
        }
        v
    }

    /// Every address of the range, in ascending order when `Sequential`, and
    /// in some permutation of that order when `Shuffled`: the same addresses
    /// are visited either way.
    pub fn addresses(&self, order: TraversalOrder) -> (r: Vec<u32>)
        ensures
            r@.to_multiset() == sequential_addresses(*self).to_multiset(),
            order is Sequential ==> r@ == sequential_addresses(*self),
    {
        let mut v = self.enumerate();
        match order {
            TraversalOrder::Sequential => v,
            TraversalOrder::Shuffled => {
                shuffle_in_place(&mut v);
                v
            },
        }
    }
}

/// Relies on rand's `SliceRandom::shuffle` (a Fisher-Yates shuffle drawn
/// from the thread-local generator): it permutes the slice in place, so the
/// multiset of elements is unchanged whatever order comes out.
#[verifier::external_body]
fn shuffle_in_place(v: &mut Vec<u32>)
    ensures
        final(v)@.to_multiset() == old(v)@.to_multiset(),
{
    v.shuffle(&mut rand::thread_rng());
}

/// Every address of a range occurs exactly once in any traversal of it:
/// whatever order the addresses come in, an address inside the bounds is
/// visited exactly once and one outside them never.
pub proof fn lemma_address_coverage(visited: Seq<u32>, range: AddressRange, a: u32)
    requires
        range.start <= range.end,
        visited.to_multiset() == sequential_addresses(range).to_multiset(),
    ensures
        visited.len() == range.end - range.start + 1,
        visited.to_multiset().count(a) == if range.start <= a <= range.end {
            1nat
        } else {
            0nat
        },
{
    broadcast use group_to_multiset_ensures;

    let s = sequential_addresses(range);
    assert(s.len() == range.end - range.start + 1);
    assert(visited.len() == visited.to_multiset().len());
    assert(s.len() == s.to_multiset().len());
    assert(s.no_duplicates());
    s.lemma_multiset_has_no_duplicates();
    if range.start <= a <= range.end {
        assert(s[a - range.start] == a);
        assert(s.contains(a));
        assert(s.to_multiset().count(a) == 1);
    } else {
        assert(forall|i: int| 0 <= i < s.len() ==> s[i] != a);
        assert(!s.contains(a));
        assert(s.to_multiset().count(a) == 0);
    }
}


/// A digit character is a digit, is not a dot, and reads back to its value.
proof fn lemma_digit_char(d: int)
    requires
        0 <= d <= 9,
    ensures
        is_digit(digit_char(d)),
        digit_value(digit_char(d)) == d,
        digit_char(d) != '.',
        d >= 1 ==> digit_char(d) != '0',
{
}

/// The decimal text of an octet value is an octet text that reads back to
/// the same value.
proof fn lemma_decimal_text_octet(n: int)
    requires
        0 <= n <= 255,
    ensures
        ({
            let t = decimal_text(n);
            t.len() == (if n < 10 { 1int } else if n < 100 { 2int } else { 3int }) && (forall|k: int|
                0 <= k < t.len() ==> is_digit(#[trigger] t[k]) && t[k] != '.') && (t.len() > 1
                ==> t[0] != '0') && octet_value(t) == n && (n >= 1 ==> t[0] != '0')
        }),
    decreases n,
{
    reveal_with_fuel(octet_value, 3);
    let t = decimal_text(n);
    if n < 10 {
        lemma_digit_char(n);
        assert(t =~= seq![digit_char(n)]);
        assert(t.drop_last() =~= Seq::<char>::empty());
        assert(t.last() == digit_char(n));
        assert(octet_value(t) == n);
    } else {
        lemma_decimal_text_octet(n / 10);
        lemma_digit_char(n % 10);
        let u = decimal_text(n / 10);
        assert(t == u.push(digit_char(n % 10)));
        assert(t.drop_last() =~= u);
        assert(t.last() == digit_char(n % 10));
        assert(octet_value(t) == octet_value(u) * 10 + (n % 10));
        assert(t[0] == u[0]);
        assert(n / 10 >= 1);
    }
}

/// `next_dot` lands on `p` when no dot stands before `p` and either a dot
/// stands at `p` or `p` is the end of the text.
proof fn lemma_next_dot_finds(s: Seq<char>, from: int, p: int)
    requires
        0 <= from <= p <= s.len(),
        forall|k: int| from <= k < p ==> #[trigger] s[k] != '.',
        p == s.len() || s[p] == '.',
    ensures
        next_dot(s, from) == p,
    decreases p - from,
{
    if from < p {
        lemma_next_dot_finds(s, from + 1, p);
    }
}

/// Rendering an address yields a dotted-quad literal that the parser
/// accepts and reads back to the same address: the renderer and the parser
/// agree with each other.
pub proof fn lemma_ipv4_text_roundtrip(a: u32)
    ensures
        is_ipv4_text(ipv4_text(a)),
        ipv4_value_of(ipv4_text(a)) == a,
{
    let x = a as int;
    let o0 = x / 16777216;
    let o1 = x / 65536 % 256;
    let o2 = x / 256 % 256;
    let o3 = x % 256;
    lemma_decimal_text_octet(o0);
    lemma_decimal_text_octet(o1);
    lemma_decimal_text_octet(o2);
    lemma_decimal_text_octet(o3);
    let t0 = decimal_text(o0);
    let t1 = decimal_text(o1);
    let t2 = decimal_text(o2);
    let t3 = decimal_text(o3);
    let s = ipv4_text(a);
    let p1 = t0.len() as int;
    let p2 = p1 + 1 + t1.len();
    let p3 = p2 + 1 + t2.len();
    assert(s == t0 + seq!['.'] + t1 + seq!['.'] + t2 + seq!['.'] + t3);
    assert(s.len() == p3 + 1 + t3.len());
    assert(s[p1] == '.' && s[p2] == '.' && s[p3] == '.');
    assert forall|k: int| 0 <= k < p1 implies #[trigger] s[k] != '.' by {
        assert(s[k] == t0[k]);
    }
    assert forall|k: int| p1 + 1 <= k < p2 implies #[trigger] s[k] != '.' by {
        assert(s[k] == t1[k - (p1 + 1)]);
    }
    assert forall|k: int| p2 + 1 <= k < p3 implies #[trigger] s[k] != '.' by {
        assert(s[k] == t2[k - (p2 + 1)]);
    }
    assert forall|k: int| p3 + 1 <= k < s.len() implies #[trigger] s[k] != '.' by {
        assert(s[k] == t3[k - (p3 + 1)]);
    }
    lemma_next_dot_finds(s, 0, p1);
    lemma_next_dot_finds(s, p1 + 1, p2);
    lemma_next_dot_finds(s, p2 + 1, p3);
    lemma_next_dot_finds(s, p3 + 1, s.len() as int);
    assert(s.subrange(0, p1) =~= t0);
    assert(s.subrange(p1 + 1, p2) =~= t1);
    assert(s.subrange(p2 + 1, p3) =~= t2);
    assert(s.subrange(p3 + 1, s.len() as int) =~= t3);
    assert(is_ipv4_text(s));
    vstd::arithmetic::div_mod::lemma_fundamental_div_mod(x, 16777216);
    vstd::arithmetic::div_mod::lemma_mod_breakdown(x, 65536, 256);
    vstd::arithmetic::div_mod::lemma_mod_breakdown(x, 256, 256);
    assert(65536 * 256 == 16777216) by (nonlinear_arith);
    assert(256 * 256 == 65536) by (nonlinear_arith);
    assert(x == o0 * 16777216 + o1 * 65536 + o2 * 256 + o3);
    assert(ipv4_value_of(s) == a);
}


/// A digit character reads back to itself through its value.
proof fn lemma_digit_char_value(c: char)
    requires
        is_digit(c),
    ensures
        digit_char(digit_value(c)) == c,
{
}

/// A run of digits has a non-negative value, positive when its first digit
/// is not zero.
proof fn lemma_octet_value_bounds(t: Seq<char>)
    requires
        forall|k: int| 0 <= k < t.len() ==> is_digit(#[trigger] t[k]),
    ensures
        octet_value(t) >= 0,
        t.len() > 0 && t[0] != '0' ==> octet_value(t) >= 1,
    decreases t.len(),
{
    if t.len() > 0 {
        lemma_octet_value_bounds(t.drop_last());
        assert(t.drop_last().len() > 0 ==> t.drop_last()[0] == t[0]);
        assert(is_digit(t.last()));
    }
}

/// An octet text is the canonical decimal text of its own value: reading
/// and rendering are mutually inverse on octets.
proof fn lemma_decimal_text_inverse(t: Seq<char>)
    requires
        t.len() >= 1,
        forall|k: int| 0 <= k < t.len() ==> is_digit(#[trigger] t[k]),
        t.len() > 1 ==> t[0] != '0',
    ensures
        decimal_text(octet_value(t)) == t,
    decreases t.len(),
{
    reveal_with_fuel(octet_value, 2);
    let n = octet_value(t);
    lemma_octet_value_bounds(t);
    if t.len() == 1 {
        lemma_digit_char_value(t[0]);
        assert(t.drop_last() =~= Seq::<char>::empty());
        assert(t.last() == t[0]);
        assert(n == digit_value(t[0]));
        assert(decimal_text(n) =~= t);
    } else {
        let u = t.drop_last();
        assert(u[0] == t[0]);
        lemma_decimal_text_inverse(u);
        lemma_octet_value_bounds(u);
        let v = octet_value(u);
        let d = digit_value(t.last());
        assert(is_digit(t.last()));
        assert(n == v * 10 + d);
        vstd::arithmetic::div_mod::lemma_fundamental_div_mod_converse(n, 10, v, d);
        lemma_digit_char_value(t.last());
        assert(decimal_text(n) == decimal_text(v).push(digit_char(d)));
        assert(decimal_text(n) =~= t);
    }
}

/// `next_dot` lands on a dot (or the end of the text), and on the first one.
proof fn lemma_next_dot_props(s: Seq<char>, from: int)
    requires
        0 <= from,
    ensures
        ({
            let p = next_dot(s, from);
            p <= s.len() && (from <= s.len() ==> from <= p) && (p < s.len() ==> s[p] == '.')
                && forall|k: int| from <= k < p ==> #[trigger] s[k] != '.'
        }),
    decreases s.len() - from,
{
    if from < s.len() && s[from] != '.' {
        lemma_next_dot_props(s, from + 1);
    }
}

/// Every dotted-quad literal is exactly the rendering of its own value: the
/// parser accepts nothing but what `ipv4_to_string` would produce.
#[verifier::rlimit(50)]
pub proof fn lemma_ipv4_text_canonical(s: Seq<char>)
    requires
        is_ipv4_text(s),
    ensures
        ipv4_text(ipv4_value_of(s)) == s,
{
    let p1 = next_dot(s, 0);
    let p2 = next_dot(s, p1 + 1);
    let p3 = next_dot(s, p2 + 1);
    lemma_next_dot_props(s, 0);
    lemma_next_dot_props(s, p1 + 1);
    lemma_next_dot_props(s, p2 + 1);
    let t0 = s.subrange(0, p1);
    let t1 = s.subrange(p1 + 1, p2);
    let t2 = s.subrange(p2 + 1, p3);
    let t3 = s.subrange(p3 + 1, s.len() as int);
    let o0 = octet_value(t0);
    let o1 = octet_value(t1);
    let o2 = octet_value(t2);
    let o3 = octet_value(t3);
    lemma_octet_value_bounds(t0);
    lemma_octet_value_bounds(t1);
    lemma_octet_value_bounds(t2);
    lemma_octet_value_bounds(t3);
    lemma_decimal_text_inverse(t0);
    lemma_decimal_text_inverse(t1);
    lemma_decimal_text_inverse(t2);
    lemma_decimal_text_inverse(t3);
    let x = o0 * 16777216 + o1 * 65536 + o2 * 256 + o3;
    assert(0 <= x <= 0xffffffff);
    let a = ipv4_value_of(s);
    assert(a as int == x);
    vstd::arithmetic::div_mod::lemma_fundamental_div_mod_converse(
        x,
        16777216,
        o0,
        o1 * 65536 + o2 * 256 + o3,
    );
    assert(o0 * 16777216 + o1 * 65536 + o2 * 256 + o3 == (o0 * 256 + o1) * 65536 + (o2 * 256
        + o3)) by (nonlinear_arith);
    vstd::arithmetic::div_mod::lemma_fundamental_div_mod_converse(
        x,
        65536,
        o0 * 256 + o1,
        o2 * 256 + o3,
    );
    vstd::arithmetic::div_mod::lemma_fundamental_div_mod_converse(o0 * 256 + o1, 256, o0, o1);
    assert(o0 * 16777216 + o1 * 65536 + o2 * 256 + o3 == (o0 * 65536 + o1 * 256 + o2) * 256
        + o3) by (nonlinear_arith);
    vstd::arithmetic::div_mod::lemma_fundamental_div_mod_converse(
        x,
        256,
        o0 * 65536 + o1 * 256 + o2,
        o3,
    );
    vstd::arithmetic::div_mod::lemma_fundamental_div_mod_converse(
        o0 * 65536 + o1 * 256 + o2,
        256,
        o0 * 256 + o1,
        o2,
    );
    assert(a as int / 16777216 == o0);
    assert(a as int / 65536 % 256 == o1);
    assert(a as int / 256 % 256 == o2);
    assert(a as int % 256 == o3);
    assert(ipv4_text(a) =~= s);
}

} // verus!
