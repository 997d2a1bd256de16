//! IPv4 addresses in dotted-decimal notation: the address type that records
//! and answers carry, the text form that configurations use, and the laws
//! that tie the two together.

use vstd::prelude::*;
use crate::text::{chars_of, decimal, digit_char, push_decimal};

verus! {

/// An IPv4 address, as its four octets in network order.
#[derive(Clone, Copy, Debug, PartialEq, Eq, Structural)]
pub struct Ipv4(pub u8, pub u8, pub u8, pub u8);

/// `c` is an ASCII decimal digit.
pub open spec fn is_digit(c: char) -> bool {
    '0' <= c <= '9'
}

/// The value of the decimal digit `c`.
pub open spec fn digit_value(c: char) -> nat {
    (c as nat - '0' as nat) as nat
}

/// The number that the digits `s` denote.
pub open spec fn decimal_value(s: Seq<char>) -> nat
    decreases s.len(),
{
    if s.len() == 0 {
        0
    } else {
        decimal_value(s.drop_last()) * 10 + digit_value(s.last())
    }
}

/// `s` is one field of a dotted-decimal address: one to three digits, no
/// leading zero unless the field is `0` itself, and a value of at most 255.
pub open spec fn is_octet_text(s: Seq<char>) -> bool {
    &&& 1 <= s.len() <= 3
    &&& forall|i: int| 0 <= i < s.len() ==> is_digit(#[trigger] s[i])
    &&& s.len() > 1 ==> s[0] != '0'
    &&& decimal_value(s) <= 255
}

/// The pieces of `s` between its dots, in order (one more piece than dots).
pub open spec fn dot_fields(s: Seq<char>) -> Seq<Seq<char>>
    decreases s.len(),
{
    if s.len() == 0 {
        seq![Seq::<char>::empty()]
    } else {
        let fields = dot_fields(s.drop_last());
        if s.last() == '.' {
            fields.push(Seq::<char>::empty())
        } else {
            fields.update(fields.len() - 1, fields.last().push(s.last()))
        }
    }
}

/// The address that the text `s` denotes in dotted-decimal notation, if any:
/// exactly four fields separated by dots, each an octet text.
pub open spec fn parsed_ipv4(s: Seq<char>) -> Option<Ipv4> {
    let f = dot_fields(s);
    if f.len() == 4 && forall|i: int| 0 <= i < 4 ==> is_octet_text(#[trigger] f[i]) {
        Some(
            Ipv4(
                decimal_value(f[0]) as u8,
                decimal_value(f[1]) as u8,
                decimal_value(f[2]) as u8,
                decimal_value(f[3]) as u8,
            ),
        )
    } else {
        None
    }
}

/// The dotted-decimal text of `ip`.
pub open spec fn ipv4_text(ip: Ipv4) -> Seq<char> {
    decimal(ip.0 as nat) + seq!['.'] + decimal(ip.1 as nat) + seq!['.'] + decimal(ip.2 as nat)
        + seq!['.'] + decimal(ip.3 as nat)
}

impl Ipv4 {
    /// The address with the octets `a.b.c.d`.
    pub fn new(a: u8, b: u8, c: u8, d: u8) -> (ip: Ipv4)
        ensures
            ip == Ipv4(a, b, c, d),
    {
        Ipv4(a, b, c, d)
    }

    /// The four octets, in network order.
    pub fn octets(&self) -> (o: [u8; 4])
        ensures
            o@ == seq![self.0, self.1, self.2, self.3],
    {
        let o = [self.0, self.1, self.2, self.3];
        assert(o@ =~= seq![self.0, self.1, self.2, self.3]);
        o
    }
}

/// The texts held by a sequence of character vectors.
pub open spec fn texts(v: Seq<Vec<char>>) -> Seq<Seq<char>> {
    Seq::new(v.len(), |i: int| v[i]@)
}

proof fn lemma_dot_fields_nonempty(s: Seq<char>)
    ensures
        dot_fields(s).len() >= 1,
    decreases s.len(),
{
    if s.len() > 0 {
        lemma_dot_fields_nonempty(s.drop_last());
    }
}

/// Splits `s` at its dots.
fn split_dots(s: &[char]) -> (fields: Vec<Vec<char>>)
    ensures
        texts(fields@) == dot_fields(s@),
{
    let mut done: Vec<Vec<char>> = Vec::new();
    let mut current: Vec<char> = Vec::new();
    let mut i: usize = 0;
    assert(s@.take(0) =~= Seq::<char>::empty());
    assert(texts(done@).push(current@) =~= dot_fields(s@.take(0)));
    while i < s.len()
        invariant
            i <= s.len(),
            texts(done@).push(current@) == dot_fields(s@.take(i as int)),
        decreases s.len() - i,
    {
        let c = s[i];
        let ghost before = dot_fields(s@.take(i as int));
        assert(s@.take(i + 1).drop_last() =~= s@.take(i as int));
        assert(s@.take(i + 1).last() == c);
        proof {
            lemma_dot_fields_nonempty(s@.take(i as int));
        }
        if c == '.' {
            let ghost old_done = texts(done@);
            done.push(current);
            current = Vec::new();
            assert(texts(done@) =~= old_done.push(before.last()));
            assert(texts(done@).push(current@) =~= dot_fields(s@.take(i + 1)));
        } else {
            current.push(c);
            assert(texts(done@).push(current@) =~= dot_fields(s@.take(i + 1)));
        }
        i = i + 1;
    }
    assert(s@.take(s.len() as int) =~= s@);
    let ghost old_done = texts(done@);
    done.push(current);
    assert(texts(done@) =~= dot_fields(s@));
    done
}

/// The value of one field of a dotted-decimal address, if it is an octet text.
fn octet_value(f: &[char]) -> (r: Option<u8>)
    ensures
        r is Some <==> is_octet_text(f@),
        r matches Some(v) ==> v == decimal_value(f@),
{
    if f.len() == 0 || f.len() > 3 {
        return None;
    }
    if f.len() > 1 && f[0] == '0' {
        return None;
    }
    let mut value: u32 = 0;
    let mut i: usize = 0;
    while i < f.len()
        invariant
            1 <= f.len() <= 3,
            i <= f.len(),
            forall|j: int| 0 <= j < i ==> is_digit(#[trigger] f@[j]),
            value == decimal_value(f@.take(i as int)),
            value < 1000,
            i == 0 ==> value == 0,
            i == 1 ==> value < 10,
            i == 2 ==> value < 100,
        decreases f.len() - i,
    {
        let c = f[i];
        if !('0' <= c && c <= '9') {
            return None;
        }
        assert(f@.take(i + 1).drop_last() =~= f@.take(i as int));
        value = value * 10 + (c as u32 - '0' as u32);
        i = i + 1;
    }
    assert(f@.take(f.len() as int) =~= f@);
    if value > 255 {
        return None;
    }
    Some(value as u8)
}

/// Parses `s` as an IPv4 address in dotted-decimal notation.
pub fn parse_ipv4(s: &str) -> (r: Option<Ipv4>)
    ensures
        r == parsed_ipv4(s@),
{
    let chars = chars_of(s);
    let fields = split_dots(chars.as_slice());
    if fields.len() != 4 {
        return None;
    }
    assert(fields[0]@ == dot_fields(s@)[0]);
    assert(fields[1]@ == dot_fields(s@)[1]);
    assert(fields[2]@ == dot_fields(s@)[2]);
    assert(fields[3]@ == dot_fields(s@)[3]);
    let a = match octet_value(fields[0].as_slice()) {
        Some(v) => v,
        None => return None,
    };
    let b = match octet_value(fields[1].as_slice()) {
        Some(v) => v,
        None => return None,
    };
    let c = match octet_value(fields[2].as_slice()) {
        Some(v) => v,
        None => return None,
    };
    let d = match octet_value(fields[3].as_slice()) {
        Some(v) => v,
        None => return None,
    };
    assert(forall|i: int| 0 <= i < 4 ==> is_octet_text(#[trigger] dot_fields(s@)[i])) by {
        assert forall|i: int| 0 <= i < 4 implies is_octet_text(#[trigger] dot_fields(s@)[i]) by {
            if i == 0 {} else if i == 1 {} else if i == 2 {} else {}
        }
    }
    Some(Ipv4(a, b, c, d))
}

/// Appends the dotted-decimal text of `ip` to `s`.
pub fn push_ipv4(s: &mut String, ip: Ipv4)
    ensures
        final(s)@ == old(s)@ + ipv4_text(ip),
{
    push_decimal(s, ip.0 as u64);
    s.push('.');
    push_decimal(s, ip.1 as u64);
    s.push('.');
    push_decimal(s, ip.2 as u64);
    s.push('.');
    push_decimal(s, ip.3 as u64);
    assert(final(s)@ =~= old(s)@ + ipv4_text(ip));
}

/// The dotted-decimal text of `ip`.
pub fn ipv4_to_string(ip: Ipv4) -> (s: String)
    ensures
        s@ == ipv4_text(ip),
{
    let mut s = String::new();
    push_ipv4(&mut s, ip);
    assert(s@ =~= ipv4_text(ip));
    s
}

/// The pieces `f` joined with a dot between each two.
pub open spec fn join_dots(f: Seq<Seq<char>>) -> Seq<char>
    decreases f.len(),
{
    if f.len() == 0 {
        Seq::<char>::empty()
    } else if f.len() == 1 {
        f[0]
    } else {
        join_dots(f.drop_last()) + seq!['.'] + f.last()
    }
}

proof fn lemma_dot_fields_concat(x: Seq<char>, y: Seq<char>)
    ensures
        dot_fields(x + seq!['.'] + y) == dot_fields(x) + dot_fields(y),
    decreases y.len(),
{
    lemma_dot_fields_nonempty(x);
    let z = x + seq!['.'] + y;
    if y.len() == 0 {
        assert(z.drop_last() =~= x);
        assert(dot_fields(y) =~= seq![Seq::<char>::empty()]);
        assert(dot_fields(z) =~= dot_fields(x) + dot_fields(y));
    } else {
        assert(z.drop_last() =~= x + seq!['.'] + y.drop_last());
        lemma_dot_fields_concat(x, y.drop_last());
        lemma_dot_fields_nonempty(y.drop_last());
        assert(dot_fields(z) =~= dot_fields(x) + dot_fields(y));
    }
}

proof fn lemma_dot_fields_without_dot(y: Seq<char>)
    requires
        forall|i: int| 0 <= i < y.len() ==> y[i] != '.',
    ensures
        dot_fields(y) == seq![y],
    decreases y.len(),
{
    if y.len() > 0 {
        lemma_dot_fields_without_dot(y.drop_last());
        assert(y.drop_last().push(y.last()) =~= y);
        assert(dot_fields(y) =~= seq![y]);
    } else {
        assert(y =~= Seq::<char>::empty());
        assert(dot_fields(y) =~= seq![y]);
    }
}

proof fn lemma_digit_char(d: nat)
    requires
        d < 10,
    ensures
        is_digit(digit_char(d)),
        digit_value(digit_char(d)) == d,
        d >= 1 ==> digit_char(d) != '0',
{
}

proof fn lemma_digit_value(c: char)
    requires
        is_digit(c),
    ensures
        digit_value(c) < 10,
        digit_char(digit_value(c)) == c,
{
}

/// Facts about the decimal text of a number.
proof fn lemma_decimal(n: nat)
    ensures
        decimal(n).len() >= 1,
        forall|i: int| 0 <= i < decimal(n).len() ==> is_digit(#[trigger] decimal(n)[i]),
        decimal_value(decimal(n)) == n,
        n >= 1 ==> decimal(n)[0] != '0',
        n < 10 ==> decimal(n).len() == 1,
        n < 100 ==> decimal(n).len() <= 2,
        n < 1000 ==> decimal(n).len() <= 3,
    decreases n,
{
    if n < 10 {
        lemma_digit_char(n);
        assert(decimal(n).drop_last() =~= Seq::<char>::empty());
        assert(decimal_value(Seq::<char>::empty()) == 0);
        assert(decimal_value(decimal(n)) == digit_value(digit_char(n)));
    } else {
        lemma_decimal(n / 10);
        lemma_digit_char(n % 10);
        let d = decimal(n);
        assert(d.drop_last() =~= decimal(n / 10));
        assert forall|i: int| 0 <= i < d.len() implies is_digit(#[trigger] d[i]) by {
            if i < d.len() - 1 {
                assert(d[i] == decimal(n / 10)[i]);
            }
        }
        assert(d.last() == digit_char(n % 10));
        assert(decimal_value(d) == decimal_value(decimal(n / 10)) * 10 + digit_value(d.last()));
        assert(n == (n / 10) * 10 + n % 10);
    }
}

proof fn lemma_value_positive(t: Seq<char>)
    requires
        t.len() >= 1,
        forall|i: int| 0 <= i < t.len() ==> is_digit(#[trigger] t[i]),
        t[0] != '0',
    ensures
        decimal_value(t) >= 1,
    decreases t.len(),
{
    if t.len() > 1 {
        let u = t.drop_last();
        assert(u[0] == t[0]);
        assert forall|i: int| 0 <= i < u.len() implies is_digit(#[trigger] u[i]) by {
            assert(u[i] == t[i]);
        }
        lemma_value_positive(u);
    } else {
        assert(t.drop_last() =~= Seq::<char>::empty());
    }
}

/// Digits without a leading zero are the decimal text of their value.
proof fn lemma_decimal_of_value(t: Seq<char>)
    requires
        t.len() >= 1,
        forall|i: int| 0 <= i < t.len() ==> is_digit(#[trigger] t[i]),
        t.len() > 1 ==> t[0] != '0',
    ensures
        decimal(decimal_value(t)) == t,
    decreases t.len(),
{
    lemma_digit_value(t.last());
    if t.len() == 1 {
        assert(t.drop_last() =~= Seq::<char>::empty());
        assert(decimal_value(Seq::<char>::empty()) == 0);
        assert(decimal_value(t) == digit_value(t[0]));
        assert(decimal(decimal_value(t)) == seq![digit_char(digit_value(t[0]))]);
        assert(decimal(decimal_value(t)) =~= t);
    } else {
        let u = t.drop_last();
        assert(u[0] == t[0]);
        assert forall|i: int| 0 <= i < u.len() implies is_digit(#[trigger] u[i]) by {
            assert(u[i] == t[i]);
        }
        lemma_value_positive(u);
        lemma_decimal_of_value(u);
        let v = decimal_value(t);
        let w = decimal_value(u);
        let d = digit_value(t.last());
        assert(v == w * 10 + d);
        assert(v / 10 == w && v % 10 == d) by (nonlinear_arith)
            requires
                v == w * 10 + d,
                d < 10,
        ;
        assert(u.push(t.last()) =~= t);
    }
}

proof fn lemma_octet_text(n: u8)
    ensures
        is_octet_text(decimal(n as nat)),
        decimal_value(decimal(n as nat)) == n,
        forall|i: int| 0 <= i < decimal(n as nat).len() ==> #[trigger] decimal(n as nat)[i] != '.',
{
    lemma_decimal(n as nat);
    assert forall|i: int| 0 <= i < decimal(n as nat).len() implies #[trigger] decimal(n as nat)[i]
        != '.' by {
        assert(is_digit(decimal(n as nat)[i]));
    }
}

/// The dotted-decimal text of an address is read back as that address.
pub proof fn law_text_then_parse(ip: Ipv4)
    ensures
        parsed_ipv4(ipv4_text(ip)) == Some(ip),
{
    let d0 = decimal(ip.0 as nat);
    let d1 = decimal(ip.1 as nat);
    let d2 = decimal(ip.2 as nat);
    let d3 = decimal(ip.3 as nat);
    lemma_octet_text(ip.0);
    lemma_octet_text(ip.1);
    lemma_octet_text(ip.2);
    lemma_octet_text(ip.3);
    lemma_dot_fields_without_dot(d0);
    lemma_dot_fields_without_dot(d1);
    lemma_dot_fields_without_dot(d2);
    lemma_dot_fields_without_dot(d3);
    let x1 = d0 + seq!['.'] + d1;
    let x2 = x1 + seq!['.'] + d2;
    lemma_dot_fields_concat(d0, d1);
    lemma_dot_fields_concat(x1, d2);
    lemma_dot_fields_concat(x2, d3);
    assert(ipv4_text(ip) == x2 + seq!['.'] + d3);
    let f = dot_fields(ipv4_text(ip));
    assert(f =~= seq![d0, d1, d2, d3]);
    assert forall|i: int| 0 <= i < 4 implies is_octet_text(#[trigger] f[i]) by {
        if i == 0 {} else if i == 1 {} else if i == 2 {} else {}
    }
}

proof fn lemma_join_dot_fields(s: Seq<char>)
    ensures
        join_dots(dot_fields(s)) == s,
    decreases s.len(),
{
    if s.len() == 0 {
        assert(join_dots(dot_fields(s)) =~= s);
    } else {
        let u = s.drop_last();
        let c = s.last();
        let g = dot_fields(u);
        let f = dot_fields(s);
        lemma_join_dot_fields(u);
        lemma_dot_fields_nonempty(u);
        if c == '.' {
            assert(f.drop_last() =~= g);
            assert(join_dots(f) =~= s);
        } else if g.len() == 1 {
            assert(s =~= u.push(c));
            assert(join_dots(f) == f[0]);
            assert(join_dots(f) =~= s);
        } else {
            assert(f.drop_last() =~= g.drop_last());
            assert(join_dots(f) =~= s);
        }
    }
}

/// Every text read as an address is the dotted-decimal text of that address:
/// the notation has one spelling per address.
pub proof fn law_parse_then_text(s: Seq<char>)
    requires
        parsed_ipv4(s) is Some,
    ensures
        ipv4_text(parsed_ipv4(s)->0) == s,
{
    let f = dot_fields(s);
    assert(is_octet_text(f[0]));
    assert(is_octet_text(f[1]));
    assert(is_octet_text(f[2]));
    assert(is_octet_text(f[3]));
    lemma_decimal_of_value(f[0]);
    lemma_decimal_of_value(f[1]);
    lemma_decimal_of_value(f[2]);
    lemma_decimal_of_value(f[3]);
    lemma_join_dot_fields(s);
    assert(f.drop_last().drop_last().drop_last() =~= seq![f[0]]);
    assert(f.drop_last().drop_last() =~= seq![f[0], f[1]]);
    assert(f.drop_last() =~= seq![f[0], f[1], f[2]]);
    assert(join_dots(seq![f[0]]) == f[0]);
    assert(join_dots(f.drop_last().drop_last()) == f[0] + seq!['.'] + f[1]);
    assert(join_dots(f.drop_last()) == f[0] + seq!['.'] + f[1] + seq!['.'] + f[2]);
    assert(join_dots(f) == f[0] + seq!['.'] + f[1] + seq!['.'] + f[2] + seq!['.'] + f[3]);
}

} // verus!
