use vstd::prelude::*;
use std::cmp::Ordering;
use crate::models::Print;

verus! {

/// Lexicographic order of two character sequences, by code point.
pub open spec fn lex_cmp(a: Seq<char>, b: Seq<char>) -> Ordering
    decreases a.len(),
{
    if a.len() == 0 {
        if b.len() == 0 { Ordering::Equal } else { Ordering::Less }
    } else if b.len() == 0 {
        Ordering::Greater
    } else if a[0] < b[0] {
        Ordering::Less
    } else if a[0] > b[0] {
        Ordering::Greater
    } else {
        lex_cmp(a.drop_first(), b.drop_first())
    }
}

/// The order of two integers.
pub open spec fn int_cmp(a: int, b: int) -> Ordering {
    if a < b { Ordering::Less } else if a > b { Ordering::Greater } else { Ordering::Equal }
}

/// The reverse of an order.
pub open spec fn flipped(o: Ordering) -> Ordering {
    match o {
        Ordering::Less => Ordering::Greater,
        Ordering::Greater => Ordering::Less,
        Ordering::Equal => Ordering::Equal,
    }
}

/// Every character is an ASCII decimal digit.
pub open spec fn all_digits(s: Seq<char>) -> bool {
    forall|i: int| 0 <= i < s.len() ==> '0' <= #[trigger] s[i] <= '9'
}

/// The number that a sequence of decimal digits writes.
pub open spec fn digits_value(s: Seq<char>) -> int
    decreases s.len(),
{
    if s.len() == 0 {
        0
    } else {
        digits_value(s.drop_last()) * 10 + (s.last() as int - '0' as int)
    }
}

/// The digits of a number, without its optional leading `+`.
pub open spec fn unsigned_part(s: Seq<char>) -> Seq<char> {
    if s.len() > 0 && s[0] == '+' { s.drop_first() } else { s }
}

/// The `u32` that a name writes in decimal, if it writes one: an optional `+`
/// followed by at least one digit, with a value that fits in 32 bits.
pub open spec fn decimal_of(s: Seq<char>) -> Option<u32> {
    let d = unsigned_part(s);
    if d.len() > 0 && all_digits(d) && digits_value(d) <= u32::MAX {
        Some(digits_value(d) as u32)
    } else {
        None
    }
}

/// A name made of decimal digits only, at least one.
pub open spec fn is_numeral(s: Seq<char>) -> bool {
    s.len() > 0 && all_digits(s)
}

/// The order of print names: equal names are equal; two names made of digits
/// only compare by the numbers they write, of any size; any other pair
/// compares lexicographically.
pub open spec fn name_order(a: Seq<char>, b: Seq<char>) -> Ordering {
    if a == b {
        Ordering::Equal
    } else if is_numeral(a) && is_numeral(b) {
        int_cmp(digits_value(a), digits_value(b))
    } else {
        lex_cmp(a, b)
    }
}

/// Ten to the power `n`.
pub open spec fn pow10(n: nat) -> int
    decreases n,
{
    if n == 0 { 1 } else { 10 * pow10((n - 1) as nat) }
}

proof fn lemma_pow10_mono(m: nat, n: nat)
    requires
        m <= n,
    ensures
        1 <= pow10(m) <= pow10(n),
    decreases n,
{
    if n > m {
        lemma_pow10_mono(m, (n - 1) as nat);
    } else if n > 0 {
        lemma_pow10_mono(0, (n - 1) as nat);
    }
}

/// A string of digits writes a number below ten to its length, and at least
/// ten to its length less one when it does not start with a zero.
proof fn lemma_digits_bounds(s: Seq<char>)
    requires
        all_digits(s),
    ensures
        0 <= digits_value(s) < pow10(s.len()),
        s.len() > 0 && s[0] != '0' ==> digits_value(s) >= pow10((s.len() - 1) as nat),
    decreases s.len(),
{
    if s.len() > 0 {
        let d = s.drop_last();
        assert(all_digits(d)) by {
            assert forall|i: int| 0 <= i < d.len() implies '0' <= #[trigger] d[i] <= '9' by {
                assert(d[i] == s[i]);
            }
        }
        assert('0' <= s[s.len() - 1] <= '9');
        lemma_digits_bounds(d);
        if s.len() == 1 {
            assert(d.len() == 0);
        } else {
            assert(d[0] == s[0]);
        }
    }
}

/// A leading zero does not change the number.
proof fn lemma_leading_zero(t: Seq<char>)
    ensures
        digits_value(seq!['0'] + t) == digits_value(t),
    decreases t.len(),
{
    let z = seq!['0'] + t;
    if t.len() == 0 {
        assert(z.drop_last() =~= Seq::<char>::empty());
        assert(z.last() == '0');
        assert(digits_value(z.drop_last()) == 0);
        assert(digits_value(z) == digits_value(z.drop_last()) * 10 + (z.last() as int - '0' as int));
    } else {
        assert(z.drop_last() =~= seq!['0'] + t.drop_last());
        assert(z.last() == t.last());
        lemma_leading_zero(t.drop_last());
        assert(digits_value(z) == digits_value(z.drop_last()) * 10 + (z.last() as int - '0' as int));
    }
}

/// Leading zeros do not change the number.
proof fn lemma_strip_zeros(s: Seq<char>, z: int)
    requires
        0 <= z <= s.len(),
        forall|i: int| 0 <= i < z ==> s[i] == '0',
    ensures
        digits_value(s) == digits_value(s.subrange(z, s.len() as int)),
    decreases z,
{
    if z > 0 {
        lemma_strip_zeros(s, z - 1);
        assert(s[z - 1] == '0');
        assert(s.subrange(z - 1, s.len() as int) =~= seq!['0'] + s.subrange(z, s.len() as int));
        lemma_leading_zero(s.subrange(z, s.len() as int));
    } else {
        assert(s.subrange(0, s.len() as int) =~= s);
    }
}

/// Of two digit strings of one length with a common prefix, the first digit
/// that differs decides which number is smaller.
proof fn lemma_first_difference(a: Seq<char>, b: Seq<char>, k: int)
    requires
        a.len() == b.len(),
        0 <= k < a.len(),
        all_digits(a),
        all_digits(b),
        a.subrange(0, k) == b.subrange(0, k),
        a[k] < b[k],
    ensures
        digits_value(a) < digits_value(b),
    decreases a.len(),
{
    let n = a.len() as int;
    let da = a.drop_last();
    let db = b.drop_last();
    assert('0' <= a[n - 1] <= '9' && '0' <= b[n - 1] <= '9');
    if k < n - 1 {
        assert(da.subrange(0, k) =~= a.subrange(0, k));
        assert(db.subrange(0, k) =~= b.subrange(0, k));
        assert(all_digits(da)) by {
            assert forall|i: int| 0 <= i < da.len() implies '0' <= #[trigger] da[i] <= '9' by {
                assert(da[i] == a[i]);
            }
        }
        assert(all_digits(db)) by {
            assert forall|i: int| 0 <= i < db.len() implies '0' <= #[trigger] db[i] <= '9' by {
                assert(db[i] == b[i]);
            }
        }
        assert(da[k] == a[k] && db[k] == b[k]);
        lemma_first_difference(da, db, k);
    } else {
        assert(da =~= a.subrange(0, k));
        assert(db =~= b.subrange(0, k));
    }
}

/// Whether a name is made of digits only.
fn numeral(s: &str) -> (r: bool)
    ensures
        r == is_numeral(s@),
{
    let n = s.unicode_len();
    if n == 0 {
        return false;
    }
    let mut i: usize = 0;
    while i < n
        invariant
            n == s@.len(),
            0 <= i <= n,
            forall|j: int| 0 <= j < i ==> '0' <= #[trigger] s@[j] <= '9',
        decreases n - i,
    {
        let c = s.get_char(i);
        if !('0' <= c && c <= '9') {
            return false;
        }
        i = i + 1;
    }
    true
}

/// How many zeros a string starts with.
fn leading_zeros(s: &str) -> (z: usize)
    ensures
        z <= s@.len(),
        forall|i: int| 0 <= i < z ==> s@[i] == '0',
        z < s@.len() ==> s@[z as int] != '0',
{
    let n = s.unicode_len();
    let mut z: usize = 0;
    while z < n && s.get_char(z) == '0'
        invariant
            n == s@.len(),
            0 <= z <= n,
            forall|i: int| 0 <= i < z ==> s@[i] == '0',
        decreases n - z,
    {
        z = z + 1;
    }
    z
}

/// Compares the numbers that two digit strings write, whatever their size.
fn compare_numerals(a: &str, b: &str) -> (r: Ordering)
    requires
        is_numeral(a@),
        is_numeral(b@),
    ensures
        r == int_cmp(digits_value(a@), digits_value(b@)),
{
    let na = a.unicode_len();
    let nb = b.unicode_len();
    let za = leading_zeros(a);
    let zb = leading_zeros(b);
    let la = na - za;
    let lb = nb - zb;
    let ghost ta = a@.subrange(za as int, na as int);
    let ghost tb = b@.subrange(zb as int, nb as int);
    proof {
        lemma_strip_zeros(a@, za as int);
        lemma_strip_zeros(b@, zb as int);
        assert(all_digits(ta)) by {
            assert forall|i: int| 0 <= i < ta.len() implies '0' <= #[trigger] ta[i] <= '9' by {
                assert(ta[i] == a@[za + i]);
            }
        }
        assert(all_digits(tb)) by {
            assert forall|i: int| 0 <= i < tb.len() implies '0' <= #[trigger] tb[i] <= '9' by {
                assert(tb[i] == b@[zb + i]);
            }
        }
        lemma_digits_bounds(ta);
        lemma_digits_bounds(tb);
    }
    if la < lb {
        proof {
            lemma_pow10_mono(la as nat, (lb - 1) as nat);
        }
        return Ordering::Less;
    }
    if la > lb {
        proof {
            lemma_pow10_mono(lb as nat, (la - 1) as nat);
        }
        return Ordering::Greater;
    }
    let mut k: usize = 0;
    while k < la
        invariant
            la == lb,
            0 <= k <= la,
            ta.len() == la && tb.len() == lb,
            na == a@.len(),
            nb == b@.len(),
            za + la == na,
            zb + lb == nb,
            ta == a@.subrange(za as int, na as int),
            tb == b@.subrange(zb as int, nb as int),
            all_digits(ta),
            all_digits(tb),
            digits_value(a@) == digits_value(ta),
            digits_value(b@) == digits_value(tb),
            ta.subrange(0, k as int) == tb.subrange(0, k as int),
        decreases la - k,
    {
        let ca = a.get_char(za + k);
        let cb = b.get_char(zb + k);
        assert(ta[k as int] == ca && tb[k as int] == cb);
        if ca < cb {
            proof {
                lemma_first_difference(ta, tb, k as int);
            }
            return Ordering::Less;
        }
        if ca > cb {
            proof {
                lemma_first_difference(tb, ta, k as int);
            }
            return Ordering::Greater;
        }
        assert(ta.subrange(0, k + 1) =~= ta.subrange(0, k as int).push(ca));
        assert(tb.subrange(0, k + 1) =~= tb.subrange(0, k as int).push(cb));
        k = k + 1;
    }
    assert(ta =~= ta.subrange(0, k as int));
    assert(tb =~= tb.subrange(0, k as int));
    Ordering::Equal
}

/// Reads the `u32` that a string writes in decimal: an optional `+`, then
/// only decimal digits, of a value that fits; anything else is `None`.
fn parse_u32(s: &str) -> (r: Option<u32>)
    ensures
        r == decimal_of(s@),
{
    let n = s.unicode_len();
    let start: usize = if n > 0 && s.get_char(0) == '+' {
        1
    } else {
        0
    };
    let ghost d = unsigned_part(s@);
    assert(d =~= s@.subrange(start as int, n as int));
    if start == n {
        return None;
    }
    let mut i: usize = start;
    let mut v: u64 = 0;
    assert(d.subrange(0, 0) =~= Seq::<char>::empty());
    while i < n
        invariant
            n == s@.len(),
            start <= i <= n,
            d == s@.subrange(start as int, n as int),
            d == unsigned_part(s@),
            all_digits(d.subrange(0, i - start)),
            v == if digits_value(d.subrange(0, i - start)) > u32::MAX {
                u32::MAX as int + 1
            } else {
                digits_value(d.subrange(0, i - start))
            },
        decreases n - i,
    {
        let c = s.get_char(i);
        let ghost p = d.subrange(0, i - start);
        let ghost q = d.subrange(0, i - start + 1);
        assert(q.drop_last() =~= p);
        assert(q.last() == c);
        if !('0' <= c && c <= '9') {
            assert(d[i - start] == s@[i as int]);
            assert(!('0' <= d[i - start] <= '9'));
            assert(!all_digits(d));
            assert(decimal_of(s@) is None);
            return None;
        }
        proof {
            lemma_digits_bounds(p);
            assert(all_digits(q)) by {
                assert forall|k: int| 0 <= k < q.len() implies '0' <= #[trigger] q[k] <= '9' by {
                    if k < p.len() {
                        assert(q[k] == p[k]);
                    }
                }
            }
        }
        let digit = (c as u64) - ('0' as u64);
        v = if v > u32::MAX as u64 {
            v
        } else {
            let w = v * 10 + digit;
            if w > u32::MAX as u64 {
                u32::MAX as u64 + 1
            } else {
                w
            }
        };
        i = i + 1;
    }
    assert(d.subrange(0, i - start) =~= d);
    if v > u32::MAX as u64 {
        None
    } else {
        Some(v as u32)
    }
}

/// Whether two strings agree on a common prefix decides nothing: what
/// follows it does.
proof fn lemma_lex_skip(a: Seq<char>, b: Seq<char>, i: int)
    requires
        0 <= i <= a.len(),
        i <= b.len(),
        a.subrange(0, i) == b.subrange(0, i),
    ensures
        lex_cmp(a, b) == lex_cmp(a.subrange(i, a.len() as int), b.subrange(i, b.len() as int)),
    decreases i,
{
    if i == 0 {
        assert(a.subrange(0, a.len() as int) =~= a);
        assert(b.subrange(0, b.len() as int) =~= b);
    } else {
        assert(a[0] == a.subrange(0, i)[0] && b[0] == b.subrange(0, i)[0]);
        assert(a.drop_first().subrange(0, i - 1) =~= a.subrange(0, i).drop_first());
        assert(b.drop_first().subrange(0, i - 1) =~= b.subrange(0, i).drop_first());
        lemma_lex_skip(a.drop_first(), b.drop_first(), i - 1);
        assert(a.drop_first().subrange(i - 1, a.len() - 1) =~= a.subrange(i, a.len() as int));
        assert(b.drop_first().subrange(i - 1, b.len() - 1) =~= b.subrange(i, b.len() as int));
    }
}

/// Compares two strings lexicographically, character by character.
fn compare_strings(a: &String, b: &String) -> (r: Ordering)
    ensures
        r == lex_cmp(a@, b@),
{
    let sa = a.as_str();
    let sb = b.as_str();
    let na = sa.unicode_len();
    let nb = sb.unicode_len();
    let mut i: usize = 0;
    assert(a@.subrange(0, 0) =~= b@.subrange(0, 0));
    while i < na && i < nb
        invariant
            na == a@.len(),
            nb == b@.len(),
            sa@ == a@,
            sb@ == b@,
            0 <= i <= na,
            i <= nb,
            a@.subrange(0, i as int) == b@.subrange(0, i as int),
        decreases na - i,
    {
        let ca = sa.get_char(i);
        let cb = sb.get_char(i);
        if ca != cb {
            proof {
                lemma_lex_skip(a@, b@, i as int);
                assert(a@.subrange(i as int, na as int)[0] == ca);
                assert(b@.subrange(i as int, nb as int)[0] == cb);
            }
            if ca < cb {
                return Ordering::Less;
            } else {
                return Ordering::Greater;
            }
        }
        assert(a@.subrange(0, i + 1) =~= a@.subrange(0, i as int).push(ca));
        assert(b@.subrange(0, i + 1) =~= b@.subrange(0, i as int).push(cb));
        i = i + 1;
    }
    proof {
        lemma_lex_skip(a@, b@, i as int);
    }
    if i == na && i == nb {
        Ordering::Equal
    } else if i == na {
        Ordering::Less
    } else {
        Ordering::Greater
    }
}

/// Reads a quantity typed as text: the number it writes, if any.
pub fn parse_quantity(text: &str) -> (r: Option<u32>)
    ensures
        r == decimal_of(text@),
{
    parse_u32(text)
}

/// Compares two names lexicographically.
pub fn compare_names(a: &String, b: &String) -> (r: Ordering)
    ensures
        r == lex_cmp(a@, b@),
{
    compare_strings(a, b)
}

/// Compares two names in print order (see `name_order`).
pub fn compare_print_names(a: &String, b: &String) -> (r: Ordering)
    ensures
        r == name_order(a@, b@),
{
    if *a == *b {
        return Ordering::Equal;
    }
    if numeral(a.as_str()) && numeral(b.as_str()) {
        compare_numerals(a.as_str(), b.as_str())
    } else {
        compare_strings(a, b)
    }
}

/// Compares two prints by name in print order.
pub fn print_sort(a: &Print, b: &Print) -> (r: Ordering)
    ensures
        r == name_order(a.name@, b.name@),
{
    compare_print_names(&a.name, &b.name)
}

/// Lexicographic order is antisymmetric, and equal only on equal sequences.
pub proof fn lemma_lex_cmp_flip(a: Seq<char>, b: Seq<char>)
    ensures
        lex_cmp(b, a) == flipped(lex_cmp(a, b)),
        lex_cmp(a, b) == Ordering::Equal <==> a == b,
    decreases a.len(),
{
    if a.len() > 0 && b.len() > 0 {
        lemma_lex_cmp_flip(a.drop_first(), b.drop_first());
        if a[0] == b[0] && a.drop_first() == b.drop_first() {
            assert(a =~= seq![a[0]] + a.drop_first());
            assert(b =~= seq![b[0]] + b.drop_first());
        }
        if a == b {
            assert(a.drop_first() == b.drop_first());
        }
    } else if a.len() == 0 && b.len() == 0 {
        assert(a =~= b);
    }
}

/// Print order is antisymmetric, and equal on equal names.
pub proof fn lemma_name_order_flip(a: Seq<char>, b: Seq<char>)
    ensures
        name_order(b, a) == flipped(name_order(a, b)),
        name_order(a, a) == Ordering::Equal,
{
    lemma_lex_cmp_flip(a, b);
}

/// Two names made of digits only are ordered as the numbers they write are;
/// any pair in which a name holds something else is ordered lexicographically.
pub proof fn lemma_print_order_law(a: Seq<char>, b: Seq<char>)
    ensures
        is_numeral(a) && is_numeral(b) ==> name_order(a, b) == int_cmp(
            digits_value(a),
            digits_value(b),
        ),
        !(is_numeral(a) && is_numeral(b)) ==> name_order(a, b) == lex_cmp(a, b),
{
    lemma_lex_cmp_flip(a, b);
}

} // verus!
