//! Byte strings: splitting and joining on a separator, and decimal numbers.

use vstd::prelude::*;
use vstd::string::*;

verus! {

/// The bytes of a string literal.
pub open spec fn literal(s: &str) -> Seq<u8> {
    s.spec_bytes()
}

/// The byte strings that a vector of byte vectors holds.
pub open spec fn rows(v: Seq<Vec<u8>>) -> Seq<Seq<u8>> {
    v.map_values(|r: Vec<u8>| r@)
}

/// The fields of `s` between occurrences of `sep`. There is always at least
/// one field; a separator at either end gives an empty field there.
pub open spec fn split(s: Seq<u8>, sep: u8) -> Seq<Seq<u8>>
    decreases s.len(),
{
    if s.len() == 0 {
        seq![Seq::<u8>::empty()]
    } else {
        let head = split(s.drop_last(), sep);
        if s.last() == sep {
            head.push(Seq::<u8>::empty())
        } else {
            head.drop_last().push(head.last().push(s.last()))
        }
    }
}

/// The parts written one after another with `sep` between neighbours.
pub open spec fn join(parts: Seq<Seq<u8>>, sep: u8) -> Seq<u8>
    decreases parts.len(),
{
    if parts.len() == 0 {
        Seq::<u8>::empty()
    } else if parts.len() == 1 {
        parts[0]
    } else {
        join(parts.drop_last(), sep).push(sep) + parts.last()
    }
}

/// Field number `n` of `s`, counted from zero, or the empty string when `s`
/// has no such field.
pub open spec fn nth_field(s: Seq<u8>, sep: u8, n: nat) -> Seq<u8> {
    let fields = split(s, sep);
    if n < fields.len() {
        fields[n as int]
    } else {
        Seq::<u8>::empty()
    }
}

pub proof fn lemma_split_nonempty(s: Seq<u8>, sep: u8)
    ensures
        split(s, sep).len() >= 1,
    decreases s.len(),
{
    if s.len() > 0 {
        lemma_split_nonempty(s.drop_last(), sep);
    }
}

/// Joining the fields of a split gives the string back.
pub proof fn lemma_join_split(s: Seq<u8>, sep: u8)
    ensures
        join(split(s, sep), sep) == s,
    decreases s.len(),
{
    if s.len() == 0 {
    } else {
        let front = s.drop_last();
        let head = split(front, sep);
        lemma_split_nonempty(front, sep);
        lemma_join_split(front, sep);
        if s.last() == sep {
            let all = head.push(Seq::<u8>::empty());
            assert(all.drop_last() =~= head);
            assert(join(all, sep) =~= front.push(sep));
            assert(front.push(sep) =~= s);
        } else {
            let grown = head.last().push(s.last());
            let all = head.drop_last().push(grown);
            assert(all.drop_last() =~= head.drop_last());
            if head.len() == 1 {
                assert(all[0] =~= front.push(s.last()));
            } else {
                let before = join(head.drop_last(), sep).push(sep) + head.last();
                assert(join(all, sep) =~= before.push(s.last()));
            }
            assert(front.push(s.last()) =~= s);
        }
    }
}

/// Appending a part that is free of the separator, behind one separator,
/// adds exactly that part to the split.
pub proof fn lemma_split_append(a: Seq<u8>, b: Seq<u8>, sep: u8)
    requires
        !b.contains(sep),
    ensures
        split(a.push(sep) + b, sep) == split(a, sep).push(b),
    decreases b.len(),
{
    let whole = a.push(sep) + b;
    if b.len() == 0 {
        assert(whole =~= a.push(sep));
        assert(whole.drop_last() =~= a);
        assert(b =~= Seq::<u8>::empty());
    } else {
        let shorter = b.drop_last();
        assert forall|j: int| 0 <= j < shorter.len() implies shorter[j] != sep by {
            assert(b.contains(b[j]));
        }
        lemma_split_append(a, shorter, sep);
        assert(whole.drop_last() =~= a.push(sep) + shorter);
        assert(whole.last() == b.last());
        assert(b.contains(b.last()));
        let head = split(a, sep).push(shorter);
        assert(head.drop_last() =~= split(a, sep));
        assert(shorter.push(b.last()) =~= b);
    }
}

/// A string free of the separator is its own single field.
pub proof fn lemma_split_single(b: Seq<u8>, sep: u8)
    requires
        !b.contains(sep),
    ensures
        split(b, sep) == seq![b],
    decreases b.len(),
{
    if b.len() == 0 {
        assert(b =~= Seq::<u8>::empty());
    } else {
        let shorter = b.drop_last();
        assert forall|j: int| 0 <= j < shorter.len() implies shorter[j] != sep by {
            assert(b.contains(b[j]));
        }
        lemma_split_single(shorter, sep);
        assert(b.contains(b.last()));
        assert(seq![shorter].drop_last().push(shorter.push(b.last())) =~= seq![b]) by {
            assert(shorter.push(b.last()) =~= b);
        }
    }
}

/// Splitting a join of parts that are free of the separator gives the parts
/// back.
pub proof fn lemma_split_join(parts: Seq<Seq<u8>>, sep: u8)
    requires
        parts.len() >= 1,
        forall|k: int| 0 <= k < parts.len() ==> !(#[trigger] parts[k]).contains(sep),
    ensures
        split(join(parts, sep), sep) == parts,
    decreases parts.len(),
{
    if parts.len() == 1 {
        lemma_split_single(parts[0], sep);
        assert(seq![parts[0]] =~= parts);
    } else {
        let front = parts.drop_last();
        assert forall|k: int| 0 <= k < front.len() implies !(#[trigger] front[k]).contains(sep) by {
            assert(front[k] == parts[k]);
        }
        lemma_split_join(front, sep);
        lemma_split_append(join(front, sep), parts.last(), sep);
        assert(front.push(parts.last()) =~= parts);
    }
}

/// Reading on never changes a field that a separator has closed: the fields
/// of the first `i` bytes, but for the last, are the first fields of the whole.
pub proof fn lemma_split_extends(s: Seq<u8>, sep: u8, i: int)
    requires
        0 <= i <= s.len(),
    ensures
        split(s.take(i), sep).len() <= split(s, sep).len(),
        forall|k: int|
            0 <= k < split(s.take(i), sep).len() - 1 ==> split(s, sep)[k] == (#[trigger] split(
                s.take(i),
                sep,
            )[k]),
    decreases s.len(),
{
    if i == s.len() {
        assert(s.take(i) =~= s);
    } else {
        let front = s.drop_last();
        lemma_split_extends(front, sep, i);
        lemma_split_nonempty(front, sep);
        assert(front.take(i) =~= s.take(i));
    }
}

/// Whether two byte strings are equal.
pub fn bytes_eq(a: &[u8], b: &[u8]) -> (same: bool)
    ensures
        same == (a@ == b@),
{
    if a.len() != b.len() {
        return false;
    }
    let mut i: usize = 0;
    while i < a.len()
        invariant
            a@.len() == b@.len(),
            0 <= i <= a@.len(),
            forall|j: int| 0 <= j < i ==> a@[j] == b@[j],
        decreases a@.len() - i,
    {
        if a[i] != b[i] {
            return false;
        }
        i += 1;
    }
    assert(a@ =~= b@);
    true
}

/// Whether the byte `b` occurs in `s`.
pub fn contains_byte(s: &[u8], b: u8) -> (found: bool)
    ensures
        found == s@.contains(b),
{
    let mut i: usize = 0;
    while i < s.len()
        invariant
            0 <= i <= s@.len(),
            forall|j: int| 0 <= j < i ==> s@[j] != b,
        decreases s@.len() - i,
    {
        if s[i] == b {
            return true;
        }
        i += 1;
    }
    false
}

/// Splits `s` at every occurrence of `sep`.
pub fn split_bytes(s: &[u8], sep: u8) -> (parts: Vec<Vec<u8>>)
    ensures
        rows(parts@) == split(s@, sep),
        parts@.len() >= 1,
{
    let mut parts: Vec<Vec<u8>> = Vec::new();
    let mut cur: Vec<u8> = Vec::new();
    let mut i: usize = 0;
    assert(s@.take(0) =~= Seq::<u8>::empty());
    assert(rows(parts@).push(cur@) =~= seq![Seq::<u8>::empty()]);
    while i < s.len()
        invariant
            0 <= i <= s@.len(),
            rows(parts@).push(cur@) == split(s@.take(i as int), sep),
        decreases s@.len() - i,
    {
        let b: u8 = s[i];
        proof {
            let pre = s@.take(i as int);
            let now = s@.take(i + 1);
            assert(now.drop_last() =~= pre);
            assert(now.last() == b);
            let head = split(pre, sep);
            if b == sep {
                assert(rows(parts@.push(cur)) =~= rows(parts@).push(cur@));
            } else {
                assert(head.drop_last() =~= rows(parts@));
                assert(head.last() == cur@);
            }
        }
        if b == sep {
            parts.push(cur);
            cur = Vec::new();
        } else {
            cur.push(b);
        }
        i += 1;
    }
    proof {
        assert(s@.take(i as int) =~= s@);
        assert(rows(parts@.push(cur)) =~= rows(parts@).push(cur@));
    }
    parts.push(cur);
    parts
}

/// Field number `n` of `s`, counted from zero; empty when there is none.
/// The text is read once, and no further than the end of that field.
pub fn field_of(s: &[u8], sep: u8, n: usize) -> (field: Vec<u8>)
    ensures
        field@ == nth_field(s@, sep, n as nat),
{
    let mut field: Vec<u8> = Vec::new();
    let mut index: usize = 0;
    let mut i: usize = 0;
    assert(s@.take(0) =~= Seq::<u8>::empty());
    while i < s.len() && index <= n
        invariant
            0 <= i <= s@.len(),
            index <= i,
            index + 1 == split(s@.take(i as int), sep).len(),
            index < n ==> field@ == Seq::<u8>::empty(),
            index == n ==> field@ == split(s@.take(i as int), sep).last(),
            index > n ==> field@ == split(s@.take(i as int), sep)[n as int],
        decreases s@.len() - i,
    {
        let b: u8 = s[i];
        proof {
            let now = s@.take(i + 1);
            assert(now.drop_last() =~= s@.take(i as int));
            assert(now.last() == b);
        }
        if b == sep {
            index += 1;
        } else if index == n {
            field.push(b);
        }
        i += 1;
    }
    proof {
        lemma_split_extends(s@, sep, i as int);
        if i == s@.len() {
            assert(s@.take(i as int) =~= s@);
        }
    }
    field
}

/// Joins the parts with `sep` between neighbours.
pub fn join_bytes(parts: &[Vec<u8>], sep: u8) -> (out: Vec<u8>)
    ensures
        out@ == join(rows(parts@), sep),
{
    let mut out: Vec<u8> = Vec::new();
    let mut k: usize = 0;
    assert(rows(parts@).take(0) =~= Seq::<Seq<u8>>::empty());
    while k < parts.len()
        invariant
            0 <= k <= parts@.len(),
            out@ == join(rows(parts@).take(k as int), sep),
        decreases parts@.len() - k,
    {
        proof {
            let now = rows(parts@).take(k + 1);
            assert(now.drop_last() =~= rows(parts@).take(k as int));
            assert(now.last() == parts@[k as int]@);
        }
        if k > 0 {
            out.push(sep);
        }
        append_bytes(&mut out, parts[k].as_slice());
        proof {
            if k == 0 {
                assert(out@ =~= parts@[0]@);
            }
        }
        k += 1;
    }
    assert(rows(parts@).take(k as int) =~= rows(parts@));
    out
}

/// Appends the bytes of `s` to `out`.
pub fn append_bytes(out: &mut Vec<u8>, s: &[u8])
    ensures
        final(out)@ == old(out)@ + s@,
{
    let mut i: usize = 0;
    while i < s.len()
        invariant
            0 <= i <= s@.len(),
            out@ == old(out)@ + s@.take(i as int),
        decreases s@.len() - i,
    {
        out.push(s[i]);
        proof {
            assert(s@.take(i + 1) =~= s@.take(i as int).push(s@[i as int]));
            assert(old(out)@ + s@.take(i + 1) =~= (old(out)@ + s@.take(i as int)).push(
                s@[i as int],
            ));
        }
        i += 1;
    }
    assert(s@.take(i as int) =~= s@);
}

/// Whether `b` is an ASCII decimal digit.
pub open spec fn is_digit(b: u8) -> bool {
    48 <= b <= 57
}

/// Whether every byte of `s` is a decimal digit.
pub open spec fn all_digits(s: Seq<u8>) -> bool {
    forall|i: int| 0 <= i < s.len() ==> is_digit(#[trigger] s[i])
}

/// The number that a string of decimal digits writes.
pub open spec fn digits_value(s: Seq<u8>) -> nat
    decreases s.len(),
{
    if s.len() == 0 {
        0
    } else {
        digits_value(s.drop_last()) * 10 + (s.last() - 48) as nat
    }
}

/// The number that `s` writes: an optional `+`, then one or more decimal
/// digits. Anything else writes no number.
pub open spec fn unsigned_value(s: Seq<u8>) -> Option<nat> {
    let digits = if s.len() > 0 && s[0] == 43 {
        s.skip(1)
    } else {
        s
    };
    if digits.len() > 0 && all_digits(digits) {
        Some(digits_value(digits))
    } else {
        None
    }
}

/// The number that `s` writes, when it writes one that is at most `max`.
pub open spec fn bounded_value(s: Seq<u8>, max: nat) -> Option<nat> {
    match unsigned_value(s) {
        Some(v) => if v <= max {
            Some(v)
        } else {
            None
        },
        None => None,
    }
}

/// The decimal digits of `n`, without leading zeros.
pub open spec fn decimal(n: nat) -> Seq<u8>
    decreases n,
{
    if n < 10 {
        seq![(48 + n) as u8]
    } else {
        decimal(n / 10).push((48 + n % 10) as u8)
    }
}

/// A decimal rendering is a non-empty string of digits.
pub proof fn lemma_decimal_digits(n: nat)
    ensures
        decimal(n).len() >= 1,
        all_digits(decimal(n)),
    decreases n,
{
    if n >= 10 {
        lemma_decimal_digits(n / 10);
    }
}

/// Reading a decimal rendering gives the number back.
pub proof fn lemma_decimal_value(n: nat)
    ensures
        unsigned_value(decimal(n)) == Some(n),
    decreases n,
{
    lemma_decimal_digits(n);
    lemma_digits_of_decimal(n);
}

proof fn lemma_digits_of_decimal(n: nat)
    ensures
        digits_value(decimal(n)) == n,
    decreases n,
{
    if n < 10 {
        let d = decimal(n);
        assert(d.drop_last() =~= Seq::<u8>::empty());
        assert(digits_value(d.drop_last()) == 0);
    } else {
        lemma_digits_of_decimal(n / 10);
        let d = decimal(n);
        assert(d.drop_last() =~= decimal(n / 10));
    }
}

/// A longer string of digits writes a number at least as large as any of
/// its prefixes.
proof fn lemma_digits_value_grows(s: Seq<u8>, i: int)
    requires
        0 <= i <= s.len(),
    ensures
        digits_value(s.take(i)) <= digits_value(s),
    decreases s.len(),
{
    if i == s.len() {
        assert(s.take(i) =~= s);
    } else {
        lemma_digits_value_grows(s.drop_last(), i);
        assert(s.drop_last().take(i) =~= s.take(i));
    }
}

/// Appends the decimal digits of `n` to `out`.
pub fn push_decimal(out: &mut Vec<u8>, n: u64)
    ensures
        final(out)@ == old(out)@ + decimal(n as nat),
{
    let mut reversed: Vec<u8> = Vec::new();
    reversed.push(48u8 + (n % 10) as u8);
    let mut m: u64 = n / 10;
    assert(reversed@.reverse() =~= seq![(48 + n % 10) as u8]);
    while m > 0
        invariant
            reversed@.len() >= 1,
            decimal(n as nat) == (if m == 0 {
                Seq::<u8>::empty()
            } else {
                decimal(m as nat)
            }) + reversed@.reverse(),
        decreases m,
    {
        let ghost before = reversed@;
        reversed.push(48u8 + (m % 10) as u8);
        proof {
            let d = (48 + m % 10) as u8;
            assert(reversed@.reverse() =~= seq![d] + before.reverse());
            if m >= 10 {
                assert(decimal(m as nat) + before.reverse() =~= decimal((m / 10) as nat) + (seq![d]
                    + before.reverse()));
            } else {
                assert(decimal(m as nat) + before.reverse() =~= Seq::<u8>::empty() + (seq![d]
                    + before.reverse()));
            }
        }
        m = m / 10;
    }
    assert(decimal(n as nat) =~= reversed@.reverse());
    let mut k: usize = reversed.len();
    while k > 0
        invariant
            0 <= k <= reversed@.len(),
            out@ == old(out)@ + reversed@.reverse().take(reversed@.len() - k),
        decreases k,
    {
        k -= 1;
        out.push(reversed[k]);
        proof {
            let r = reversed@.reverse();
            let j = reversed@.len() - k - 1;
            assert(r[j] == reversed@[k as int]);
            assert(r.take(j + 1) =~= r.take(j).push(r[j]));
            assert(old(out)@ + r.take(j + 1) =~= (old(out)@ + r.take(j)).push(r[j]));
        }
    }
    assert(reversed@.reverse().take(reversed@.len() as int) =~= reversed@.reverse());
}

/// Reads `s` as a decimal number no greater than `max`.
pub fn parse_unsigned(s: &[u8], max: u64) -> (value: Option<u64>)
    ensures
        match value {
            Some(v) => bounded_value(s@, max as nat) == Some(v as nat),
            None => bounded_value(s@, max as nat) is None,
        },
{
    let start: usize = if s.len() > 0 && s[0] == 43u8 {
        1
    } else {
        0
    };
    let ghost digits = s@.skip(start as int);
    assert(s@.skip(0) =~= s@);
    if start == s.len() {
        return None;
    }
    let mut acc: u64 = 0;
    let mut i: usize = start;
    assert(digits.take(0) =~= Seq::<u8>::empty());
    while i < s.len()
        invariant
            start <= i <= s@.len(),
            digits == s@.skip(start as int),
            digits.len() > 0,
            unsigned_value(s@) == if all_digits(digits) {
                Some(digits_value(digits))
            } else {
                None
            },
            all_digits(digits.take(i - start)),
            acc as nat == digits_value(digits.take(i - start)),
            acc <= max,
        decreases s@.len() - i,
    {
        let b: u8 = s[i];
        let ghost upto = digits.take(i - start + 1);
        proof {
            assert(upto.drop_last() =~= digits.take(i - start));
            assert(upto.last() == b);
        }
        if b < 48u8 || b > 57u8 {
            assert(!is_digit(digits[i - start]));
            return None;
        }
        let d: u64 = (b - 48u8) as u64;
        if d > max || acc > (max - d) / 10 {
            proof {
                assert(digits_value(upto) > max) by (nonlinear_arith)
                    requires
                        digits_value(upto) == acc * 10 + d,
                        d > max || acc > (max - d) / 10,
                        acc <= max,
                {
                }
                lemma_digits_value_grows(digits, i - start + 1);
            }
            return None;
        }
        assert(acc * 10 + d <= max) by (nonlinear_arith)
            requires
                acc <= (max - d) / 10,
                d <= max,
        {
        }
        acc = acc * 10 + d;
        i += 1;
    }
    assert(digits.take(i - start) =~= digits);
    Some(acc)
}

} // verus!
