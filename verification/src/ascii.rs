//! Byte-level helpers shared by the RESP codec and the command layer:
//! decimal parsing and formatting, CRLF search, and case-insensitive
//! comparison of ASCII byte strings.

use vstd::prelude::*;

verus! {

/// `b` is an ASCII decimal digit.
pub open spec fn is_digit(b: u8) -> bool {
    48 <= b <= 57
}

/// Every byte of `s` is an ASCII decimal digit.
pub open spec fn all_digits(s: Seq<u8>) -> bool {
    forall|i: int| 0 <= i < s.len() ==> is_digit(#[trigger] s[i])
}

/// The numeric value of a digit string, most significant digit first.
pub open spec fn dec_val(s: Seq<u8>) -> int
    decreases s.len(),
{
    if s.len() == 0 {
        0
    } else {
        dec_val(s.drop_last()) * 10 + (s.last() - 48)
    }
}

/// The canonical decimal representation of a non-negative integer.
pub open spec fn udec_repr(n: int) -> Seq<u8>
    recommends
        n >= 0,
    decreases n,
{
    if n < 10 {
        seq![(n + 48) as u8]
    } else {
        udec_repr(n / 10).push((n % 10 + 48) as u8)
    }
}

/// The canonical decimal representation of an integer, with a leading
/// minus sign when negative.
pub open spec fn int_repr(n: int) -> Seq<u8> {
    if n < 0 {
        seq![45u8] + udec_repr(-n)
    } else {
        udec_repr(n)
    }
}

/// What decimal text means as an integer: an optional leading minus
/// sign followed by at least one digit.
pub open spec fn parse_int_spec(s: Seq<u8>) -> Option<int> {
    if s.len() >= 2 && s[0] == 45 && all_digits(s.skip(1)) {
        Some(-dec_val(s.skip(1)))
    } else if s.len() >= 1 && all_digits(s) {
        Some(dec_val(s))
    } else {
        None
    }
}

/// `parse_int_spec` narrowed to values representable as `i32`.
pub open spec fn parse_i32_spec(s: Seq<u8>) -> Option<i32> {
    match parse_int_spec(s) {
        Some(n) => if i32::MIN <= n <= i32::MAX {
            Some(n as i32)
        } else {
            None
        },
        None => None,
    }
}

/// `parse_int_spec` narrowed to unsigned text representable as `u64`.
pub open spec fn parse_u64_spec(s: Seq<u8>) -> Option<u64> {
    if s.len() >= 1 && all_digits(s) && dec_val(s) <= u64::MAX {
        Some(dec_val(s) as u64)
    } else {
        None
    }
}

/// The position of the first CRLF pair in `s`, if any.
pub open spec fn find_crlf(s: Seq<u8>) -> Option<int>
    decreases s.len(),
{
    if s.len() < 2 {
        None
    } else if s[0] == 13 && s[1] == 10 {
        Some(0)
    } else {
        match find_crlf(s.skip(1)) {
            Some(i) => Some(i + 1),
            None => None,
        }
    }
}

/// `s` holds no CRLF pair; such a payload can stand on a single
/// protocol line.
pub open spec fn crlf_free(s: Seq<u8>) -> bool {
    forall|i: int| 0 <= i < s.len() - 1 ==> !(#[trigger] s[i] == 13 && s[i + 1] == 10)
}

/// Lower-casing of one ASCII byte.
pub open spec fn ascii_lower(b: u8) -> u8 {
    if 65 <= b <= 90 {
        (b + 32) as u8
    } else {
        b
    }
}

/// Lower-casing of a byte string.
pub open spec fn lower_seq(s: Seq<u8>) -> Seq<u8> {
    s.map_values(|b: u8| ascii_lower(b))
}

pub proof fn lemma_dec_val_nonneg(s: Seq<u8>)
    requires
        all_digits(s),
    ensures
        dec_val(s) >= 0,
    decreases s.len(),
{
    if s.len() > 0 {
        assert(all_digits(s.drop_last())) by {
            assert(forall|i: int| 0 <= i < s.len() - 1 ==> s.drop_last()[i] == s[i]);
        }
        lemma_dec_val_nonneg(s.drop_last());
    }
}

pub proof fn lemma_udec_repr_digits(n: int)
    requires
        n >= 0,
    ensures
        udec_repr(n).len() >= 1,
        all_digits(udec_repr(n)),
    decreases n,
{
    if n >= 10 {
        lemma_udec_repr_digits(n / 10);
        assert forall|i: int| 0 <= i < udec_repr(n).len() implies is_digit(udec_repr(n)[i]) by {
            if i < udec_repr(n / 10).len() {
                assert(udec_repr(n)[i] == udec_repr(n / 10)[i]);
            }
        }
    }
}

/// Formatting then reading back is the identity.
pub proof fn lemma_dec_val_udec(n: int)
    requires
        n >= 0,
    ensures
        dec_val(udec_repr(n)) == n,
    decreases n,
{
    if n < 10 {
        assert(udec_repr(n) =~= seq![(n + 48) as u8]);
        assert(udec_repr(n).drop_last() =~= Seq::<u8>::empty());
        assert(dec_val(Seq::<u8>::empty()) == 0);
        assert(dec_val(udec_repr(n)) == 0 * 10 + ((n + 48) as u8 - 48));
    } else {
        lemma_dec_val_udec(n / 10);
        vstd::arithmetic::div_mod::lemma_fundamental_div_mod(n, 10);
        vstd::arithmetic::div_mod::lemma_mod_bound(n, 10);
        assert(udec_repr(n).drop_last() =~= udec_repr(n / 10));
        assert(udec_repr(n).last() == (n % 10 + 48) as u8);
        assert((n % 10 + 48) as u8 - 48 == n % 10);
        assert(dec_val(udec_repr(n)) == dec_val(udec_repr(n / 10)) * 10 + n % 10);
    }
}

/// Extending a digit string can only grow its value.
pub proof fn lemma_dec_val_prefix(s: Seq<u8>, i: int)
    requires
        all_digits(s),
        0 <= i <= s.len(),
    ensures
        dec_val(s.take(i)) <= dec_val(s),
    decreases s.len() - i,
{
    if i < s.len() {
        lemma_dec_val_prefix(s, i + 1);
        assert(s.take(i + 1).drop_last() =~= s.take(i));
        assert(all_digits(s.take(i))) by {
            assert(forall|j: int| 0 <= j < i ==> s.take(i)[j] == s[j]);
        }
        lemma_dec_val_nonneg(s.take(i));
        assert(dec_val(s.take(i + 1)) == dec_val(s.take(i)) * 10 + (s[i] - 48));
        assert(dec_val(s.take(i)) * 10 >= dec_val(s.take(i))) by (nonlinear_arith)
            requires
                dec_val(s.take(i)) >= 0,
        ;
        assert(s.take(s.len() as int) =~= s);
    } else {
        assert(s.take(i) =~= s);
    }
}

pub proof fn lemma_find_crlf_char(s: Seq<u8>)
    ensures
        match find_crlf(s) {
            Some(i) => 0 <= i && i + 1 < s.len() && s[i] == 13 && s[i + 1] == 10 && (forall|j: int|
                0 <= j < i ==> !(#[trigger] s[j] == 13 && s[j + 1] == 10)),
            None => crlf_free(s),
        },
    decreases s.len(),
{
    if s.len() >= 2 && !(s[0] == 13 && s[1] == 10) {
        lemma_find_crlf_char(s.skip(1));
        let t = s.skip(1);
        assert(forall|k: int| 0 <= k < t.len() ==> t[k] == s[k + 1]);
        if find_crlf(t) is Some {
            let i = find_crlf(t)->Some_0;
            assert(s[i + 1] == t[i]);
            assert(s[i + 2] == t[i + 1]);
            assert forall|j: int| 0 <= j < i + 1 implies !(#[trigger] s[j] == 13 && s[j + 1]
                == 10) by {
                if j > 0 {
                    assert(t[j - 1] == s[j]);
                    assert(t[j] == s[j + 1]);
                }
            }
        } else {
            assert forall|j: int| 0 <= j < s.len() - 1 implies !(#[trigger] s[j] == 13 && s[j + 1]
                == 10) by {
                if j > 0 {
                    assert(t[j - 1] == s[j]);
                    assert(t[j] == s[j + 1]);
                }
            }
        }
    }
}

pub proof fn lemma_find_crlf_exact(s: Seq<u8>, i: int)
    requires
        0 <= i,
        i + 1 < s.len(),
        s[i] == 13,
        s[i + 1] == 10,
        forall|j: int| 0 <= j < i ==> !(#[trigger] s[j] == 13 && s[j + 1] == 10),
    ensures
        find_crlf(s) == Some(i),
    decreases i,
{
    if i > 0 {
        assert(forall|k: int| 0 <= k < s.len() - 1 ==> s.skip(1)[k] == s[k + 1]);
        lemma_find_crlf_exact(s.skip(1), i - 1);
    }
}

pub proof fn lemma_find_crlf_none(s: Seq<u8>)
    requires
        crlf_free(s),
    ensures
        find_crlf(s) is None,
    decreases s.len(),
{
    if s.len() >= 2 {
        assert(forall|k: int| 0 <= k < s.len() - 1 ==> s.skip(1)[k] == s[k + 1]);
        lemma_find_crlf_none(s.skip(1));
    }
}

/// The first CRLF pair at or after `from`, as an absolute index.
pub fn find_crlf_at(v: &Vec<u8>, from: usize) -> (r: Option<usize>)
    requires
        from <= v.len(),
    ensures
        match r {
            Some(i) => from <= i && i + 1 < v.len() && find_crlf(v@.skip(from as int)) == Some(
                i - from,
            ),
            None => find_crlf(v@.skip(from as int)) is None,
        },
{
    let ghost s = v@.skip(from as int);
    let mut i: usize = from;
    loop
        invariant
            from <= i <= v.len(),
            s == v@.skip(from as int),
            from <= v.len(),
            forall|j: int| 0 <= j < i - from ==> !(#[trigger] s[j] == 13 && s[j + 1] == 10),
        decreases v.len() - i,
    {
        if v.len() - i < 2 {
            proof {
                assert(forall|k: int| 0 <= k < s.len() ==> s[k] == v@[from + k]);
                assert(crlf_free(s));
                lemma_find_crlf_none(s);
            }
            return None;
        }
        if v[i] == 13 && v[i + 1] == 10 {
            proof {
                assert(forall|k: int| 0 <= k < s.len() ==> s[k] == v@[from + k]);
                lemma_find_crlf_exact(s, i - from);
            }
            return Some(i);
        }
        proof {
            assert(s[i - from] == v@[i as int]);
            assert(s[i - from + 1] == v@[i + 1]);
        }
        i = i + 1;
    }
}

/// Appends the decimal digits of `n` to `buf`.
pub fn push_udec(n: u64, buf: &mut Vec<u8>)
    ensures
        final(buf)@ == old(buf)@ + udec_repr(n as int),
    decreases n,
{
    if n < 10 {
        buf.push((n + 48) as u8);
        proof {
            assert(buf@ =~= old(buf)@ + udec_repr(n as int));
        }
    } else {
        push_udec(n / 10, buf);
        buf.push((n % 10 + 48) as u8);
        proof {
            assert(buf@ =~= old(buf)@ + udec_repr(n as int));
        }
    }
}

/// Appends the decimal form of `n`, with a minus sign when negative.
pub fn push_int(n: i64, buf: &mut Vec<u8>)
    ensures
        final(buf)@ == old(buf)@ + int_repr(n as int),
{
    if n >= 0 {
        push_udec(n as u64, buf);
    } else {
        buf.push(45);
        let mag: u64 = (-(n as i128)) as u64;
        push_udec(mag, buf);
        proof {
            assert(buf@ =~= old(buf)@ + int_repr(n as int));
        }
    }
}

/// Reads the bytes `v[from..to]` as a signed 32-bit decimal integer.
#[verifier::loop_isolation(false)]
pub fn parse_i32_range(v: &Vec<u8>, from: usize, to: usize) -> (r: Option<i32>)
    requires
        from <= to <= v.len(),
    ensures
        r == parse_i32_spec(v@.subrange(from as int, to as int)),
{
    let ghost s = v@.subrange(from as int, to as int);
    if from == to {
        return None;
    }
    let neg = v[from] == 45;
    let start: usize = if neg { from + 1 } else { from };
    if start == to {
        proof {
            assert(!is_digit(s[0]));
        }
        return None;
    }
    let ghost digits = v@.subrange(start as int, to as int);
    proof {
        if neg {
            assert(digits =~= s.skip(1));
        } else {
            assert(digits =~= s);
        }
    }
    let mut i: usize = start;
    let mut acc: u64 = 0;
    while i < to
        invariant
            start <= i <= to <= v.len(),
            start < to,
            digits == v@.subrange(start as int, to as int),
            forall|j: int| start <= j < i ==> is_digit(#[trigger] v@[j]),
            acc == dec_val(v@.subrange(start as int, i as int)),
            acc <= 0x8000_0000,
        decreases to - i,
    {
        let b = v[i];
        if b < 48 || b > 57 {
            proof {
                assert(!is_digit(digits[i - start]));
            }
            return None;
        }
        let next: u64 = acc * 10 + (b - 48) as u64;
        proof {
            let pre = v@.subrange(start as int, i as int);
            let cur = v@.subrange(start as int, i + 1);
            assert(cur.drop_last() =~= pre);
            assert(cur.last() == b);
            assert(dec_val(cur) == dec_val(pre) * 10 + (b - 48));
        }
        if next > 0x8000_0000 {
            proof {
                if all_digits(digits) {
                    lemma_dec_val_prefix(digits, i + 1 - start);
                    assert(digits.take(i + 1 - start) =~= v@.subrange(start as int, i + 1));
                    assert(dec_val(digits) > 0x8000_0000);
                }
            }
            return None;
        }
        acc = next;
        i = i + 1;
    }
    proof {
        assert(digits =~= v@.subrange(start as int, to as int));
        assert(all_digits(digits));
        assert(acc == dec_val(digits));
    }
    if neg {
        let m: i64 = -(acc as i64);
        return Some(m as i32);
    }
    if acc > 0x7fff_ffff {
        return None;
    }
    Some(acc as i32)
}

/// Reads the bytes `v[from..to]` as an unsigned 64-bit decimal integer.
#[verifier::loop_isolation(false)]
pub fn parse_u64_range(v: &Vec<u8>, from: usize, to: usize) -> (r: Option<u64>)
    requires
        from <= to <= v.len(),
    ensures
        r == parse_u64_spec(v@.subrange(from as int, to as int)),
{
    let ghost digits = v@.subrange(from as int, to as int);
    if from == to {
        return None;
    }
    let mut i: usize = from;
    let mut acc: u64 = 0;
    while i < to
        invariant
            from <= i <= to <= v.len(),
            from < to,
            digits == v@.subrange(from as int, to as int),
            forall|j: int| from <= j < i ==> is_digit(#[trigger] v@[j]),
            acc == dec_val(v@.subrange(from as int, i as int)),
        decreases to - i,
    {
        let b = v[i];
        if b < 48 || b > 57 {
            proof {
                assert(!is_digit(digits[i - from]));
            }
            return None;
        }
        let d: u64 = (b - 48) as u64;
        proof {
            let pre = v@.subrange(from as int, i as int);
            let cur = v@.subrange(from as int, i + 1);
            assert(cur.drop_last() =~= pre);
            assert(cur.last() == b);
            assert(dec_val(cur) == dec_val(pre) * 10 + (b - 48));
        }
        if acc > (u64::MAX - d) / 10 {
            proof {
                vstd::arithmetic::div_mod::lemma_fundamental_div_mod((u64::MAX - d) as int, 10);
                vstd::arithmetic::div_mod::lemma_mod_bound((u64::MAX - d) as int, 10);
                assert(acc * 10 + d > u64::MAX) by (nonlinear_arith)
                    requires
                        acc > (u64::MAX - d) as int / 10,
                        (u64::MAX - d) as int == 10 * ((u64::MAX - d) as int / 10) + (u64::MAX
                            - d) as int % 10,
                        0 <= (u64::MAX - d) as int % 10 < 10,
                ;
                if all_digits(digits) {
                    lemma_dec_val_prefix(digits, i + 1 - from);
                    assert(digits.take(i + 1 - from) =~= v@.subrange(from as int, i + 1));
                    assert(dec_val(digits) > u64::MAX);
                }
            }
            return None;
        }
        proof {
            assert(acc * 10 + d <= u64::MAX) by (nonlinear_arith)
                requires
                    acc <= (u64::MAX - d) as int / 10,
                    0 <= d,
                    (u64::MAX - d) as int / 10 * 10 <= (u64::MAX - d) as int,
            ;
        }
        acc = acc * 10 + d;
        i = i + 1;
    }
    proof {
        assert(digits =~= v@.subrange(from as int, to as int));
        assert(all_digits(digits));
    }
    Some(acc)
}

/// Case-insensitive equality of two ASCII byte strings.
pub fn eq_ignore_case(a: &[u8], b: &[u8]) -> (r: bool)
    ensures
        r == (lower_seq(a@) == lower_seq(b@)),
{
    if a.len() != b.len() {
        proof {
            assert(lower_seq(a@).len() != lower_seq(b@).len());
        }
        return false;
    }
    let mut i: usize = 0;
    while i < a.len()
        invariant
            a.len() == b.len(),
            i <= a.len(),
            forall|j: int| 0 <= j < i ==> lower_seq(a@)[j] == lower_seq(b@)[j],
        decreases a.len() - i,
    {
        let mut x = a[i];
        let mut y = b[i];
        if 65 <= x && x <= 90 {
            x = x + 32;
        }
        if 65 <= y && y <= 90 {
            y = y + 32;
        }
        if x != y {
            proof {
                assert(lower_seq(a@)[i as int] != lower_seq(b@)[i as int]);
            }
            return false;
        }
        i = i + 1;
    }
    proof {
        assert(lower_seq(a@) =~= lower_seq(b@));
    }
    true
}

/// Equality of two byte strings.
pub fn bytes_eq(a: &[u8], b: &[u8]) -> (r: bool)
    ensures
        r == (a@ == b@),
{
    if a.len() != b.len() {
        return false;
    }
    let mut i: usize = 0;
    while i < a.len()
        invariant
            a.len() == b.len(),
            i <= a.len(),
            forall|j: int| 0 <= j < i ==> a@[j] == b@[j],
        decreases a.len() - i,
    {
        if a[i] != b[i] {
            return false;
        }
        i = i + 1;
    }
    proof {
        assert(a@ =~= b@);
    }
    true
}

/// Removes the first `n` bytes of `v`, keeping the rest in order.
pub fn drain_front(v: &mut Vec<u8>, n: usize)
    requires
        n <= old(v).len(),
    ensures
        final(v)@ == old(v)@.skip(n as int),
{
    let mut out: Vec<u8> = Vec::new();
    let mut i: usize = n;
    while i < v.len()
        invariant
            n <= i <= v.len(),
            v@ == old(v)@,
            out@ =~= old(v)@.subrange(n as int, i as int),
        decreases v.len() - i,
    {
        let b = v[i];
        out.push(b);
        proof {
            assert(out@ =~= old(v)@.subrange(n as int, i + 1));
        }
        i = i + 1;
    }
    proof {
        assert(out@ =~= old(v)@.skip(n as int));
    }
    *v = out;
}

/// Copies `v[from..to]` into a fresh vector.
pub fn copy_range(v: &Vec<u8>, from: usize, to: usize) -> (r: Vec<u8>)
    requires
        from <= to <= v.len(),
    ensures
        r@ == v@.subrange(from as int, to as int),
{
    let mut out: Vec<u8> = Vec::new();
    let mut i: usize = from;
    while i < to
        invariant
            from <= i <= to <= v.len(),
            out@ =~= v@.subrange(from as int, i as int),
        decreases to - i,
    {
        let b = v[i];
        out.push(b);
        proof {
            assert(out@ =~= v@.subrange(from as int, i + 1));
        }
        i = i + 1;
    }
    out
}

/// Tests whether every byte of `v[from..to]` is a decimal digit.
pub fn all_digits_range(v: &Vec<u8>, from: usize, to: usize) -> (r: bool)
    requires
        from <= to <= v.len(),
    ensures
        r == all_digits(v@.subrange(from as int, to as int)),
{
    let ghost s = v@.subrange(from as int, to as int);
    let mut i: usize = from;
    while i < to
        invariant
            from <= i <= to <= v.len(),
            s == v@.subrange(from as int, to as int),
            forall|j: int| 0 <= j < i - from ==> is_digit(#[trigger] s[j]),
        decreases to - i,
    {
        let b = v[i];
        if b < 48 || b > 57 {
            proof {
                assert(s[i - from] == v@[i as int]);
            }
            return false;
        }
        proof {
            assert(s[i - from] == v@[i as int]);
        }
        i = i + 1;
    }
    true
}


/// Lower-cases an ASCII byte string.
pub fn to_lower_vec(p: &[u8]) -> (r: Vec<u8>)
    ensures
        r@ == lower_seq(p@),
{
    let mut out: Vec<u8> = Vec::new();
    let mut i: usize = 0;
    while i < p.len()
        invariant
            i <= p@.len(),
            out@.len() == i,
            forall|j: int| 0 <= j < i ==> out@[j] == ascii_lower(#[trigger] p@[j]),
        decreases p@.len() - i,
    {
        let mut b = p[i];
        if 65 <= b && b <= 90 {
            b = b + 32;
        }
        out.push(b);
        i = i + 1;
    }
    proof {
        assert(out@ =~= lower_seq(p@));
    }
    out
}

} // verus!
