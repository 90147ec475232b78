use vstd::prelude::*;
use vstd::utf8::{decode_utf8, valid_utf8};

verus! {

pub open spec fn is_digit(b: u8) -> bool {
    48 <= b <= 57
}

pub open spec fn all_digits(s: Seq<u8>) -> bool {
    forall|i: int| 0 <= i < s.len() ==> is_digit(#[trigger] s[i])
}

/// Value of a string of decimal digits, most significant first.
pub open spec fn digits_value(s: Seq<u8>) -> int
    decreases s.len(),
{
    if s.len() == 0 {
        0
    } else {
        digits_value(s.drop_last()) * 10 + (s.last() - 48)
    }
}

/// The integer that decimal text denotes: an optional sign followed by at
/// least one digit, whose value fits in an `i64`.
pub open spec fn int_of_text(s: Seq<u8>) -> Option<i64> {
    if s.len() > 0 && (s[0] == 45 || s[0] == 43) {
        let body = s.drop_first();
        let v = if s[0] == 45 { -digits_value(body) } else { digits_value(body) };
        if body.len() > 0 && all_digits(body) && i64::MIN <= v <= i64::MAX {
            Some(v as i64)
        } else {
            None
        }
    } else if s.len() > 0 && all_digits(s) && digits_value(s) <= i64::MAX {
        Some(digits_value(s) as i64)
    } else {
        None
    }
}

/// Decimal digits of a natural number, without leading zeros.
pub open spec fn nat_text(n: nat) -> Seq<u8>
    decreases n,
{
    if n < 10 {
        seq![(48 + n) as u8]
    } else {
        nat_text(n / 10).push((48 + n % 10) as u8)
    }
}

/// Canonical decimal text of an integer: a minus sign for negative values.
pub open spec fn int_text(v: int) -> Seq<u8> {
    if v < 0 {
        seq![45u8] + nat_text((-v) as nat)
    } else {
        nat_text(v as nat)
    }
}

pub proof fn lemma_nat_text(n: nat)
    ensures
        nat_text(n).len() > 0,
        all_digits(nat_text(n)),
        digits_value(nat_text(n)) == n,
        nat_text(n)[0] != 45 && nat_text(n)[0] != 43,
    decreases n,
{
    let t = nat_text(n);
    if n >= 10 {
        lemma_nat_text(n / 10);
        assert(t.drop_last() =~= nat_text(n / 10));
        assert(t.last() == (48 + n % 10) as u8);
        assert((n / 10) * 10 + n % 10 == n) by (nonlinear_arith);
        assert(t.last() - 48 == n % 10);
        assert(digits_value(t) == digits_value(t.drop_last()) * 10 + (t.last() - 48));
        assert forall|k: int| 0 <= k < t.len() implies is_digit(#[trigger] t[k]) by {
            if k < t.len() - 1 {
                assert(t[k] == nat_text(n / 10)[k]);
            }
        }
    } else {
        assert(t.drop_last() =~= Seq::<u8>::empty());
        assert(digits_value(t) == digits_value(t.drop_last()) * 10 + (t.last() - 48));
    }
}

pub proof fn lemma_int_text_round_trip(v: i64)
    ensures
        int_of_text(int_text(v as int)) == Some(v),
{
    if v < 0 {
        let m = (-v) as nat;
        lemma_nat_text(m);
        let t = int_text(v as int);
        assert(t.drop_first() =~= nat_text(m));
    } else {
        lemma_nat_text(v as nat);
    }
}

/// Decimal text of an unsigned value, appended to `out`.
fn push_nat_text(n: u64, out: &mut Vec<u8>)
    ensures
        final(out)@ == old(out)@ + nat_text(n as nat),
    decreases n,
{
    if n < 10 {
        out.push((48 + n) as u8);
    } else {
        push_nat_text(n / 10, out);
        out.push((48 + n % 10) as u8);
    }
}

/// Appends the canonical decimal text of `v` to `out`.
pub fn push_int_text(v: i64, out: &mut Vec<u8>)
    ensures
        final(out)@ == old(out)@ + int_text(v as int),
{
    if v < 0 {
        let magnitude: u64 = (-(v as i128)) as u64;
        out.push(45u8);
        push_nat_text(magnitude, out);
        assert(final(out)@ =~= old(out)@ + int_text(v as int));
    } else {
        push_nat_text(v as u64, out);
    }
}

/// Least of `v` and a cap just past the largest magnitude an `i64` can hold.
pub open spec fn capped(v: int) -> int {
    if v > 9223372036854775809 { 9223372036854775809 } else { v }
}

/// Reads the digits of `s[from..]`; `None` where one is no digit.
fn digits_capped(s: &[u8], from: usize) -> (r: Option<u64>)
    requires
        from <= s@.len(),
    ensures
        r is Some <==> all_digits(s@.subrange(from as int, s@.len() as int)),
        r is Some ==> r->0 as int == capped(digits_value(s@.subrange(from as int, s@.len() as int))),
{
    let cap: u64 = 9223372036854775809;
    let mut acc: u64 = 0;
    let mut i: usize = from;
    while i < s.len()
        invariant
            from <= i <= s@.len(),
            all_digits(s@.subrange(from as int, i as int)),
            acc as int == capped(digits_value(s@.subrange(from as int, i as int))),
            cap == 9223372036854775809,
        decreases s@.len() - i,
    {
        let b = s[i];
        let ghost pre = s@.subrange(from as int, i as int);
        let ghost post = s@.subrange(from as int, i + 1);
        proof {
            assert(post.drop_last() =~= pre);
        }
        if b < 48 || b > 57 {
            proof {
                let whole = s@.subrange(from as int, s@.len() as int);
                assert(whole[i - from] == b);
            }
            return None;
        }
        let d = (b - 48) as u64;
        proof {
            let v = digits_value(pre);
            assert(v >= 0) by {
                lemma_digits_nonneg(pre);
            }
            if v > cap {
                assert(v * 10 + d >= cap) by (nonlinear_arith)
                    requires v > cap, d >= 0;
            }
        }
        if acc >= cap {
            acc = cap;
        } else {
            let next: u128 = acc as u128 * 10 + d as u128;
            acc = if next > cap as u128 { cap } else { next as u64 };
        }
        i += 1;
        proof {
            assert forall|k: int| 0 <= k < post.len() implies is_digit(#[trigger] post[k]) by {
                if k < pre.len() {
                    assert(post[k] == pre[k]);
                }
            }
        }
    }
    Some(acc)
}

pub proof fn lemma_digits_nonneg(s: Seq<u8>)
    requires
        all_digits(s),
    ensures
        digits_value(s) >= 0,
    decreases s.len(),
{
    if s.len() > 0 {
        let p = s.drop_last();
        assert(all_digits(p)) by {
            assert forall|k: int| 0 <= k < p.len() implies is_digit(#[trigger] p[k]) by {
                assert(p[k] == s[k]);
            }
        }
        lemma_digits_nonneg(p);
        assert(is_digit(s[s.len() - 1]));
    }
}

/// Parses decimal text as a signed 64-bit integer.
pub fn parse_int(s: &[u8]) -> (r: Option<i64>)
    ensures
        r == int_of_text(s@),
{
    if s.len() == 0 {
        return None;
    }
    let neg = s[0] == 45u8;
    let signed = neg || s[0] == 43u8;
    let start: usize = if signed { 1 } else { 0 };
    if signed && s.len() == 1 {
        assert(s@.drop_first().len() == 0);
        return None;
    }
    let d = digits_capped(s, start);
    proof {
        if signed {
            assert(s@.subrange(1, s@.len() as int) =~= s@.drop_first());
        } else {
            assert(s@.subrange(0, s@.len() as int) =~= s@);
        }
    }
    match d {
        None => None,
        Some(m) => {
            proof {
                let body = s@.subrange(start as int, s@.len() as int);
                lemma_digits_nonneg(body);
            }
            if neg {
                if m <= 9223372036854775808 {
                    Some((-(m as i128)) as i64)
                } else {
                    None
                }
            } else if m <= 9223372036854775807 {
                Some(m as i64)
            } else {
                None
            }
        },
    }
}

/// Parses decimal text as an unsigned tag number.
pub open spec fn tag_of_text(s: Seq<u8>) -> Option<u32> {
    match int_of_text(s) {
        Some(v) => if 0 <= v <= u32::MAX {
            Some(v as u32)
        } else {
            None
        },
        None => None,
    }
}

pub fn parse_tag(s: &[u8]) -> (r: Option<u32>)
    ensures
        r == tag_of_text(s@),
{
    match parse_int(s) {
        Some(v) => if 0 <= v && v <= 4294967295 {
            Some(v as u32)
        } else {
            None
        },
        None => None,
    }
}

/// First index at or after `from` that holds `b`.
pub open spec fn find_byte(s: Seq<u8>, from: int, b: u8) -> Option<int>
    decreases s.len() - from,
{
    if from < 0 || from >= s.len() {
        None
    } else if s[from] == b {
        Some(from)
    } else {
        find_byte(s, from + 1, b)
    }
}

pub proof fn lemma_find_byte(s: Seq<u8>, from: int, b: u8)
    requires
        0 <= from,
    ensures
        match find_byte(s, from, b) {
            Some(k) => from <= k < s.len() && s[k] == b && forall|j: int|
                from <= j < k ==> s[j] != b,
            None => forall|j: int| from <= j < s.len() ==> s[j] != b,
        },
    decreases s.len() - from,
{
    if from < s.len() && s[from] != b {
        lemma_find_byte(s, from + 1, b);
    }
}

/// Searches `s[from..]` for `b`.
pub fn find(s: &[u8], from: usize, b: u8) -> (r: Option<usize>)
    ensures
        r == (match find_byte(s@, from as int, b) {
            Some(k) => Some(k as usize),
            None => None::<usize>,
        }),
        r is Some ==> r->0 < s@.len(),
{
    let mut i: usize = from;
    while i < s.len()
        invariant
            from <= i,
            find_byte(s@, from as int, b) == find_byte(s@, i as int, b),
        decreases s@.len() - i,
    {
        if s[i] == b {
            return Some(i);
        }
        i += 1;
    }
    None
}

pub open spec fn is_sign(b: u8) -> bool {
    b == 43 || b == 45
}

pub open spec fn ascii_lower(b: u8) -> u8 {
    if 65 <= b <= 90 { (b + 32) as u8 } else { b }
}

pub open spec fn digits_in(s: Seq<u8>, lo: int, hi: int) -> bool {
    forall|k: int| lo <= k < hi ==> is_digit(#[trigger] s[k])
}

/// `s[from..]` spells the lower-case word `w`, ignoring ASCII case.
pub open spec fn word_at(s: Seq<u8>, from: int, w: Seq<u8>) -> bool {
    s.len() - from == w.len() && forall|k: int| 0 <= k < w.len() ==> ascii_lower(#[trigger] s[from + k]) == w[k]
}

/// End of the mantissa: the first `e` or `E` at or after `from`.
pub open spec fn exp_index(s: Seq<u8>, from: int) -> int {
    match (find_byte(s, from, 101), find_byte(s, from, 69)) {
        (Some(a), Some(b)) => if a < b { a } else { b },
        (Some(a), None) => a,
        (None, Some(b)) => b,
        (None, None) => s.len() as int,
    }
}

/// `s[lo..hi]` is digits, with at most one `.`, and at least one digit.
pub open spec fn mantissa_in(s: Seq<u8>, lo: int, hi: int) -> bool {
    let d = match find_byte(s, lo, 46) {
        Some(k) => if k < hi { k } else { hi },
        None => hi,
    };
    digits_in(s, lo, d) && if d == hi {
        d > lo
    } else {
        digits_in(s, d + 1, hi) && (d > lo || hi > d + 1)
    }
}

/// `s[lo..hi]` is an optional sign followed by at least one digit.
pub open spec fn exponent_in(s: Seq<u8>, lo: int, hi: int) -> bool {
    let st = if lo < hi && is_sign(s[lo]) { lo + 1 } else { lo };
    st < hi && digits_in(s, st, hi)
}

/// Text of a floating-point number: an optional sign, then `inf`,
/// `infinity` or `nan` in any case, or digits with an optional point and an
/// optional exponent.
pub open spec fn float_text(s: Seq<u8>) -> bool {
    let st = if s.len() > 0 && is_sign(s[0]) { 1int } else { 0int };
    let e = exp_index(s, st);
    ||| word_at(s, st, seq![105u8, 110, 102])
    ||| word_at(s, st, seq![105u8, 110, 102, 105, 110, 105, 116, 121])
    ||| word_at(s, st, seq![110u8, 97, 110])
    ||| mantissa_in(s, st, e) && (e == s.len() || exponent_in(s, e + 1, s.len() as int))
}

fn digits_between(s: &[u8], lo: usize, hi: usize) -> (r: bool)
    requires
        lo <= hi <= s@.len(),
    ensures
        r == digits_in(s@, lo as int, hi as int),
{
    let mut i: usize = lo;
    while i < hi
        invariant
            lo <= i <= hi <= s@.len(),
            digits_in(s@, lo as int, i as int),
        decreases hi - i,
    {
        if s[i] < 48 || s[i] > 57 {
            return false;
        }
        i += 1;
    }
    true
}

fn word_from(s: &[u8], from: usize, w: &[u8]) -> (r: bool)
    requires
        from <= s@.len(),
    ensures
        r == word_at(s@, from as int, w@),
{
    if s.len() - from != w.len() {
        return false;
    }
    let n = s.len();
    let mut k: usize = 0;
    while k < w.len()
        invariant
            n == s@.len(),
            from <= s@.len(),
            s@.len() - from == w@.len(),
            k <= w@.len(),
            forall|j: int| 0 <= j < k ==> ascii_lower(#[trigger] s@[from + j]) == w@[j],
        decreases w@.len() - k,
    {
        let b = s[from + k];
        let l = if 65 <= b && b <= 90 { b + 32 } else { b };
        if l != w[k] {
            return false;
        }
        k += 1;
    }
    true
}

/// Tells whether `s` is the text of a floating-point number.
pub fn is_float_text(s: &[u8]) -> (r: bool)
    ensures
        r == float_text(s@),
{
    let st: usize = if s.len() > 0 && (s[0] == 43u8 || s[0] == 45u8) { 1 } else { 0 };
    let inf: [u8; 3] = [105u8, 110, 102];
    let infinity: [u8; 8] = [105u8, 110, 102, 105, 110, 105, 116, 121];
    let nan: [u8; 3] = [110u8, 97, 110];
    assert(inf@ =~= seq![105u8, 110, 102]);
    assert(infinity@ =~= seq![105u8, 110, 102, 105, 110, 105, 116, 121]);
    assert(nan@ =~= seq![110u8, 97, 110]);
    if word_from(s, st, inf.as_slice()) || word_from(s, st, infinity.as_slice())
        || word_from(s, st, nan.as_slice()) {
        return true;
    }
    proof {
        lemma_find_byte(s@, st as int, 101u8);
        lemma_find_byte(s@, st as int, 69u8);
        lemma_find_byte(s@, st as int, 46u8);
    }
    let e: usize = match (find(s, st, 101u8), find(s, st, 69u8)) {
        (Some(a), Some(b)) => if a < b { a } else { b },
        (Some(a), None) => a,
        (None, Some(b)) => b,
        (None, None) => s.len(),
    };
    let d: usize = match find(s, st, 46u8) {
        Some(k) => if k < e { k } else { e },
        None => e,
    };
    let mantissa = digits_between(s, st, d) && if d == e {
        d > st
    } else {
        digits_between(s, d + 1, e) && (d > st || e > d + 1)
    };
    if !mantissa {
        return false;
    }
    if e == s.len() {
        return true;
    }
    let x: usize = if e + 1 < s.len() && (s[e + 1] == 43u8 || s[e + 1] == 45u8) { e + 2 } else { e + 1 };
    assert(e as int == exp_index(s@, st as int));
    x < s.len() && digits_between(s, x, s.len())
}

/// Relies on `std::str::from_utf8`: succeeds exactly on valid UTF-8, whose
/// characters it returns, then on `str::to_owned` to copy them.
#[verifier::external_body]
pub fn utf8_text(b: &[u8]) -> (r: Option<String>)
    ensures
        r is Some <==> valid_utf8(b@),
        r is Some ==> r->0@ == decode_utf8(b@),
{
    std::str::from_utf8(b).ok().map(|s| s.to_owned())
}

} // verus!
