use vstd::prelude::*;
use crate::probabilities::SCALE;

verus! {

/// ASCII whitespace: space, tab, line feed, vertical tab, form feed and
/// carriage return.
pub open spec fn is_space(c: u8) -> bool {
    c == 32 || (9 <= c && c <= 13)
}

fn is_space_exec(c: u8) -> (r: bool)
    ensures
        r == is_space(c),
{
    c == 32 || (9 <= c && c <= 13)
}

/// `s` without its leading whitespace.
pub open spec fn strip_front(s: Seq<u8>) -> Seq<u8>
    decreases s.len(),
{
    if s.len() > 0 && is_space(s[0]) {
        strip_front(s.skip(1))
    } else {
        s
    }
}

/// `s` without its trailing whitespace.
pub open spec fn strip_back(s: Seq<u8>) -> Seq<u8>
    decreases s.len(),
{
    if s.len() > 0 && is_space(s.last()) {
        strip_back(s.drop_last())
    } else {
        s
    }
}

/// `s` without whitespace at either end.
pub open spec fn trim(s: Seq<u8>) -> Seq<u8> {
    strip_back(strip_front(s))
}

/// Index of the first `ch` in `s`, or the length of `s` where there is none.
pub open spec fn first_of(s: Seq<u8>, ch: u8) -> nat
    decreases s.len(),
{
    if s.len() == 0 {
        0
    } else if s[0] == ch {
        0
    } else {
        1 + first_of(s.skip(1), ch)
    }
}

pub open spec fn is_digit(c: u8) -> bool {
    48 <= c <= 57
}

pub open spec fn all_digits(s: Seq<u8>) -> bool {
    forall|i: int| 0 <= i < s.len() ==> is_digit(#[trigger] s[i])
}

/// The number that a string of decimal digits writes.
pub open spec fn digits_value(s: Seq<u8>) -> nat
    decreases s.len(),
{
    if s.len() == 0 {
        0
    } else {
        digits_value(s.drop_last()) * 10 + (s.last() - 48) as nat
    }
}

pub open spec fn pow10(k: nat) -> nat
    decreases k,
{
    if k == 0 {
        1
    } else {
        10 * pow10((k - 1) as nat)
    }
}

/// The first nine digits after the point: those that `SCALE` can hold.
pub open spec fn head9(fp: Seq<u8>) -> Seq<u8> {
    if fp.len() <= 9 {
        fp
    } else {
        fp.subrange(0, 9)
    }
}

/// Every digit past the ninth after the point is a zero.
pub open spec fn zeros_past_nine(fp: Seq<u8>) -> bool {
    forall|i: int| 9 <= i < fp.len() ==> #[trigger] fp[i] == 48
}

/// A decimal number, `digits`, `digits.`, `.digits` or `digits.digits`, in
/// parts of `SCALE`. Digits past the ninth decimal place must be zeros.
/// Values above two are held as two, since no such value can be a
/// probability.
pub open spec fn decimal_parts(t: Seq<u8>) -> Option<nat> {
    let d = first_of(t, 46) as int;
    let ip = t.subrange(0, d);
    let fp = if d < t.len() {
        t.subrange(d + 1, t.len() as int)
    } else {
        Seq::empty()
    };
    if all_digits(ip) && all_digits(fp) && ip.len() + fp.len() > 0 && zeros_past_nine(fp) {
        let fk = head9(fp);
        let v: nat = digits_value(ip) * SCALE as nat + digits_value(fk) * pow10((9 - fk.len()) as nat);
        Some(
            if v > 2 * SCALE {
                (2 * SCALE) as nat
            } else {
                v
            },
        )
    } else {
        None
    }
}

/// Value of one comma-separated field: a decimal number between optional
/// whitespace.
pub open spec fn field_value(f: Seq<u8>) -> Option<nat> {
    decimal_parts(trim(f))
}

/// The values of the comma-separated fields of `s`, or `None` where one of
/// them is not a decimal number.
pub open spec fn parse_fields(s: Seq<u8>) -> Option<Seq<nat>>
    decreases s.len(),
{
    let c = first_of(s, 44) as int;
    match field_value(s.subrange(0, c)) {
        None => None,
        Some(v) => if c >= s.len() {
            Some(seq![v])
        } else {
            match parse_fields(s.subrange(c + 1, s.len() as int)) {
                None => None,
                Some(vs) => Some(seq![v] + vs),
            }
        },
    }
}

/// The text between the brackets of a list `[a, b, c, d]`: one `[` first
/// and one `]` last, with nothing but whitespace around them; `None` where
/// the text has no such form.
pub open spec fn list_body(b: Seq<u8>) -> Option<Seq<u8>> {
    let t = trim(b);
    if t.len() >= 2 && t[0] == 91 && t.last() == 93 {
        Some(t.subrange(1, t.len() - 1))
    } else {
        None
    }
}

/// The values of a list, or `None` where the text is not a bracketed list
/// of decimal numbers.
pub open spec fn list_values(b: Seq<u8>) -> Option<Seq<nat>> {
    match list_body(b) {
        None => None,
        Some(body) => parse_fields(body),
    }
}

proof fn lemma_first_of(s: Seq<u8>, ch: u8, d: int)
    requires
        0 <= d <= s.len(),
        forall|k: int| 0 <= k < d ==> s[k] != ch,
        d == s.len() || s[d] == ch,
    ensures
        first_of(s, ch) == d,
    decreases d,
{
    if d > 0 {
        lemma_first_of(s.skip(1), ch, d - 1);
    }
}

proof fn lemma_digits_bound(s: Seq<u8>)
    requires
        all_digits(s),
    ensures
        digits_value(s) < pow10(s.len()),
    decreases s.len(),
{
    if s.len() > 0 {
        lemma_digits_bound(s.drop_last());
    }
}

proof fn lemma_pow10_add(a: nat, b: nat)
    ensures
        pow10(a) * pow10(b) == pow10(a + b),
    decreases a,
{
    if a == 0 {
        assert(pow10(0) == 1);
        assert(a + b == b);
    } else {
        lemma_pow10_add((a - 1) as nat, b);
        assert(pow10(a + b) == 10 * pow10((a - 1 + b) as nat));
        assert(pow10(a) == 10 * pow10((a - 1) as nat));
        assert(pow10(a) * pow10(b) == 10 * (pow10((a - 1) as nat) * pow10(b))) by (nonlinear_arith)
            requires
                pow10(a) == 10 * pow10((a - 1) as nat),
        ;
    }
}

/// Start of what is left of `b[lo..hi]` once its leading whitespace
/// are stripped.
fn front_end(b: &[u8], lo: usize, hi: usize) -> (r: usize)
    requires
        lo <= hi <= b@.len(),
    ensures
        lo <= r <= hi,
        b@.subrange(r as int, hi as int) == strip_front(b@.subrange(lo as int, hi as int)),
{
    let mut i = lo;
    while i < hi && is_space_exec(b[i])
        invariant
            lo <= i <= hi <= b@.len(),
            strip_front(b@.subrange(lo as int, hi as int)) == strip_front(b@.subrange(i as int, hi as int)),
        decreases hi - i,
    {
        assert(b@.subrange(i as int, hi as int).skip(1) =~= b@.subrange(i + 1, hi as int));
        i = i + 1;
    }
    i
}

/// End of what is left of `b[lo..hi]` once its trailing whitespace
/// are stripped.
fn back_end(b: &[u8], lo: usize, hi: usize) -> (r: usize)
    requires
        lo <= hi <= b@.len(),
    ensures
        lo <= r <= hi,
        b@.subrange(lo as int, r as int) == strip_back(b@.subrange(lo as int, hi as int)),
{
    let mut i = hi;
    while i > lo && is_space_exec(b[i - 1])
        invariant
            lo <= i <= hi <= b@.len(),
            strip_back(b@.subrange(lo as int, hi as int)) == strip_back(b@.subrange(lo as int, i as int)),
        decreases i - lo,
    {
        assert(b@.subrange(lo as int, i as int).drop_last() =~= b@.subrange(lo as int, i - 1));
        i = i - 1;
    }
    i
}

/// Index of the first `ch` in `b[lo..hi]`, or `hi`.
fn find_byte(b: &[u8], lo: usize, hi: usize, ch: u8) -> (r: usize)
    requires
        lo <= hi <= b@.len(),
    ensures
        lo <= r <= hi,
        r - lo == first_of(b@.subrange(lo as int, hi as int), ch),
{
    let mut i = lo;
    while i < hi && b[i] != ch
        invariant
            lo <= i <= hi <= b@.len(),
            forall|k: int| lo <= k < i ==> b@[k] != ch,
        decreases hi - i,
    {
        i = i + 1;
    }
    proof {
        lemma_first_of(b@.subrange(lo as int, hi as int), ch, i - lo);
    }
    i
}

/// Value of the digits `b[lo..hi]`, held as two where it is more, or
/// `None` where one of them is no digit.
fn int_value(b: &[u8], lo: usize, hi: usize) -> (r: Option<u64>)
    requires
        lo <= hi <= b@.len(),
    ensures
        r is Some <==> all_digits(b@.subrange(lo as int, hi as int)),
        r matches Some(v) ==> v as nat == if digits_value(b@.subrange(lo as int, hi as int)) > 2 {
            2
        } else {
            digits_value(b@.subrange(lo as int, hi as int))
        },
{
    let mut iv: u64 = 0;
    let mut i = lo;
    while i < hi
        invariant
            lo <= i <= hi <= b@.len(),
            all_digits(b@.subrange(lo as int, i as int)),
            iv as nat == if digits_value(b@.subrange(lo as int, i as int)) > 2 {
                2
            } else {
                digits_value(b@.subrange(lo as int, i as int))
            },
        decreases hi - i,
    {
        let c = b[i];
        if !(48 <= c && c <= 57) {
            assert(b@.subrange(lo as int, hi as int)[i - lo] == c);
            return None;
        }
        assert(b@.subrange(lo as int, i + 1).drop_last() =~= b@.subrange(lo as int, i as int));
        let next = iv * 10 + (c - 48) as u64;
        iv = if next > 2 {
            2
        } else {
            next
        };
        i = i + 1;
    }
    assert(b@.subrange(lo as int, hi as int) =~= b@.subrange(lo as int, i as int));
    Some(iv)
}

/// The digits after a decimal point, `b[lo..hi]`: the value of the first
/// nine and how many of them there are, or `None` where one is no digit or
/// a digit past the ninth is not zero.
fn frac_value(b: &[u8], lo: usize, hi: usize) -> (r: Option<(u64, usize)>)
    requires
        lo <= hi <= b@.len(),
    ensures
        r is Some <==> all_digits(b@.subrange(lo as int, hi as int)) && zeros_past_nine(
            b@.subrange(lo as int, hi as int),
        ),
        r matches Some(p) ==> p.1 == head9(b@.subrange(lo as int, hi as int)).len() && p.0 as nat
            == digits_value(head9(b@.subrange(lo as int, hi as int))) && p.0 < pow10(p.1 as nat),
{
    let ghost fp = b@.subrange(lo as int, hi as int);
    let end9 = if hi - lo > 9 {
        lo + 9
    } else {
        hi
    };
    assert(head9(fp) =~= b@.subrange(lo as int, end9 as int));
    let mut fv: u64 = 0;
    let mut j = lo;
    while j < end9
        invariant
            lo <= j <= end9 <= hi <= b@.len(),
            end9 - lo <= 9,
            fp == b@.subrange(lo as int, hi as int),
            all_digits(b@.subrange(lo as int, j as int)),
            fv as nat == digits_value(b@.subrange(lo as int, j as int)),
            fv < pow10((j - lo) as nat),
        decreases end9 - j,
    {
        let c = b[j];
        if !(48 <= c && c <= 57) {
            assert(fp[j - lo] == c);
            return None;
        }
        assert(b@.subrange(lo as int, j + 1).drop_last() =~= b@.subrange(lo as int, j as int));
        proof {
            reveal_with_fuel(pow10, 11);
            assert(pow10((j - lo) as nat) <= 100_000_000);
        }
        fv = fv * 10 + (c - 48) as u64;
        j = j + 1;
    }
    let mut k = end9;
    while k < hi
        invariant
            end9 <= k <= hi <= b@.len(),
            fp == b@.subrange(lo as int, hi as int),
            hi - lo > 9 ==> end9 == lo + 9,
            hi - lo <= 9 ==> end9 == hi,
            forall|i: int| end9 <= i < k ==> b@[i] == 48,
        decreases hi - k,
    {
        let c = b[k];
        if c != 48 {
            assert(fp[k - lo] == c);
            if 48 <= c && c <= 57 {
                assert(!zeros_past_nine(fp));
            } else {
                assert(!all_digits(fp));
            }
            return None;
        }
        k = k + 1;
    }
    assert(b@.subrange(lo as int, end9 as int) =~= head9(fp));
    assert(all_digits(fp)) by {
        assert forall|i: int| 0 <= i < fp.len() implies is_digit(#[trigger] fp[i]) by {
            if i < end9 - lo {
                assert(b@.subrange(lo as int, end9 as int)[i] == fp[i]);
            }
        }
    }
    Some((fv, end9 - lo))
}

/// `10^(9 - k)`: the parts of `SCALE` in one unit of the `k`th decimal place.
fn place_value(k: usize) -> (p: u64)
    requires
        k <= 9,
    ensures
        p as nat == pow10((9 - k) as nat),
        p <= 1_000_000_000,
{
    let mut p: u64 = 1;
    let mut e: usize = 0;
    while e < 9 - k
        invariant
            e <= 9 - k,
            k <= 9,
            p as nat == pow10(e as nat),
            p <= 1_000_000_000,
        decreases 9 - k - e,
    {
        proof {
            reveal_with_fuel(pow10, 10);
            lemma_pow10_add(e as nat, (9 - e) as nat);
            assert(pow10((9 - e) as nat) >= 10) by {
                lemma_pow10_add(1, (8 - e) as nat);
                assert(pow10((8 - e) as nat) >= 1) by {
                    lemma_digits_bound(Seq::<u8>::empty());
                }
            }
            assert(p * 10 <= 1_000_000_000) by (nonlinear_arith)
                requires
                    p * pow10((9 - e) as nat) == 1_000_000_000,
                    pow10((9 - e) as nat) >= 10,
            ;
        }
        p = p * 10;
        e = e + 1;
    }
    p
}

/// Reads the decimal number `b[lo..hi]` in parts of `SCALE`.
pub fn parse_decimal(b: &[u8], lo: usize, hi: usize) -> (r: Option<u64>)
    requires
        lo <= hi <= b@.len(),
    ensures
        match r {
            Some(v) => decimal_parts(b@.subrange(lo as int, hi as int)) == Some(v as nat),
            None => decimal_parts(b@.subrange(lo as int, hi as int)) is None,
        },
{
    let ghost t = b@.subrange(lo as int, hi as int);
    let d = find_byte(b, lo, hi, 46);
    let ghost ip = t.subrange(0, d - lo);
    let ghost fp = if d < hi {
        t.subrange(d - lo + 1, t.len() as int)
    } else {
        Seq::<u8>::empty()
    };
    assert(ip =~= b@.subrange(lo as int, d as int));
    let f_lo = if d < hi {
        d + 1
    } else {
        hi
    };
    assert(fp =~= b@.subrange(f_lo as int, hi as int));
    if (d - lo) + (hi - f_lo) == 0 {
        return None;
    }
    let iv = match int_value(b, lo, d) {
        None => {
            return None;
        },
        Some(v) => v,
    };
    let (fv, k) = match frac_value(b, f_lo, hi) {
        None => {
            return None;
        },
        Some(x) => x,
    };
    let p = place_value(k);
    proof {
        lemma_pow10_add(k as nat, (9 - k) as nat);
        reveal_with_fuel(pow10, 10);
        assert(fv * p < 1_000_000_000) by (nonlinear_arith)
            requires
                fv < pow10(k as nat),
                p == pow10((9 - k) as nat),
                pow10(k as nat) * pow10((9 - k) as nat) == 1_000_000_000,
        ;
    }
    if iv >= 2 {
        proof {
            assert(digits_value(ip) >= 2);
            assert(digits_value(ip) * SCALE >= 2 * SCALE) by (nonlinear_arith)
                requires
                    digits_value(ip) >= 2,
            ;
        }
        Some(2 * SCALE)
    } else {
        Some(iv * SCALE + fv * p)
    }
}

pub open spec fn as_nats(v: Seq<u64>) -> Seq<nat> {
    v.map_values(|x: u64| x as nat)
}

/// Reads the values of a bracketed, comma-separated list such as
/// `[0.1, 0.2, 0.3, 0.4]`, in parts of `SCALE`: whitespace may stand around
/// the list and around each value, and each value is a decimal number.
pub fn parse_values(b: &[u8]) -> (r: Option<Vec<u64>>)
    ensures
        match r {
            Some(v) => list_values(b@) == Some(as_nats(v@)),
            None => list_values(b@) is None,
        },
{
    let t_lo = front_end(b, 0, b.len());
    let t_hi = back_end(b, t_lo, b.len());
    assert(b@.subrange(0, b@.len() as int) =~= b@);
    let ghost t = b@.subrange(t_lo as int, t_hi as int);
    assert(t == trim(b@));
    if t_hi - t_lo < 2 || b[t_lo] != 91 || b[t_hi - 1] != 93 {
        assert(list_body(b@) is None);
        return None;
    }
    let lo0 = t_lo + 1;
    let hi0 = t_hi - 1;
    let ghost body = b@.subrange(lo0 as int, hi0 as int);
    assert(body =~= t.subrange(1, t.len() - 1));
    let mut vals: Vec<u64> = Vec::new();
    let mut pos = lo0;
    loop
        invariant
            lo0 <= pos <= hi0 <= b@.len(),
            body == b@.subrange(lo0 as int, hi0 as int),
            list_body(b@) == Some(body),
            parse_fields(body) == match parse_fields(b@.subrange(pos as int, hi0 as int)) {
                None => None,
                Some(vs) => Some(as_nats(vals@) + vs),
            },
        decreases hi0 - pos,
    {
        let ghost rest = b@.subrange(pos as int, hi0 as int);
        let c = find_byte(b, pos, hi0, 44);
        let f_lo = front_end(b, pos, c);
        let f_hi = back_end(b, f_lo, c);
        assert(rest.subrange(0, c - pos) =~= b@.subrange(pos as int, c as int));
        match parse_decimal(b, f_lo, f_hi) {
            None => {
                return None;
            },
            Some(v) => {
                let ghost before = vals@;
                vals.push(v);
                assert(as_nats(vals@) =~= as_nats(before) + seq![v as nat]);
            },
        }
        if c == hi0 {
            assert(parse_fields(rest) == Some(seq![vals@.last() as nat]));
            assert(as_nats(vals@) =~= as_nats(vals@.drop_last()) + seq![vals@.last() as nat]);
            return Some(vals);
        }
        assert(rest.subrange(c - pos + 1, rest.len() as int) =~= b@.subrange(c + 1, hi0 as int));
        pos = c + 1;
    }
}

} // verus!
