//! Byte-level text utilities: decimal formatting and parsing over
//! fixed-point values, searching, and suffix tests.
//!
//! All text in the library is handled as bytes. Coordinates and heights
//! are fixed-point values in micro-units: an `i64` counts millionths of
//! the unit (meters or degrees) it stands for.

use vstd::prelude::*;

verus! {

/// ASCII codes used throughout the library.
pub const B_MINUS: u8 = 45;

pub const B_PLUS: u8 = 43;

pub const B_DOT: u8 = 46;

pub const B_ZERO: u8 = 48;

pub const B_NINE: u8 = 57;

pub const B_COMMA: u8 = 44;

pub const B_COLON: u8 = 58;

/// One million: the denominator of the fixed-point coordinate encoding.
pub const MICRO: i64 = 1_000_000;

/// Largest magnitude of the integer part that decimal parsing accepts,
/// so that the fixed-point value always fits an `i64`.
pub const MAX_INT_PART: i64 = 1_000_000_000_000;

pub open spec fn is_digit(b: u8) -> bool {
    B_ZERO <= b <= B_NINE
}

pub open spec fn all_digits(s: Seq<u8>) -> bool {
    forall|i: int| 0 <= i < s.len() ==> is_digit(#[trigger] s[i])
}

/// The number denoted by a sequence of ASCII digits (most significant first).
pub open spec fn digits_value(s: Seq<u8>) -> int
    decreases s.len(),
{
    if s.len() == 0 {
        0
    } else {
        digits_value(s.drop_last()) * 10 + (s.last() - B_ZERO)
    }
}

/// The shortest ASCII digit run denoting `n`.
pub open spec fn dec_digits(n: nat) -> Seq<u8>
    decreases n,
{
    if n < 10 {
        seq![(B_ZERO + n) as u8]
    } else {
        dec_digits(n / 10) + seq![(B_ZERO + n % 10) as u8]
    }
}

/// Appends every byte of `s` to `out`.
pub fn push_bytes(out: &mut Vec<u8>, s: &[u8])
    ensures
        final(out)@ == old(out)@ + s@,
{
    let mut i: usize = 0;
    while i < s.len()
        invariant
            i <= s@.len(),
            out@ == old(out)@ + s@.subrange(0, i as int),
        decreases s@.len() - i,
    {
        out.push(s[i]);
        i = i + 1;
        assert(out@ =~= old(out)@ + s@.subrange(0, i as int));
    }
    assert(out@ =~= old(out)@ + s@);
}

/// Appends the decimal digits of `n` to `out`.
pub fn push_u64_decimal(out: &mut Vec<u8>, n: u64)
    ensures
        final(out)@ == old(out)@ + dec_digits(n as nat),
    decreases n,
{
    if n < 10 {
        out.push(B_ZERO + (n as u8));
        assert(out@ =~= old(out)@ + dec_digits(n as nat));
    } else {
        assert(n / 10 < n && n % 10 < 10) by (nonlinear_arith)
            requires
                n >= 10,
        ;
        push_u64_decimal(out, n / 10);
        out.push(B_ZERO + ((n % 10) as u8));
        assert(out@ =~= old(out)@ + dec_digits(n as nat));
    }
}

/// The fixed-point value `v` (micro-units) written as a plain decimal:
/// an optional minus sign, the integer part, a dot, and exactly six
/// fraction digits.
#[verifier::opaque]
pub open spec fn micro_decimal(v: int) -> Seq<u8> {
    if v < 0 {
        seq![B_MINUS] + micro_decimal_nonneg(-v)
    } else {
        micro_decimal_nonneg(v)
    }
}

pub open spec fn micro_decimal_nonneg(v: int) -> Seq<u8> {
    dec_digits((v / (MICRO as int)) as nat) + seq![B_DOT] + frac6_digits(v % (MICRO as int))
}

/// Six zero-padded digits of a fraction `0 <= f < 1_000_000`.
pub open spec fn frac6_digits(f: int) -> Seq<u8> {
    seq![
        (B_ZERO + f / 100000 % 10) as u8,
        (B_ZERO + f / 10000 % 10) as u8,
        (B_ZERO + f / 1000 % 10) as u8,
        (B_ZERO + f / 100 % 10) as u8,
        (B_ZERO + f / 10 % 10) as u8,
        (B_ZERO + f % 10) as u8,
    ]
}

/// Appends the decimal rendering of the fixed-point value `v` to `out`.
pub fn push_micro_decimal(out: &mut Vec<u8>, v: i64)
    requires
        v > i64::MIN,
    ensures
        final(out)@ == old(out)@ + micro_decimal(v as int),
{
    let m: u64 = if v < 0 {
        out.push(B_MINUS);
        (-v) as u64
    } else {
        v as u64
    };
    let whole: u64 = m / 1_000_000;
    let frac: u64 = m % 1_000_000;
    push_u64_decimal(out, whole);
    out.push(B_DOT);
    out.push(B_ZERO + ((frac / 100000 % 10) as u8));
    out.push(B_ZERO + ((frac / 10000 % 10) as u8));
    out.push(B_ZERO + ((frac / 1000 % 10) as u8));
    out.push(B_ZERO + ((frac / 100 % 10) as u8));
    out.push(B_ZERO + ((frac / 10 % 10) as u8));
    out.push(B_ZERO + ((frac % 10) as u8));
    proof {
        reveal(micro_decimal);
        assert(out@ =~= old(out)@ + micro_decimal(v as int));
    }
}

pub proof fn lemma_digits_value_nonneg(s: Seq<u8>)
    requires
        all_digits(s),
    ensures
        digits_value(s) >= 0,
    decreases s.len(),
{
    if s.len() > 0 {
        assert(all_digits(s.drop_last()));
        lemma_digits_value_nonneg(s.drop_last());
    }
}

/// Appending digits never shrinks the denoted value.
pub proof fn lemma_digits_value_extend_ge(s: Seq<u8>, t: Seq<u8>)
    requires
        all_digits(t),
        s.len() <= t.len(),
        s =~= t.subrange(0, s.len() as int),
    ensures
        digits_value(t) >= digits_value(s),
    decreases t.len() - s.len(),
{
    if s.len() < t.len() {
        let u = t.drop_last();
        assert(all_digits(u));
        assert(s =~= u.subrange(0, s.len() as int));
        lemma_digits_value_extend_ge(s, u);
        lemma_digits_value_nonneg(u);
    } else {
        assert(t.subrange(0, s.len() as int) =~= t);
    }
}

/// Index of the first occurrence of `b` in `s`, or `-1` when absent.
pub open spec fn find_first(s: Seq<u8>, b: u8) -> int
    decreases s.len(),
{
    if s.len() == 0 {
        -1
    } else if s[0] == b {
        0
    } else {
        let r = find_first(s.subrange(1, s.len() as int), b);
        if r < 0 {
            -1
        } else {
            r + 1
        }
    }
}

pub proof fn lemma_find_first_here(s: Seq<u8>, b: u8, i: int)
    requires
        0 <= i < s.len(),
        s[i] == b,
        forall|j: int| 0 <= j < i ==> s[j] != b,
    ensures
        find_first(s, b) == i,
    decreases s.len(),
{
    if i > 0 {
        let t = s.subrange(1, s.len() as int);
        assert(t[i - 1] == b);
        assert(forall|j: int| 0 <= j < i - 1 ==> t[j] == s[j + 1] && #[trigger] t[j] != b);
        lemma_find_first_here(t, b, i - 1);
    }
}

pub proof fn lemma_find_first_absent(s: Seq<u8>, b: u8)
    requires
        forall|j: int| 0 <= j < s.len() ==> s[j] != b,
    ensures
        find_first(s, b) == -1,
    decreases s.len(),
{
    if s.len() > 0 {
        let t = s.subrange(1, s.len() as int);
        assert(forall|j: int| 0 <= j < t.len() ==> t[j] == s[j + 1] && #[trigger] t[j] != b);
        lemma_find_first_absent(t, b);
    }
}

/// First index of `b` in `s` at or after `from`.
pub fn find_byte_from(s: &[u8], from: usize, b: u8) -> (r: Option<usize>)
    requires
        from <= s@.len(),
    ensures
        match r {
            Some(i) => from <= i < s@.len() && s@[i as int] == b && (forall|j: int|
                from <= j < i ==> s@[j] != b),
            None => forall|j: int| from <= j < s@.len() ==> s@[j] != b,
        },
{
    let mut i: usize = from;
    while i < s.len()
        invariant
            from <= i <= s@.len(),
            forall|j: int| from <= j < i ==> s@[j] != b,
        decreases s@.len() - i,
    {
        if s[i] == b {
            return Some(i);
        }
        i = i + 1;
    }
    None
}

/// Whether the bytes of `a` and `b` are identical.
pub fn bytes_eq(a: &[u8], b: &[u8]) -> (r: bool)
    ensures
        r == (a@ == b@),
{
    if a.len() != b.len() {
        return false;
    }
    let mut i: usize = 0;
    while i < a.len()
        invariant
            i <= a@.len(),
            a@.len() == b@.len(),
            forall|j: int| 0 <= j < i ==> a@[j] == b@[j],
        decreases a@.len() - i,
    {
        if a[i] != b[i] {
            return false;
        }
        i = i + 1;
    }
    assert(a@ =~= b@);
    true
}

/// Whether `s` ends with `suffix`.
pub fn ends_with(s: &[u8], suffix: &[u8]) -> (r: bool)
    ensures
        r == (s@.len() >= suffix@.len() && s@.subrange(
            s@.len() - suffix@.len(),
            s@.len() as int,
        ) == suffix@),
{
    if s.len() < suffix.len() {
        return false;
    }
    let base: usize = s.len() - suffix.len();
    let ghost tail = s@.subrange(s@.len() - suffix@.len(), s@.len() as int);
    let mut j: usize = base;
    while j < s.len()
        invariant
            base <= j <= s@.len(),
            s@.len() == suffix@.len() + base,
            tail == s@.subrange(s@.len() - suffix@.len(), s@.len() as int),
            forall|k: int| base <= k < j ==> s@[k] == suffix@[k - base],
        decreases s@.len() - j,
    {
        if s[j] != suffix[j - base] {
            assert(tail[j - base] != suffix@[j - base]);
            return false;
        }
        j = j + 1;
    }
    assert(tail =~= suffix@);
    true
}

/// `10^n`.
pub open spec fn pow10(n: nat) -> int
    decreases n,
{
    if n == 0 {
        1
    } else {
        10 * pow10((n - 1) as nat)
    }
}

/// The declared text with a single leading `+` or `-` removed.
pub open spec fn sign_stripped(s: Seq<u8>) -> Seq<u8> {
    if s.len() > 0 && (s[0] == B_MINUS || s[0] == B_PLUS) {
        s.subrange(1, s.len() as int)
    } else {
        s
    }
}

pub open spec fn is_negative_literal(s: Seq<u8>) -> bool {
    s.len() > 0 && s[0] == B_MINUS
}

/// The digits before the first dot (after the sign).
pub open spec fn int_part(s: Seq<u8>) -> Seq<u8> {
    let b = sign_stripped(s);
    let i = find_first(b, B_DOT);
    if i < 0 {
        b
    } else {
        b.subrange(0, i)
    }
}

/// The text after the first dot (after the sign).
pub open spec fn frac_part(s: Seq<u8>) -> Seq<u8> {
    let b = sign_stripped(s);
    let i = find_first(b, B_DOT);
    if i < 0 {
        Seq::empty()
    } else {
        b.subrange(i + 1, b.len() as int)
    }
}

/// A plain decimal literal: optional sign, digits, optional dot and
/// fraction digits, with at least one digit overall.
pub open spec fn is_plain_decimal(s: Seq<u8>) -> bool {
    all_digits(int_part(s)) && all_digits(frac_part(s)) && int_part(s).len() + frac_part(s).len()
        >= 1
}

/// The fraction digits cut or zero-padded to exactly six places.
pub open spec fn frac6(f: Seq<u8>) -> Seq<u8> {
    if f.len() >= 6 {
        f.subrange(0, 6)
    } else {
        f + Seq::new((6 - f.len()) as nat, |i: int| B_ZERO)
    }
}

/// The value of a plain decimal literal in micro-units, truncated to
/// six fraction digits.
pub open spec fn decimal_micro_value(s: Seq<u8>) -> int {
    let m = digits_value(int_part(s)) * (MICRO as int) + digits_value(frac6(frac_part(s)));
    if is_negative_literal(s) {
        -m
    } else {
        m
    }
}

/// Parses a plain decimal literal into a fixed-point micro-unit value.
///
/// Succeeds exactly on well-formed literals whose integer part is below
/// `MAX_INT_PART`; fraction digits beyond the sixth are checked but
/// truncated.
#[verifier::rlimit(60)]
pub fn parse_decimal_micro(s: &[u8]) -> (r: Option<i64>)
    ensures
        r is Some <==> is_plain_decimal(s@) && digits_value(int_part(s@)) < MAX_INT_PART as int,
        match r {
            Some(v) => v == decimal_micro_value(s@),
            None => true,
        },
{
    let n: usize = s.len();
    let signed: bool = n > 0 && (s[0] == B_MINUS || s[0] == B_PLUS);
    let start: usize = if signed {
        1
    } else {
        0
    };
    let neg: bool = n > 0 && s[0] == B_MINUS;
    let ghost b = sign_stripped(s@);
    proof {
        assert(b =~= s@.subrange(start as int, n as int));
    }
    let dot = find_byte_from(s, start, B_DOT);
    let ip_end: usize = match dot {
        Some(d) => d,
        None => n,
    };
    let fp_start: usize = match dot {
        Some(d) => d + 1,
        None => n,
    };
    proof {
        match dot {
            Some(d) => {
                assert(b[d - start] == B_DOT);
                assert(forall|j: int| 0 <= j < d - start ==> b[j] == s@[j + start]);
                lemma_find_first_here(b, B_DOT, d - start);
            },
            None => {
                assert(forall|j: int| 0 <= j < b.len() ==> b[j] == s@[j + start]);
                lemma_find_first_absent(b, B_DOT);
            },
        }
        assert(int_part(s@) =~= s@.subrange(start as int, ip_end as int));
        assert(frac_part(s@) =~= s@.subrange(fp_start as int, n as int));
    }
    if ip_end - start == 0 && n - fp_start == 0 {
        return None;
    }
    let ghost ip = int_part(s@);
    let ghost fp = frac_part(s@);
    let mut acc: u64 = 0;
    let mut k: usize = start;
    while k < ip_end
        invariant
            start <= k <= ip_end <= n == s@.len(),
            ip == int_part(s@),
            ip =~= s@.subrange(start as int, ip_end as int),
            all_digits(s@.subrange(start as int, k as int)),
            acc == digits_value(s@.subrange(start as int, k as int)),
            acc < MAX_INT_PART as u64,
        decreases ip_end - k,
    {
        let c = s[k];
        if c < B_ZERO || c > B_NINE {
            assert(ip[k - start] == c);
            assert(!is_plain_decimal(s@));
            return None;
        }
        proof {
            assert(s@.subrange(start as int, k + 1 as int).drop_last() =~= s@.subrange(
                start as int,
                k as int,
            ));
        }
        if acc >= 100_000_000_000 {
            proof {
                if all_digits(ip) {
                    lemma_digits_value_extend_ge(
                        s@.subrange(start as int, (k + 1) as int),
                        ip,
                    );
                }
            }
            return None;
        }
        acc = acc * 10 + ((c - B_ZERO) as u64);
        k = k + 1;
    }
    assert(all_digits(ip) && acc == digits_value(ip));
    let mut facc: u64 = 0;
    let mut fcnt: usize = 0;
    let mut k2: usize = fp_start;
    while k2 < n
        invariant
            fp_start <= k2 <= n == s@.len(),
            fp == frac_part(s@),
            all_digits(ip),
            fp =~= s@.subrange(fp_start as int, n as int),
            all_digits(s@.subrange(fp_start as int, k2 as int)),
            fcnt == if k2 - fp_start <= 6 {
                k2 - fp_start
            } else {
                6int
            },
            facc == digits_value(s@.subrange(fp_start as int, (fp_start + fcnt) as int)),
            facc < pow10(fcnt as nat),
            fcnt <= 6,
        decreases n - k2,
    {
        let c = s[k2];
        if c < B_ZERO || c > B_NINE {
            assert(fp[k2 - fp_start] == c);
            assert(!is_plain_decimal(s@));
            return None;
        }
        proof {
            assert(s@.subrange(fp_start as int, (k2 + 1) as int).drop_last() =~= s@.subrange(
                fp_start as int,
                k2 as int,
            ));
            reveal_with_fuel(pow10, 8);
        }
        if fcnt < 6 {
            proof {
                assert(s@.subrange(fp_start as int, (fp_start + fcnt + 1) as int).drop_last()
                    =~= s@.subrange(fp_start as int, (fp_start + fcnt) as int));
            }
            facc = facc * 10 + ((c - B_ZERO) as u64);
            fcnt = fcnt + 1;
        }
        k2 = k2 + 1;
    }
    assert(all_digits(fp));
    proof {
        reveal_with_fuel(pow10, 8);
    }
    let ghost padded = s@.subrange(fp_start as int, (fp_start + fcnt) as int);
    let mut pad: Ghost<Seq<u8>> = Ghost(padded);
    proof {
        assert(pad@ =~= frac6(fp).subrange(0, fcnt as int));
    }
    while fcnt < 6
        invariant
            fcnt <= 6,
            fcnt == 6 || fp.len() <= fcnt,
            facc == digits_value(pad@),
            facc < pow10(fcnt as nat),
            pad@ =~= frac6(fp).subrange(0, fcnt as int),
            all_digits(pad@),
        decreases 6 - fcnt,
    {
        proof {
            reveal_with_fuel(pow10, 8);
            assert(frac6(fp).subrange(0, (fcnt + 1) as int).drop_last() =~= frac6(fp).subrange(
                0,
                fcnt as int,
            ));
            assert(frac6(fp)[fcnt as int] == B_ZERO);
        }
        facc = facc * 10;
        proof {
            pad@ = pad@.push(B_ZERO);
            assert(pad@ =~= frac6(fp).subrange(0, (fcnt + 1) as int));
        }
        fcnt = fcnt + 1;
    }
    proof {
        assert(pad@ =~= frac6(fp));
        reveal_with_fuel(pow10, 8);
    }
    let m: u64 = acc * 1_000_000 + facc;
    if neg {
        Some(-(m as i64))
    } else {
        Some(m as i64)
    }
}

/// The comma-separated fields of `s`: splitting the empty text gives
/// one empty field, and every comma begins a new field.
pub open spec fn split_fields(s: Seq<u8>) -> Seq<Seq<u8>>
    decreases s.len(),
{
    if s.len() == 0 {
        seq![Seq::empty()]
    } else if s.last() == B_COMMA {
        split_fields(s.drop_last()) + seq![Seq::empty()]
    } else {
        let rest = split_fields(s.drop_last());
        rest.update(rest.len() - 1, rest.last().push(s.last()))
    }
}

pub proof fn lemma_split_fields_len(s: Seq<u8>)
    ensures
        split_fields(s).len() >= 1,
    decreases s.len(),
{
    if s.len() > 0 {
        lemma_split_fields_len(s.drop_last());
    }
}

/// Splits `s` into its comma-separated fields.
pub fn split_on_commas(s: &[u8]) -> (r: Vec<Vec<u8>>)
    ensures
        r.deep_view() == split_fields(s@),
        r@.len() >= 1,
{
    let mut done: Vec<Vec<u8>> = Vec::new();
    let mut cur: Vec<u8> = Vec::new();
    let mut i: usize = 0;
    proof {
        assert(s@.subrange(0, 0) =~= Seq::<u8>::empty());
        assert(done.deep_view().push(cur@) =~~= split_fields(s@.subrange(0, 0)));
    }
    while i < s.len()
        invariant
            i <= s@.len(),
            done.deep_view().push(cur@) =~~= split_fields(s@.subrange(0, i as int)),
        decreases s@.len() - i,
    {
        let ghost pre = s@.subrange(0, i as int);
        let ghost curfields = split_fields(pre);
        proof {
            lemma_split_fields_len(pre);
            assert(s@.subrange(0, (i + 1) as int).drop_last() =~= pre);
        }
        let b = s[i];
        if b == B_COMMA {
            done.push(cur);
            cur = Vec::new();
            proof {
                assert(done.deep_view().push(cur@) =~~= split_fields(
                    s@.subrange(0, (i + 1) as int),
                ));
            }
        } else {
            cur.push(b);
            proof {
                assert(curfields.update(curfields.len() - 1, curfields.last().push(b))
                    =~~= done.deep_view().push(cur@));
            }
        }
        i = i + 1;
    }
    proof {
        assert(s@.subrange(0, s@.len() as int) =~= s@);
    }
    done.push(cur);
    proof {
        assert(done.deep_view() =~~= split_fields(s@));
    }
    done
}

/// A plain integer literal: an optional sign and at least one digit.
pub open spec fn is_plain_int(s: Seq<u8>) -> bool {
    all_digits(sign_stripped(s)) && sign_stripped(s).len() >= 1
}

pub open spec fn int_value(s: Seq<u8>) -> int {
    if is_negative_literal(s) {
        -digits_value(sign_stripped(s))
    } else {
        digits_value(sign_stripped(s))
    }
}

/// Parses a plain integer literal whose magnitude fits `i32`.
pub fn parse_plain_i32(s: &[u8]) -> (r: Option<i32>)
    ensures
        r is Some <==> is_plain_int(s@) && digits_value(sign_stripped(s@)) <= i32::MAX as int,
        match r {
            Some(v) => v == int_value(s@),
            None => true,
        },
{
    let n: usize = s.len();
    let signed: bool = n > 0 && (s[0] == B_MINUS || s[0] == B_PLUS);
    let start: usize = if signed {
        1
    } else {
        0
    };
    let neg: bool = n > 0 && s[0] == B_MINUS;
    let ghost b = sign_stripped(s@);
    proof {
        assert(b =~= s@.subrange(start as int, n as int));
    }
    if n - start == 0 {
        return None;
    }
    let mut acc: u64 = 0;
    let mut k: usize = start;
    while k < n
        invariant
            start <= k <= n == s@.len(),
            b == sign_stripped(s@),
            b =~= s@.subrange(start as int, n as int),
            all_digits(s@.subrange(start as int, k as int)),
            acc == digits_value(s@.subrange(start as int, k as int)),
            acc <= i32::MAX as u64,
        decreases n - k,
    {
        let c = s[k];
        if c < B_ZERO || c > B_NINE {
            assert(b[k - start] == c);
            return None;
        }
        proof {
            assert(s@.subrange(start as int, (k + 1) as int).drop_last() =~= s@.subrange(
                start as int,
                k as int,
            ));
        }
        let next: u64 = acc * 10 + ((c - B_ZERO) as u64);
        if next > i32::MAX as u64 {
            proof {
                if all_digits(b) {
                    lemma_digits_value_extend_ge(s@.subrange(start as int, (k + 1) as int), b);
                }
            }
            return None;
        }
        acc = next;
        k = k + 1;
    }
    assert(all_digits(b) && acc == digits_value(b));
    if neg {
        Some(-(acc as i32))
    } else {
        Some(acc as i32)
    }
}

/// The bytes of `s` with a terminating NUL appended, as a C call
/// expects its path arguments.
pub fn c_string_bytes(s: &[u8]) -> (r: Vec<u8>)
    ensures
        r@ == s@ + seq![0u8],
{
    let mut buf: Vec<u8> = Vec::new();
    push_bytes(&mut buf, s);
    buf.push(0);
    assert(buf@ =~= s@ + seq![0u8]);
    buf
}

/// Whether `s` begins with `prefix`.
pub fn starts_with(s: &[u8], prefix: &[u8]) -> (r: bool)
    ensures
        r == (s@.len() >= prefix@.len() && s@.subrange(0, prefix@.len() as int) == prefix@),
{
    if s.len() < prefix.len() {
        return false;
    }
    let mut i: usize = 0;
    while i < prefix.len()
        invariant
            i <= prefix@.len() <= s@.len(),
            forall|j: int| 0 <= j < i ==> s@[j] == prefix@[j],
        decreases prefix@.len() - i,
    {
        if s[i] != prefix[i] {
            proof {
                assert(s@.subrange(0, prefix@.len() as int)[i as int] != prefix@[i as int]);
            }
            return false;
        }
        i = i + 1;
    }
    assert(s@.subrange(0, prefix@.len() as int) =~= prefix@);
    true
}

} // verus!
