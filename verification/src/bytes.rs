//! Byte-level helpers shared by the header and record parsers: ASCII
//! whitespace trimming, case folding, line splitting, decimal numbers.
use vstd::prelude::*;

verus! {

/// `u8::is_ascii_whitespace`: tab, line feed, form feed, carriage return, space.
pub open spec fn is_ascii_ws(b: u8) -> bool {
    b == 9u8 || b == 10u8 || b == 12u8 || b == 13u8 || b == 32u8
}

/// `u8::to_ascii_lowercase`.
pub open spec fn lower_byte(b: u8) -> u8 {
    if 65u8 <= b && b <= 90u8 {
        (b + 32) as u8
    } else {
        b
    }
}

/// `<[u8]>::to_ascii_lowercase`.
pub open spec fn lower_seq(s: Seq<u8>) -> Seq<u8> {
    Seq::new(s.len(), |i: int| lower_byte(s[i]))
}

/// `<[u8]>::eq_ignore_ascii_case`.
pub open spec fn eq_ignore_case(a: Seq<u8>, b: Seq<u8>) -> bool {
    lower_seq(a) == lower_seq(b)
}

/// Index of the first byte at or after `i` that is not ASCII white space.
pub open spec fn trim_start_from(s: Seq<u8>, i: int) -> int
    decreases s.len() - i,
{
    if 0 <= i < s.len() && is_ascii_ws(s[i]) {
        trim_start_from(s, i + 1)
    } else {
        i
    }
}

/// End (exclusive) of `s[lo..j]` after dropping trailing ASCII white space.
pub open spec fn trim_end_from(s: Seq<u8>, lo: int, j: int) -> int
    decreases j - lo,
{
    if lo < j && j <= s.len() && is_ascii_ws(s[j - 1]) {
        trim_end_from(s, lo, j - 1)
    } else {
        j
    }
}

/// `<[u8]>::trim_ascii`.
pub open spec fn trim_ascii(s: Seq<u8>) -> Seq<u8> {
    let a = trim_start_from(s, 0);
    s.subrange(a, trim_end_from(s, a, s.len() as int))
}

/// Index of the first `b` at or after `i`, or `s.len()` if there is none.
pub open spec fn find_from(s: Seq<u8>, b: u8, i: int) -> int
    decreases s.len() - i,
{
    if i < 0 {
        find_from(s, b, 0)
    } else if i >= s.len() {
        s.len() as int
    } else if s[i] == b {
        i
    } else {
        find_from(s, b, i + 1)
    }
}

/// End (exclusive) of the line that starts at `i`, including its `'\n'`;
/// what `BufRead::read_until(b'\n', ..)` consumes.
pub open spec fn line_end_from(s: Seq<u8>, i: int) -> int {
    let f = find_from(s, 10u8, i);
    if f < s.len() {
        f + 1
    } else {
        s.len() as int
    }
}

/// A line with its `"\r\n"` or `"\n"` ending removed.
pub open spec fn strip_eol(line: Seq<u8>) -> Seq<u8> {
    if line.len() >= 2 && line[line.len() - 2] == 13u8 && line[line.len() - 1] == 10u8 {
        line.subrange(0, line.len() - 2)
    } else if line.len() >= 1 && line[line.len() - 1] == 10u8 {
        line.subrange(0, line.len() - 1)
    } else {
        line
    }
}

/// Value of a string of ASCII digits.
pub open spec fn digits_value(s: Seq<u8>) -> nat
    decreases s.len(),
{
    if s.len() == 0 {
        0
    } else {
        digits_value(s.drop_last()) * 10 + (s.last() - 48) as nat
    }
}

pub open spec fn is_digit(b: u8) -> bool {
    48u8 <= b && b <= 57u8
}

pub open spec fn all_digits(s: Seq<u8>) -> bool {
    forall|i: int| 0 <= i < s.len() ==> #[trigger] is_digit(s[i])
}

/// Digits of an unsigned decimal number as `FromStr` for unsigned integers reads
/// them: an optional `'+'`, then at least one ASCII digit and nothing else.
pub open spec fn unsigned_digits(s: Seq<u8>) -> Seq<u8> {
    if s.len() > 0 && s[0] == 43u8 {
        s.drop_first()
    } else {
        s
    }
}

/// Value of a decimal number as `FromStr` for unsigned integers reads it, or
/// `None` if it is not one or exceeds `max`.
pub open spec fn parse_unsigned(s: Seq<u8>, max: nat) -> Option<nat> {
    let d = unsigned_digits(s);
    if d.len() > 0 && all_digits(d) && digits_value(d) <= max {
        Some(digits_value(d))
    } else {
        None
    }
}

/// Decimal representation of `n` as `ToString` writes it.
pub open spec fn decimal(n: nat) -> Seq<u8>
    decreases n,
{
    if n < 10 {
        seq![(48 + n) as u8]
    } else {
        decimal(n / 10) + seq![(48 + n % 10) as u8]
    }
}

pub proof fn lemma_trim_start_bounds(s: Seq<u8>, i: int)
    requires
        0 <= i <= s.len(),
    ensures
        i <= trim_start_from(s, i) <= s.len(),
    decreases s.len() - i,
{
    if i < s.len() && is_ascii_ws(s[i]) {
        lemma_trim_start_bounds(s, i + 1);
    }
}

pub proof fn lemma_trim_end_bounds(s: Seq<u8>, lo: int, j: int)
    requires
        0 <= lo <= j <= s.len(),
    ensures
        lo <= trim_end_from(s, lo, j) <= j,
    decreases j - lo,
{
    if lo < j && is_ascii_ws(s[j - 1]) {
        lemma_trim_end_bounds(s, lo, j - 1);
    }
}

pub proof fn lemma_find_from_bounds(s: Seq<u8>, b: u8, i: int)
    requires
        0 <= i,
    ensures
        i <= find_from(s, b, i) <= s.len() || (i > s.len() && find_from(s, b, i) == s.len()),
        find_from(s, b, i) < s.len() ==> s[find_from(s, b, i)] == b,
        forall|k: int| i <= k < find_from(s, b, i) ==> s[k] != b,
    decreases s.len() - i,
{
    if i < s.len() && s[i] != b {
        lemma_find_from_bounds(s, b, i + 1);
    }
}

/// Scanning from `i` in `s.skip(k)` finds what scanning from `i + k` in `s` finds.
pub proof fn lemma_find_from_skip(s: Seq<u8>, b: u8, k: int, i: int)
    requires
        0 <= k <= s.len(),
        0 <= i,
    ensures
        find_from(s.skip(k), b, i) + k == find_from(s, b, i + k),
    decreases s.len() - k - i,
{
    if i < s.len() - k && s.skip(k)[i] != b {
        lemma_find_from_skip(s, b, k, i + 1);
    }
}

pub proof fn lemma_line_end_bounds(s: Seq<u8>, i: int)
    requires
        0 <= i < s.len(),
    ensures
        i < line_end_from(s, i) <= s.len(),
{
    lemma_find_from_bounds(s, 10u8, i);
}

pub proof fn lemma_line_end_skip(s: Seq<u8>, k: int)
    requires
        0 <= k <= s.len(),
    ensures
        line_end_from(s.skip(k), 0) + k == line_end_from(s, k),
{
    lemma_find_from_skip(s, 10u8, k, 0);
}

/// A line ends at the first `'\n'` of a sequence that starts with it.
pub proof fn lemma_line_end_prefix(line: Seq<u8>, rest: Seq<u8>)
    requires
        line.len() > 0,
        line.last() == 10u8,
        forall|k: int| 0 <= k < line.len() - 1 ==> line[k] != 10u8,
    ensures
        line_end_from(line + rest, 0) == line.len(),
{
    let s = line + rest;
    lemma_find_from_bounds(s, 10u8, 0);
    let f = find_from(s, 10u8, 0);
    if f < line.len() - 1 {
        assert(s[f] == line[f]);
    }
    assert(s[line.len() - 1] == 10u8);
}

pub proof fn lemma_digits_value_prefix_monotone(s: Seq<u8>, i: int, j: int)
    requires
        0 <= i <= j <= s.len(),
    ensures
        digits_value(s.take(i)) <= digits_value(s.take(j)),
    decreases j - i,
{
    if i < j {
        lemma_digits_value_prefix_monotone(s, i, j - 1);
        assert(s.take(j).drop_last() =~= s.take(j - 1));
    }
}

/// Reading back what `decimal` writes gives the number.
pub proof fn lemma_decimal_parse(n: nat)
    ensures
        decimal(n).len() > 0,
        all_digits(decimal(n)),
        decimal(n)[0] != 43u8,
        digits_value(decimal(n)) == n,
    decreases n,
{
    if n < 10 {
        let d = decimal(n);
        assert((48 + n) as u8 == 48 + n);
        assert(d.drop_last() =~= Seq::<u8>::empty());
        assert(digits_value(Seq::<u8>::empty()) == 0);
        assert(digits_value(d) == digits_value(d.drop_last()) * 10 + (d.last() - 48) as nat);
        assert(is_digit(d[0]));
    } else {
        lemma_decimal_parse(n / 10);
        let d = decimal(n);
        assert(d.drop_last() =~= decimal(n / 10));
        assert(n % 10 < 10);
        assert((48 + n % 10) as u8 == 48 + n % 10);
        assert(d.last() == (48 + n % 10) as u8);
        assert(n == (n / 10) * 10 + n % 10);
        assert(digits_value(d) == digits_value(d.drop_last()) * 10 + (d.last() - 48) as nat);
        assert forall|i: int| 0 <= i < d.len() implies #[trigger] is_digit(d[i]) by {
            if i < d.len() - 1 {
                assert(is_digit(decimal(n / 10)[i]));
            }
        }
    }
}

/// `<[u8]>::trim_ascii` as a pair of indices into `s`.
pub fn trim_ascii_bounds(s: &[u8]) -> (r: (usize, usize))
    ensures
        r.0 <= r.1 <= s@.len(),
        s@.subrange(r.0 as int, r.1 as int) == trim_ascii(s@),
{
    let mut a: usize = 0;
    while a < s.len() && (s[a] == 9 || s[a] == 10 || s[a] == 12 || s[a] == 13 || s[a] == 32)
        invariant
            a <= s@.len(),
            trim_start_from(s@, 0) == trim_start_from(s@, a as int),
        decreases s@.len() - a,
    {
        a = a + 1;
    }
    let mut b: usize = s.len();
    while b > a && (s[b - 1] == 9 || s[b - 1] == 10 || s[b - 1] == 12 || s[b - 1] == 13 || s[b
        - 1] == 32)
        invariant
            a <= b <= s@.len(),
            trim_start_from(s@, 0) == a,
            trim_end_from(s@, a as int, s@.len() as int) == trim_end_from(s@, a as int, b as int),
        decreases b,
    {
        b = b - 1;
    }
    (a, b)
}

/// `<[u8]>::trim_ascii`, copied into a new vector.
pub fn trim_ascii_vec(s: &[u8]) -> (r: Vec<u8>)
    ensures
        r@ == trim_ascii(s@),
{
    let (a, b) = trim_ascii_bounds(s);
    vstd::slice::slice_to_vec(vstd::slice::slice_subrange(s, a, b))
}

/// `u8::to_ascii_lowercase`.
pub fn lower(b: u8) -> (r: u8)
    ensures
        r == lower_byte(b),
{
    if 65 <= b && b <= 90 {
        b + 32
    } else {
        b
    }
}

/// `<[u8]>::to_ascii_lowercase`.
pub fn to_lower_vec(s: &[u8]) -> (r: Vec<u8>)
    ensures
        r@ == lower_seq(s@),
{
    let mut out: Vec<u8> = Vec::with_capacity(s.len());
    let mut i: usize = 0;
    while i < s.len()
        invariant
            i <= s@.len(),
            out@ == lower_seq(s@).take(i as int),
        decreases s@.len() - i,
    {
        out.push(lower(s[i]));
        i = i + 1;
        assert(out@ =~= lower_seq(s@).take(i as int));
    }
    assert(out@ =~= lower_seq(s@));
    out
}

/// `<[u8]>::eq_ignore_ascii_case`.
pub fn eq_ignore_ascii_case(a: &[u8], b: &[u8]) -> (r: bool)
    ensures
        r == eq_ignore_case(a@, b@),
{
    if a.len() != b.len() {
        assert(lower_seq(a@).len() != lower_seq(b@).len());
        return false;
    }
    let mut i: usize = 0;
    while i < a.len()
        invariant
            i <= a@.len(),
            a@.len() == b@.len(),
            forall|j: int| 0 <= j < i ==> lower_byte(a@[j]) == lower_byte(b@[j]),
        decreases a@.len() - i,
    {
        if lower(a[i]) != lower(b[i]) {
            assert(lower_seq(a@)[i as int] != lower_seq(b@)[i as int]);
            return false;
        }
        i = i + 1;
    }
    assert(lower_seq(a@) =~= lower_seq(b@));
    true
}

/// Byte equality of two slices.
pub fn bytes_eq(a: &[u8], b: &[u8]) -> (r: bool)
    ensures
        r == (a@ == b@),
{
    if a.len() != b.len() {
        return false;
    }
    let mut i: usize = 0;
    while i < a.len()
        invariant
            i <= a@.len(),
            a@.len() == b@.len(),
            forall|j: int| 0 <= j < i ==> a@[j] == b@[j],
        decreases a@.len() - i,
    {
        if a[i] != b[i] {
            return false;
        }
        i = i + 1;
    }
    assert(a@ =~= b@);
    true
}

/// `<[u8]>::starts_with`.
pub fn starts_with(s: &[u8], prefix: &[u8]) -> (r: bool)
    ensures
        r == (prefix@.len() <= s@.len() && s@.take(prefix@.len() as int) == prefix@),
{
    if prefix.len() > s.len() {
        return false;
    }
    let mut i: usize = 0;
    while i < prefix.len()
        invariant
            i <= prefix@.len() <= s@.len(),
            forall|j: int| 0 <= j < i ==> s@[j] == prefix@[j],
        decreases prefix@.len() - i,
    {
        if s[i] != prefix[i] {
            assert(s@.take(prefix@.len() as int)[i as int] != prefix@[i as int]);
            return false;
        }
        i = i + 1;
    }
    assert(s@.take(prefix@.len() as int) =~= prefix@);
    true
}

/// Position of the first `b` at or after `from`, or `s.len()`.
pub fn find_byte_from(s: &[u8], b: u8, from: usize) -> (r: usize)
    requires
        from <= s@.len(),
    ensures
        r == find_from(s@, b, from as int),
        from <= r <= s@.len(),
{
    let mut i = from;
    while i < s.len() && s[i] != b
        invariant
            from <= i <= s@.len(),
            find_from(s@, b, from as int) == find_from(s@, b, i as int),
        decreases s@.len() - i,
    {
        i = i + 1;
    }
    i
}

/// Value of an unsigned decimal number (see [`parse_unsigned`]) if it does
/// not exceed `max`.
pub fn parse_decimal(s: &[u8], max: u64) -> (r: Option<u64>)
    ensures
        r == (match parse_unsigned(s@, max as nat) {
            Some(v) => Some(v as u64),
            None => None::<u64>,
        }),
{
    let start: usize = if s.len() > 0 && s[0] == 43 {
        1
    } else {
        0
    };
    let ghost d = unsigned_digits(s@);
    assert(d =~= s@.skip(start as int));
    if start >= s.len() {
        return None;
    }
    let mut v: u64 = 0;
    let mut i: usize = start;
    while i < s.len()
        invariant
            start <= i <= s@.len(),
            start < s@.len(),
            d == s@.skip(start as int),
            d == unsigned_digits(s@),
            forall|j: int| 0 <= j < i - start ==> #[trigger] is_digit(d[j]),
            v as nat == digits_value(d.take(i - start)),
            v <= max,
        decreases s@.len() - i,
    {
        let c = s[i];
        let ghost k = (i - start) as int;
        if !(48 <= c && c <= 57) {
            assert(d[k] == c);
            assert(!is_digit(d[k]));
            assert(!all_digits(d));
            assert(parse_unsigned(s@, max as nat).is_none());
            return None;
        }
        assert(d.take(k + 1).drop_last() =~= d.take(k));
        assert(d.take(k + 1).last() == c);
        assert(digits_value(d.take(k + 1)) == v * 10 + (c - 48) as nat);
        proof {
            lemma_digits_value_prefix_monotone(d, k + 1, d.len() as int);
            assert(d.take(d.len() as int) =~= d);
        }
        if v > max / 10 {
            assert(v * 10 + (c - 48) as nat > max) by (nonlinear_arith)
                requires
                    v > max / 10,
                    c >= 48,
            ;
            return None;
        }
        let next = v * 10;
        if (c - 48) as u64 > max || next > max - (c - 48) as u64 {
            return None;
        }
        v = next + (c - 48) as u64;
        i = i + 1;
    }
    assert(d.take(d.len() as int) =~= d);
    Some(v)
}

/// Decimal representation of `n` (`n.to_string()` as bytes).
pub fn decimal_bytes(n: usize) -> (r: Vec<u8>)
    ensures
        r@ == decimal(n as nat),
    decreases n,
{
    if n < 10 {
        let mut v: Vec<u8> = Vec::new();
        v.push((48 + n) as u8);
        assert(v@ =~= decimal(n as nat));
        v
    } else {
        let mut v = decimal_bytes(n / 10);
        v.push((48 + n % 10) as u8);
        assert(v@ =~= decimal(n as nat));
        v
    }
}

} // verus!
