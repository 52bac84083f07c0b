//! Byte-level text helpers: whitespace, trimming, digit runs and numbers.
use vstd::prelude::*;
use vstd::slice::slice_subrange;

verus! {

/// ASCII whitespace: space, tab, line feed, vertical tab, form feed, carriage return.
pub open spec fn is_ws(c: u8) -> bool {
    c == 32 || c == 9 || c == 10 || c == 11 || c == 12 || c == 13
}

pub fn is_ws_exec(c: u8) -> (r: bool)
    ensures
        r == is_ws(c),
{
    c == 32 || c == 9 || c == 10 || c == 11 || c == 12 || c == 13
}

/// The sequence without its leading whitespace.
pub open spec fn trim_start(s: Seq<u8>) -> Seq<u8>
    decreases s.len(),
{
    if s.len() > 0 && is_ws(s[0]) {
        trim_start(s.drop_first())
    } else {
        s
    }
}

/// The sequence without its trailing whitespace.
pub open spec fn trim_end(s: Seq<u8>) -> Seq<u8>
    decreases s.len(),
{
    if s.len() > 0 && is_ws(s.last()) {
        trim_end(s.drop_last())
    } else {
        s
    }
}

/// The sequence without leading and trailing whitespace.
pub open spec fn trim(s: Seq<u8>) -> Seq<u8> {
    trim_end(trim_start(s))
}

/// The value of a digit in base `radix` (10 or 16), or -1 where it is none.
pub open spec fn digit_val(c: u8, radix: int) -> int {
    if 48 <= c <= 57 {
        c - 48
    } else if radix == 16 && 97 <= c <= 102 {
        c - 87
    } else if radix == 16 && 65 <= c <= 70 {
        c - 55
    } else {
        -1
    }
}

pub open spec fn all_digits(s: Seq<u8>, radix: int) -> bool {
    forall|i: int| 0 <= i < s.len() ==> digit_val(#[trigger] s[i], radix) >= 0
}

/// The number that the digits of `s` spell in base `radix`, most significant first.
pub open spec fn num_value(s: Seq<u8>, radix: int) -> int
    decreases s.len(),
{
    if s.len() == 0 {
        0
    } else {
        num_value(s.drop_last(), radix) * radix + digit_val(s.last(), radix)
    }
}

/// A non-empty run of digits whose value fits in 64 bits, read as a number.
pub open spec fn parse_num(s: Seq<u8>, radix: int) -> Option<u64> {
    if s.len() > 0 && all_digits(s, radix) && num_value(s, radix) <= u64::MAX {
        Some(num_value(s, radix) as u64)
    } else {
        None
    }
}

/// Classes of bytes that a run can be made of.
pub enum ByteClass {
    Space,
    Word,
    Digit,
}

pub open spec fn in_class(c: u8, class: ByteClass) -> bool {
    match class {
        ByteClass::Space => is_ws(c),
        ByteClass::Word => !is_ws(c),
        ByteClass::Digit => 48 <= c <= 57,
    }
}

/// Number of bytes of `class` at the start of `s`.
pub open spec fn run(s: Seq<u8>, class: ByteClass) -> nat
    decreases s.len(),
{
    if s.len() > 0 && in_class(s[0], class) {
        1 + run(s.drop_first(), class)
    } else {
        0
    }
}

/// Number of bytes other than `b` at the start of `s`.
pub open spec fn until_byte(s: Seq<u8>, b: u8) -> nat
    decreases s.len(),
{
    if s.len() > 0 && s[0] != b {
        1 + until_byte(s.drop_first(), b)
    } else {
        0
    }
}

/// Number of bytes other than `b` at the end of `s`.
pub open spec fn until_byte_back(s: Seq<u8>, b: u8) -> nat
    decreases s.len(),
{
    if s.len() > 0 && s.last() != b {
        1 + until_byte_back(s.drop_last(), b)
    } else {
        0
    }
}

fn in_class_exec(c: u8, class: &ByteClass) -> (r: bool)
    ensures
        r == in_class(c, *class),
{
    match class {
        ByteClass::Space => is_ws_exec(c),
        ByteClass::Word => !is_ws_exec(c),
        ByteClass::Digit => 48 <= c && c <= 57,
    }
}

/// The end of the run of `class` that starts at `i`.
pub fn run_end(s: &[u8], i: usize, class: ByteClass) -> (r: usize)
    requires
        i <= s@.len(),
    ensures
        r == i + run(s@.skip(i as int), class),
        r <= s@.len(),
{
    let mut k: usize = i;
    while k < s.len() && in_class_exec(s[k], &class)
        invariant
            i <= k <= s@.len(),
            k - i + run(s@.skip(k as int), class) == run(s@.skip(i as int), class),
        decreases s@.len() - k,
    {
        assert(s@.skip(k as int).drop_first() =~= s@.skip(k as int + 1));
        k = k + 1;
    }
    k
}

/// The position of the first `b` in `s`, or its length where there is none.
pub fn find_byte(s: &[u8], b: u8) -> (r: usize)
    ensures
        r == until_byte(s@, b),
        r <= s@.len(),
{
    let mut k: usize = 0;
    assert(s@.skip(0) =~= s@);
    while k < s.len() && s[k] != b
        invariant
            0 <= k <= s@.len(),
            k + until_byte(s@.skip(k as int), b) == until_byte(s@, b),
        decreases s@.len() - k,
    {
        assert(s@.skip(k as int).drop_first() =~= s@.skip(k as int + 1));
        k = k + 1;
    }
    k
}

/// The number of bytes after the last `b` in `s`, or its length where there is none.
pub fn find_byte_back(s: &[u8], b: u8) -> (r: usize)
    ensures
        r == until_byte_back(s@, b),
        r <= s@.len(),
{
    let mut k: usize = 0;
    assert(s@.take(s@.len() as int) =~= s@);
    while k < s.len() && s[s.len() - 1 - k] != b
        invariant
            0 <= k <= s@.len(),
            k + until_byte_back(s@.take(s@.len() - k), b) == until_byte_back(s@, b),
        decreases s@.len() - k,
    {
        assert(s@.take(s@.len() - k).drop_last() =~= s@.take(s@.len() - k - 1));
        k = k + 1;
    }
    k
}

proof fn lemma_trim_start_skip(s: Seq<u8>, i: int)
    requires
        0 <= i < s.len(),
        is_ws(s[i]),
    ensures
        trim_start(s.subrange(i, s.len() as int)) == trim_start(s.subrange(i + 1, s.len() as int)),
{
    assert(s.subrange(i, s.len() as int).drop_first() =~= s.subrange(i + 1, s.len() as int));
}

proof fn lemma_trim_end_skip(s: Seq<u8>, j: int)
    requires
        0 < j <= s.len(),
        is_ws(s[j - 1]),
    ensures
        trim_end(s.subrange(0, j)) == trim_end(s.subrange(0, j - 1)),
{
    assert(s.subrange(0, j).drop_last() =~= s.subrange(0, j - 1));
}

proof fn lemma_num_value_bound(s: Seq<u8>, radix: int, k: int)
    requires
        radix == 10 || radix == 16,
        all_digits(s, radix),
        0 <= k <= s.len(),
    ensures
        0 <= num_value(s.take(k), radix) <= num_value(s, radix),
    decreases s.len(),
{
    if k == s.len() {
        assert(s.take(k) =~= s);
        lemma_num_value_nonneg(s, radix);
    } else {
        let p = s.drop_last();
        assert(all_digits(p, radix)) by {
            assert forall|i: int| 0 <= i < p.len() implies digit_val(#[trigger] p[i], radix) >= 0 by {
                assert(p[i] == s[i]);
            }
        }
        lemma_num_value_bound(p, radix, k);
        assert(p.take(k) =~= s.take(k));
        lemma_num_value_nonneg(p, radix);
        assert(digit_val(s.last(), radix) >= 0);
        assert(num_value(p, radix) * radix >= num_value(p, radix)) by (nonlinear_arith)
            requires
                num_value(p, radix) >= 0,
                radix >= 1,
        ;
    }
}

proof fn lemma_num_value_nonneg(s: Seq<u8>, radix: int)
    requires
        radix == 10 || radix == 16,
        all_digits(s, radix),
    ensures
        num_value(s, radix) >= 0,
    decreases s.len(),
{
    if s.len() > 0 {
        let p = s.drop_last();
        assert(all_digits(p, radix)) by {
            assert forall|i: int| 0 <= i < p.len() implies digit_val(#[trigger] p[i], radix) >= 0 by {
                assert(p[i] == s[i]);
            }
        }
        lemma_num_value_nonneg(p, radix);
        assert(digit_val(s.last(), radix) >= 0);
        assert(num_value(p, radix) * radix >= 0) by (nonlinear_arith)
            requires
                num_value(p, radix) >= 0,
                radix >= 1,
        ;
    }
}

fn digit_val_exec(c: u8, radix: u64) -> (r: Option<u64>)
    requires
        radix == 10 || radix == 16,
    ensures
        digit_val(c, radix as int) >= 0 ==> r == Some(digit_val(c, radix as int) as u64),
        digit_val(c, radix as int) < 0 ==> r is None,
{
    if 48 <= c && c <= 57 {
        Some((c - 48) as u64)
    } else if radix == 16 && 97 <= c && c <= 102 {
        Some((c - 87) as u64)
    } else if radix == 16 && 65 <= c && c <= 70 {
        Some((c - 55) as u64)
    } else {
        None
    }
}

/// Reads `s` as a number in base 10 or 16; `None` for an empty run, a byte that
/// is not a digit, or a value beyond 64 bits.
pub fn parse_radix(s: &[u8], radix: u64) -> (r: Option<u64>)
    requires
        radix == 10 || radix == 16,
    ensures
        r == parse_num(s@, radix as int),
{
    let ghost rd = radix as int;
    if s.len() == 0 {
        return None;
    }
    let mut acc: u64 = 0;
    let mut i: usize = 0;
    while i < s.len()
        invariant
            rd == radix as int,
            radix == 10 || radix == 16,
            0 <= i <= s@.len(),
            all_digits(s@.take(i as int), rd),
            acc as int == num_value(s@.take(i as int), rd),
        decreases s@.len() - i,
    {
        let ghost pre = s@.take(i as int);
        let ghost nxt = s@.take(i as int + 1);
        assert(nxt.drop_last() =~= pre);
        assert(nxt.last() == s@[i as int]);
        match digit_val_exec(s[i], radix) {
            None => {
                assert(!all_digits(s@, rd)) by {
                    assert(digit_val(s@[i as int], rd) < 0);
                }
                return None;
            },
            Some(d) => {
                assert(all_digits(nxt, rd)) by {
                    assert forall|j: int| 0 <= j < nxt.len() implies digit_val(#[trigger] nxt[j], rd) >= 0 by {
                        if j < i {
                            assert(nxt[j] == pre[j]);
                        }
                    }
                }
                let lim: u64 = (u64::MAX - d) / radix;
                if acc > lim {
                    proof {
                        assert(num_value(nxt, rd) == acc * rd + d);
                        assert(acc * rd + d > u64::MAX) by (nonlinear_arith)
                            requires
                                acc > lim,
                                lim == (u64::MAX - d) as int / radix as int,
                                rd == radix,
                                radix == 10 || radix == 16,
                                d < 16,
                        ;
                        if all_digits(s@, rd) {
                            lemma_num_value_bound(s@, rd, i as int + 1);
                        }
                    }
                    return None;
                }
                proof {
                    assert(acc * rd + d <= u64::MAX) by (nonlinear_arith)
                        requires
                            acc <= lim,
                            lim == (u64::MAX - d) as int / radix as int,
                            rd == radix,
                            radix == 10 || radix == 16,
                            d < 16,
                    ;
                }
                acc = acc * radix + d;
                i = i + 1;
            },
        }
    }
    assert(s@.take(i as int) =~= s@);
    Some(acc)
}

/// The bytes of `s` from `i` up to `j`, as a vector.
pub fn copy_range(s: &[u8], i: usize, j: usize) -> (r: Vec<u8>)
    requires
        i <= j <= s@.len(),
    ensures
        r@ == s@.subrange(i as int, j as int),
{
    let mut out: Vec<u8> = Vec::with_capacity(j - i);
    let mut k: usize = i;
    while k < j
        invariant
            i <= k <= j <= s@.len(),
            out@ == s@.subrange(i as int, k as int),
        decreases j - k,
    {
        out.push(s[k]);
        assert(out@ =~= s@.subrange(i as int, k as int + 1));
        k = k + 1;
    }
    out
}

/// Bounds of `trim(s)` within `s`.
pub fn trim_bounds(s: &[u8]) -> (r: (usize, usize))
    ensures
        r.0 <= r.1 <= s@.len(),
        s@.subrange(r.0 as int, r.1 as int) == trim(s@),
{
    let mut i: usize = 0;
    assert(s@.subrange(0, s@.len() as int) =~= s@);
    while i < s.len() && is_ws_exec(s[i])
        invariant
            0 <= i <= s@.len(),
            trim_start(s@.subrange(i as int, s@.len() as int)) == trim_start(s@),
        decreases s@.len() - i,
    {
        proof {
            lemma_trim_start_skip(s@, i as int);
        }
        i = i + 1;
    }
    assert(s@.subrange(0, s@.len() as int) =~= s@);
    let ghost st = s@.subrange(i as int, s@.len() as int);
    assert(trim_start(st) == st);
    let mut j: usize = s.len();
    assert(st.subrange(0, st.len() as int) =~= st);
    while j > i && is_ws_exec(s[j - 1])
        invariant
            i <= j <= s@.len(),
            st == s@.subrange(i as int, s@.len() as int),
            trim_end(st.subrange(0, j - i)) == trim_end(st),
        decreases j,
    {
        proof {
            assert(st[j - i - 1] == s@[j - 1]);
            lemma_trim_end_skip(st, j - i);
        }
        j = j - 1;
    }
    assert(st.subrange(0, st.len() as int) =~= st);
    assert(st.subrange(0, j - i) =~= s@.subrange(i as int, j as int));
    (i, j)
}

/// `s` without leading and trailing whitespace.
pub fn trim_slice(s: &[u8]) -> (r: &[u8])
    ensures
        r@ == trim(s@),
{
    let (i, j) = trim_bounds(s);
    slice_subrange(s, i, j)
}

/// Whether two byte vectors hold the same bytes.
pub fn bytes_eq(a: &Vec<u8>, b: &Vec<u8>) -> (r: bool)
    ensures
        r == (a@ == b@),
{
    if a.len() != b.len() {
        return false;
    }
    let mut i: usize = 0;
    while i < a.len()
        invariant
            a@.len() == b@.len(),
            0 <= i <= a@.len(),
            forall|j: int| 0 <= j < i ==> a@[j] == b@[j],
        decreases a@.len() - i,
    {
        if a[i] != b[i] {
            return false;
        }
        i = i + 1;
    }
    assert(a@ =~= b@);
    true
}

} // verus!
