//! The line grammar of a stack dump: frame lines, event lines and header lines,
//! and the aggregation of stacks into counts.
use std::collections::HashMap;
use vstd::prelude::*;
use vstd::std_specs::hash::group_hash_axioms;
use vstd::wrapping::u64_specs;
use vstd::slice::slice_subrange;
use crate::header::{header_info, local_epoch_nanos, read_headers};
use crate::bytes::{bytes_eq, trim_slice, trim, all_digits, run, run_end, ByteClass, copy_range, find_byte, find_byte_back, parse_num, parse_radix, until_byte, until_byte_back};

verus! {

/// One stack entry: instruction address, function name and module path.
pub struct Frame {
    pub address: u64,
    pub function_name: Vec<u8>,
    pub module_name: Vec<u8>,
}

/// A frame as plain values: (address, function name, module name).
pub type FrameView = (u64, Seq<u8>, Seq<u8>);

/// A stack as plain values, leaf first.
pub type StackView = Seq<FrameView>;

impl View for Frame {
    type V = FrameView;

    open spec fn view(&self) -> FrameView {
        (self.address, self.function_name@, self.module_name@)
    }
}

/// The view of each frame of a stack.
pub open spec fn stack_view(s: Seq<Frame>) -> StackView {
    s.map_values(|f: Frame| f@)
}

/// A trimmed frame line `<hex address> <function name> <module>`: the address
/// ends at the first space, the module starts after the last one. A line
/// whose address is not hexadecimal, or which lacks either space, gives no frame.
pub open spec fn parse_frame(t: Seq<u8>) -> Option<FrameView> {
    let p = until_byte(t, 32) as int;
    let rest = t.subrange(p + 1, t.len() as int);
    let after = until_byte_back(rest, 32) as int;
    let last = rest.len() - after - 1;
    if p >= t.len() || after >= rest.len() {
        None
    } else {
        match parse_num(t.subrange(0, p), 16) {
            Some(a) => Some(
                (a, rest.subrange(0, last), rest.subrange(last + 1, rest.len() as int)),
            ),
            None => None,
        }
    }
}

pub fn parse_frame_line(t: &[u8]) -> (r: Option<Frame>)
    ensures
        match r {
            Some(f) => parse_frame(t@) == Some(f@),
            None => parse_frame(t@) is None,
        },
{
    let p = find_byte(t, 32);
    if p >= t.len() {
        return None;
    }
    let rest = slice_subrange(t, p + 1, t.len());
    let after = find_byte_back(rest, 32);
    if after >= rest.len() {
        return None;
    }
    let last = rest.len() - after - 1;
    match parse_radix(slice_subrange(t, 0, p), 16) {
        Some(a) => {
            let func = copy_range(rest, 0, last);
            let module = copy_range(rest, last + 1, rest.len());
            Some(Frame { address: a, function_name: func, module_name: module })
        },
        None => None,
    }
}

/// Whether a run of digits, a dot and another run of digits starts at `e`.
pub open spec fn stamp_shape(s: Seq<u8>, e: int) -> bool {
    let q = run(s.skip(e), ByteClass::Digit) as int;
    let r = run(s.skip(e + q + 1), ByteClass::Digit) as int;
    q > 0 && e + q < s.len() && s[e + q] == 46 && r > 0
}

/// The timestamp `<seconds>.<fraction>` at `e` in microseconds: the seconds
/// times a million plus the fraction's digits read as a whole number.
pub open spec fn stamp_value(s: Seq<u8>, e: int) -> Option<u64> {
    let q = run(s.skip(e), ByteClass::Digit) as int;
    let r = run(s.skip(e + q + 1), ByteClass::Digit) as int;
    match (parse_num(s.subrange(e, e + q), 10), parse_num(s.subrange(e + q + 1, e + q + 1 + r), 10)) {
        (Some(sec), Some(frac)) => if sec * 1_000_000 + frac <= u64::MAX {
            Some((sec * 1_000_000 + frac) as u64)
        } else {
            None
        },
        _ => None,
    }
}

/// The timestamp of an event line, looking from the word at `a` on: the first
/// three consecutive words of which the second is all digits and the third
/// starts with `<seconds>.<fraction>`.
pub open spec fn event_from(s: Seq<u8>, a: int) -> Option<u64>
    decreases s.len() - a,
    when 0 <= a
{
    if a >= s.len() {
        None
    } else {
        let b = a + run(s.skip(a), ByteClass::Word);
        let c = b + run(s.skip(b), ByteClass::Space);
        let d = c + run(s.skip(c), ByteClass::Word);
        let e = d + run(s.skip(d), ByteClass::Space);
        if c >= s.len() {
            None
        } else if all_digits(s.subrange(c, d), 10) && e < s.len() && stamp_shape(s, e) {
            stamp_value(s, e)
        } else {
            event_from(s, c)
        }
    }
}

/// The timestamp of a trimmed event line, in microseconds.
pub open spec fn event_stamp(t: Seq<u8>) -> Option<u64> {
    event_from(t, 0)
}

fn digits_between(s: &[u8], c: usize, d: usize) -> (r: bool)
    requires
        c <= d <= s@.len(),
    ensures
        r == all_digits(s@.subrange(c as int, d as int), 10),
{
    let mut k: usize = c;
    while k < d
        invariant
            c <= k <= d <= s@.len(),
            all_digits(s@.subrange(c as int, k as int), 10),
        decreases d - k,
    {
        if !(48 <= s[k] && s[k] <= 57) {
            assert(s@.subrange(c as int, d as int)[k - c] == s@[k as int]);
            return false;
        }
        assert forall|j: int| 0 <= j < k + 1 - c implies crate::bytes::digit_val(
            #[trigger] s@.subrange(c as int, k as int + 1)[j],
            10,
        ) >= 0 by {
            if j < k - c {
                assert(s@.subrange(c as int, k as int + 1)[j] == s@.subrange(c as int, k as int)[j]);
            }
        }
        k = k + 1;
    }
    true
}

fn stamp_at(t: &[u8], e: usize) -> (r: Option<u64>)
    requires
        e < t@.len(),
        stamp_shape(t@, e as int),
    ensures
        r == stamp_value(t@, e as int),
{
    let q = run_end(t, e, ByteClass::Digit);
    let n: usize = t.len();
    assert(q < n);
    let r = run_end(t, q + 1, ByteClass::Digit);
    let sec = parse_radix(slice_subrange(t, e, q), 10);
    let frac = parse_radix(slice_subrange(t, q + 1, r), 10);
    match (sec, frac) {
        (Some(sec), Some(frac)) => {
            if sec <= (u64::MAX - frac) / 1_000_000 {
                Some(sec * 1_000_000 + frac)
            } else {
                None
            }
        },
        _ => None,
    }
}

/// The timestamp of a trimmed event line, in microseconds, where it has one.
pub fn event_timestamp(t: &[u8]) -> (r: Option<u64>)
    ensures
        r == event_stamp(t@),
{
    let mut a: usize = 0;
    while a < t.len()
        invariant
            a <= t@.len(),
            event_from(t@, a as int) == event_from(t@, 0),
        decreases t@.len() - a,
    {
        let b = run_end(t, a, ByteClass::Word);
        let c = run_end(t, b, ByteClass::Space);
        if c >= t.len() {
            return None;
        }
        let d = run_end(t, c, ByteClass::Word);
        let e = run_end(t, d, ByteClass::Space);
        if digits_between(t, c, d) && e < t.len() {
            let q = run_end(t, e, ByteClass::Digit);
            if q > e && q < t.len() && t[q] == 46 {
                let r = run_end(t, q + 1, ByteClass::Digit);
                if r > q + 1 {
                    return stamp_at(t, e);
                }
            }
        }
        a = c;
    }
    None
}

/// The state of a scan over the lines of a dump.
pub struct ScanView {
    /// Whether the next non-blank, non-header line is an event line.
    pub in_event: bool,
    /// Frames gathered since the last blank line.
    pub stack: StackView,
    /// The non-empty stacks completed so far, in order.
    pub blocks: Seq<StackView>,
    /// Header lines, trimmed.
    pub headers: Seq<Seq<u8>>,
    /// Timestamp of the first event line that has one.
    pub start: Option<u64>,
    /// Timestamp of the latest later event line that has one.
    pub end: Option<u64>,
}

pub open spec fn scan_init() -> ScanView {
    ScanView {
        in_event: true,
        stack: seq![],
        blocks: seq![],
        headers: seq![],
        start: None,
        end: None,
    }
}

/// What one line does to the scan.
pub open spec fn scan_step(st: ScanView, l: Seq<u8>) -> ScanView {
    let t = trim(l);
    if l.len() > 0 && l[0] == 35 {
        ScanView { headers: st.headers.push(t), ..st }
    } else if t.len() == 0 {
        ScanView {
            in_event: true,
            stack: seq![],
            blocks: if st.stack.len() > 0 {
                st.blocks.push(st.stack)
            } else {
                st.blocks
            },
            ..st
        }
    } else if st.in_event {
        match event_stamp(t) {
            Some(ts) => if st.start is None {
                ScanView { in_event: false, start: Some(ts), ..st }
            } else {
                ScanView { in_event: false, end: Some(ts), ..st }
            },
            None => ScanView { in_event: false, ..st },
        }
    } else {
        match parse_frame(t) {
            Some(f) => ScanView { stack: st.stack.push(f), ..st },
            None => st,
        }
    }
}

/// The scan over a sequence of lines.
pub open spec fn scan(lines: Seq<Seq<u8>>) -> ScanView
    decreases lines.len(),
{
    if lines.len() == 0 {
        scan_init()
    } else {
        scan_step(scan(lines.drop_last()), lines.last())
    }
}

/// Number of entries at the start of `agg` whose stack is not `s`.
pub open spec fn key_index(agg: Seq<(StackView, nat)>, s: StackView) -> nat
    decreases agg.len(),
{
    if agg.len() > 0 && agg[0].0 != s {
        1 + key_index(agg.drop_first(), s)
    } else {
        0
    }
}

/// Counts one more occurrence of `s`: its entry's count goes up by one, or
/// it is appended with count one.
pub open spec fn add_stack(agg: Seq<(StackView, nat)>, s: StackView) -> Seq<(StackView, nat)> {
    let i = key_index(agg, s) as int;
    if i < agg.len() {
        agg.update(i, (s, agg[i].1 + 1))
    } else {
        agg.push((s, 1))
    }
}

/// The stacks of `blocks` with their numbers of occurrences, in order of first sighting.
pub open spec fn aggregate(blocks: Seq<StackView>) -> Seq<(StackView, nat)>
    decreases blocks.len(),
{
    if blocks.len() == 0 {
        seq![]
    } else {
        add_stack(aggregate(blocks.drop_last()), blocks.last())
    }
}

/// Number of times `s` occurs in `blocks`.
pub open spec fn occurrences(blocks: Seq<StackView>, s: StackView) -> nat
    decreases blocks.len(),
{
    if blocks.len() == 0 {
        0
    } else {
        occurrences(blocks.drop_last(), s) + if blocks.last() == s {
            1nat
        } else {
            0nat
        }
    }
}

/// The sum of the counts of `agg`.
pub open spec fn total(agg: Seq<(StackView, nat)>) -> nat
    decreases agg.len(),
{
    if agg.len() == 0 {
        0
    } else {
        total(agg.drop_last()) + agg.last().1
    }
}

/// The view of an exec aggregation.
pub open spec fn samples_view(v: Seq<(Vec<Frame>, u64)>) -> Seq<(StackView, nat)> {
    v.map_values(|e: (Vec<Frame>, u64)| (stack_view(e.0@), e.1 as nat))
}

proof fn lemma_key_index(agg: Seq<(StackView, nat)>, s: StackView)
    ensures
        key_index(agg, s) <= agg.len(),
        forall|j: int| 0 <= j < key_index(agg, s) ==> agg[j].0 != s,
        key_index(agg, s) < agg.len() ==> agg[key_index(agg, s) as int].0 == s,
    decreases agg.len(),
{
    if agg.len() > 0 && agg[0].0 != s {
        let t = agg.drop_first();
        lemma_key_index(t, s);
        assert forall|j: int| 0 <= j < key_index(agg, s) implies agg[j].0 != s by {
            if j > 0 {
                assert(agg[j] == t[j - 1]);
            }
        }
    }
}

proof fn lemma_total_update(agg: Seq<(StackView, nat)>, i: int, e: (StackView, nat))
    requires
        0 <= i < agg.len(),
    ensures
        total(agg.update(i, e)) == total(agg) - agg[i].1 + e.1,
    decreases agg.len(),
{
    let u = agg.update(i, e);
    if i == agg.len() - 1 {
        assert(u.drop_last() =~= agg.drop_last());
    } else {
        lemma_total_update(agg.drop_last(), i, e);
        assert(u.drop_last() =~= agg.drop_last().update(i, e));
    }
}

/// Aggregation keeps exactly one entry for each distinct stack; the count of
/// each entry is the number of times its stack occurs, at least one; and the
/// counts add up to the number of stacks aggregated.
pub proof fn lemma_aggregate_counts(blocks: Seq<StackView>)
    ensures
        forall|i: int, j: int|
            0 <= i < j < aggregate(blocks).len() ==> aggregate(blocks)[i].0 != aggregate(blocks)[j].0,
        forall|i: int|
            0 <= i < aggregate(blocks).len() ==> aggregate(blocks)[i].1 == occurrences(
                blocks,
                aggregate(blocks)[i].0,
            ) && aggregate(blocks)[i].1 >= 1,
        forall|s: StackView|
            occurrences(blocks, s) > 0 <==> exists|i: int|
                0 <= i < aggregate(blocks).len() && aggregate(blocks)[i].0 == s,
        total(aggregate(blocks)) == blocks.len(),
    decreases blocks.len(),
{
    if blocks.len() > 0 {
        let prev = blocks.drop_last();
        let b = blocks.last();
        let a0 = aggregate(prev);
        let a1 = aggregate(blocks);
        lemma_aggregate_counts(prev);
        lemma_key_index(a0, b);
        let k = key_index(a0, b) as int;
        if k < a0.len() {
            lemma_total_update(a0, k, (b, a0[k].1 + 1));
            assert forall|s: StackView|
                occurrences(blocks, s) > 0 implies exists|i: int| 0 <= i < a1.len() && a1[i].0 == s by {
                if s == b {
                    assert(a1[k].0 == s);
                } else {
                    assert(occurrences(prev, s) > 0);
                    let i = choose|i: int| 0 <= i < a0.len() && a0[i].0 == s;
                    assert(a1[i].0 == s);
                }
            }
            assert forall|s: StackView|
                (exists|i: int| 0 <= i < a1.len() && a1[i].0 == s) implies occurrences(blocks, s) > 0 by {
                let i = choose|i: int| 0 <= i < a1.len() && a1[i].0 == s;
                if i != k {
                    assert(a0[i].0 == s);
                }
            }
        } else {
            assert(occurrences(prev, b) == 0) by {
                if occurrences(prev, b) > 0 {
                    let i = choose|i: int| 0 <= i < a0.len() && a0[i].0 == b;
                    assert(a0[i].0 != b);
                }
            }
            assert(a1.drop_last() =~= a0);
            assert forall|s: StackView|
                occurrences(blocks, s) > 0 implies exists|i: int| 0 <= i < a1.len() && a1[i].0 == s by {
                if s == b {
                    assert(a1[a0.len() as int].0 == s);
                } else {
                    assert(occurrences(prev, s) > 0);
                    let i = choose|i: int| 0 <= i < a0.len() && a0[i].0 == s;
                    assert(a1[i].0 == s);
                }
            }
            assert forall|s: StackView|
                (exists|i: int| 0 <= i < a1.len() && a1[i].0 == s) implies occurrences(blocks, s) > 0 by {
                let i = choose|i: int| 0 <= i < a1.len() && a1[i].0 == s;
                if i < a0.len() {
                    assert(a0[i].0 == s);
                }
            }
        }
    }
}

proof fn lemma_occurrences_le(blocks: Seq<StackView>, s: StackView)
    ensures
        occurrences(blocks, s) <= blocks.len(),
    decreases blocks.len(),
{
    if blocks.len() > 0 {
        lemma_occurrences_le(blocks.drop_last(), s);
    }
}

fn frame_eq(a: &Frame, b: &Frame) -> (r: bool)
    ensures
        r == (a@ == b@),
{
    a.address == b.address && bytes_eq(&a.function_name, &b.function_name) && bytes_eq(
        &a.module_name,
        &b.module_name,
    )
}

fn stack_eq(a: &Vec<Frame>, b: &Vec<Frame>) -> (r: bool)
    ensures
        r == (stack_view(a@) == stack_view(b@)),
{
    if a.len() != b.len() {
        assert(stack_view(a@).len() != stack_view(b@).len());
        return false;
    }
    let mut i: usize = 0;
    while i < a.len()
        invariant
            a@.len() == b@.len(),
            0 <= i <= a@.len(),
            forall|j: int| 0 <= j < i ==> a@[j]@ == b@[j]@,
        decreases a@.len() - i,
    {
        if !frame_eq(&a[i], &b[i]) {
            assert(stack_view(a@)[i as int] != stack_view(b@)[i as int]);
            return false;
        }
        i = i + 1;
    }
    assert(stack_view(a@) =~= stack_view(b@));
    true
}

/// A hash of a stack's addresses, under which its entry is filed.
pub open spec fn stack_hash(s: StackView) -> u64
    decreases s.len(),
{
    if s.len() == 0 {
        0
    } else {
        u64_specs::wrapping_add(u64_specs::wrapping_mul(stack_hash(s.drop_last()), 31), s.last().0)
    }
}

fn hash_stack(s: &Vec<Frame>) -> (r: u64)
    ensures
        r == stack_hash(stack_view(s@)),
{
    let ghost sv = stack_view(s@);
    let mut h: u64 = 0;
    let mut i: usize = 0;
    assert(sv.take(0) =~= seq![]);
    while i < s.len()
        invariant
            sv == stack_view(s@),
            0 <= i <= s@.len(),
            h == stack_hash(sv.take(i as int)),
        decreases s@.len() - i,
    {
        assert(sv.take(i as int + 1).drop_last() =~= sv.take(i as int));
        assert(sv.take(i as int + 1).last() == s@[i as int]@);
        h = h.wrapping_mul(31).wrapping_add(s[i].address);
        i = i + 1;
    }
    assert(sv.take(i as int) =~= sv);
    h
}

/// Every entry is filed under its stack's hash, and the index names only entries.
pub open spec fn index_ok(samples: Seq<(Vec<Frame>, u64)>, index: Map<u64, Vec<usize>>) -> bool {
    &&& forall|j: int|
        0 <= j < samples.len() ==> index.contains_key(stack_hash(stack_view((#[trigger] samples[j]).0@)))
            && index[stack_hash(stack_view(samples[j].0@))]@.contains(j as usize)
    &&& forall|h: u64, k: int|
        index.contains_key(h) && 0 <= k < index[h]@.len() ==> (#[trigger] index[h]@[k]) < samples.len()
}

/// Counts one more occurrence of `stack` in `samples`, whose stacks are distinct.
fn add_sample(samples: &mut Vec<(Vec<Frame>, u64)>, index: &mut HashMap<u64, Vec<usize>>, stack: Vec<Frame>)
    requires
        forall|i: int| 0 <= i < old(samples)@.len() ==> old(samples)@[i].1 < u64::MAX,
        forall|i: int, j: int|
            0 <= i < j < old(samples)@.len() ==> samples_view(old(samples)@)[i].0 != samples_view(
                old(samples)@,
            )[j].0,
        index_ok(old(samples)@, old(index)@),
    ensures
        samples_view(final(samples)@) == add_stack(samples_view(old(samples)@), stack_view(stack@)),
        index_ok(final(samples)@, final(index)@),
{
    broadcast use group_hash_axioms;

    let ghost agg = samples_view(samples@);
    let ghost sv = stack_view(stack@);
    proof {
        lemma_key_index(agg, sv);
    }
    let h = hash_stack(&stack);
    let mut bucket: Vec<usize> = match index.get(&h) {
        Some(b) => b.clone(),
        None => Vec::new(),
    };
    assert(index@.contains_key(h) ==> bucket@ == index@[h]@);
    assert(!index@.contains_key(h) ==> bucket@.len() == 0);
    let mut i: usize = 0;
    while i < bucket.len()
        invariant
            agg == samples_view(samples@),
            agg == samples_view(old(samples)@),
            samples@ == old(samples)@,
            index@ == old(index)@,
            sv == stack_view(stack@),
            h == stack_hash(sv),
            index@.contains_key(h) ==> bucket@ == index@[h]@,
            !index@.contains_key(h) ==> bucket@.len() == 0,
            index_ok(samples@, index@),
            0 <= i <= bucket@.len(),
            forall|k: int| 0 <= k < i ==> agg[bucket@[k] as int].0 != sv,
            forall|a: int, b: int| 0 <= a < b < agg.len() ==> agg[a].0 != agg[b].0,
            forall|j: int| 0 <= j < samples@.len() ==> samples@[j].1 < u64::MAX,
        decreases bucket@.len() - i,
    {
        let c = bucket[i];
        assert(c < samples@.len()) by {
            assert(index@[h]@[i as int] == c);
        }
        assert(agg[c as int].0 == stack_view(samples@[c as int].0@));
        if stack_eq(&samples[c].0, &stack) {
            proof {
                lemma_key_index(agg, sv);
            }
            assert(key_index(agg, sv) == c);
            let n = samples[c].1;
            samples.set(c, (stack, n + 1));
            assert(samples_view(samples@) =~= add_stack(agg, sv));
            assert(index_ok(samples@, index@)) by {
                assert forall|j: int| 0 <= j < samples@.len() implies index@.contains_key(
                    stack_hash(stack_view((#[trigger] samples@[j]).0@)),
                ) && index@[stack_hash(stack_view(samples@[j].0@))]@.contains(j as usize) by {
                    assert(stack_view(samples@[j].0@) == agg[j].0);
                    assert(stack_view(old(samples)@[j].0@) == agg[j].0);
                }
            }
            return;
        }
        i = i + 1;
    }
    let ns: usize = samples.len();
    assert(key_index(agg, sv) == agg.len()) by {
        lemma_key_index(agg, sv);
        if key_index(agg, sv) < agg.len() {
            let j = key_index(agg, sv) as int;
            assert(agg[j].0 == stack_view(samples@[j].0@));
            assert(stack_hash(stack_view(samples@[j].0@)) == h);
            assert(index@.contains_key(h));
            assert(index@[h]@.contains(j as usize));
            let k = choose|k: int| 0 <= k < index@[h]@.len() && index@[h]@[k] == j as usize;
            assert(j < ns);
            assert(bucket@[k] as int == j);
            assert(agg[bucket@[k] as int].0 != sv);
        }
    }
    let n = samples.len();
    samples.push((stack, 1));
    bucket.push(n);
    index.insert(h, bucket);
    assert(samples_view(samples@) =~= add_stack(agg, sv));
    assert(index_ok(samples@, index@)) by {
        assert forall|j: int| 0 <= j < samples@.len() implies index@.contains_key(
            stack_hash(stack_view((#[trigger] samples@[j]).0@)),
        ) && index@[stack_hash(stack_view(samples@[j].0@))]@.contains(j as usize) by {
            if j < n {
                assert(samples@[j] == old(samples)@[j]);
                let hj = stack_hash(stack_view(old(samples)@[j].0@));
                assert(old(index)@.contains_key(hj) && old(index)@[hj]@.contains(j as usize));
                if hj == h {
                    let k = choose|k: int| 0 <= k < old(index)@[h]@.len() && old(index)@[h]@[k] == j as usize;
                    assert(index@[h]@[k] == j as usize);
                }
            } else {
                assert(index@[h]@[bucket@.len() - 1] == n);
            }
        }
        assert forall|hh: u64, k: int| index@.contains_key(hh) && 0 <= k < index@[hh]@.len() implies (
        #[trigger] index@[hh]@[k]) < samples@.len() by {
            if hh != h {
                assert(old(index)@[hh]@[k] < n);
            } else if k < bucket@.len() - 1 {
                assert(old(index)@[h]@[k] < n);
            }
        }
    }
}

/// The view of a sequence of byte vectors.
pub open spec fn lines_view(v: Seq<Vec<u8>>) -> Seq<Seq<u8>> {
    v.map_values(|l: Vec<u8>| l@)
}

/// What a scan over the lines of a dump gathers.
pub struct Scan {
    /// Each distinct non-empty stack with its number of occurrences.
    pub samples: Vec<(Vec<Frame>, u64)>,
    /// Header lines, trimmed.
    pub headers: Vec<Vec<u8>>,
    /// Timestamp of the first event, in microseconds.
    pub start: Option<u64>,
    /// Timestamp of the last event after the first, in microseconds.
    pub end: Option<u64>,
}

/// Reads the lines of a dump: gathers the header lines, aggregates the stacks
/// and notes the first and last event timestamps.
pub fn scan_lines(lines: &Vec<Vec<u8>>) -> (r: Scan)
    ensures
        samples_view(r.samples@) == aggregate(scan(lines_view(lines@)).blocks),
        lines_view(r.headers@) == scan(lines_view(lines@)).headers,
        r.start == scan(lines_view(lines@)).start,
        r.end == scan(lines_view(lines@)).end,
{
    let ghost all = lines_view(lines@);
    let mut samples: Vec<(Vec<Frame>, u64)> = Vec::new();
    let mut index: HashMap<u64, Vec<usize>> = HashMap::new();
    let mut headers: Vec<Vec<u8>> = Vec::new();
    let mut stack: Vec<Frame> = Vec::new();
    let mut in_event = true;
    let mut start: Option<u64> = None;
    let mut end: Option<u64> = None;
    let mut i: usize = 0;
    assert(all.take(0) =~= seq![]);
    assert(samples_view(samples@) =~= seq![]);
    assert(lines_view(headers@) =~= seq![]);
    assert(stack_view(stack@) =~= seq![]);
    while i < lines.len()
        invariant
            all == lines_view(lines@),
            0 <= i <= lines@.len(),
            samples_view(samples@) == aggregate(scan(all.take(i as int)).blocks),
            lines_view(headers@) == scan(all.take(i as int)).headers,
            stack_view(stack@) == scan(all.take(i as int)).stack,
            in_event == scan(all.take(i as int)).in_event,
            start == scan(all.take(i as int)).start,
            end == scan(all.take(i as int)).end,
            scan(all.take(i as int)).blocks.len() <= i,
            forall|j: int| 0 <= j < samples@.len() ==> samples@[j].1 <= i,
            index_ok(samples@, index@),
        decreases lines@.len() - i,
    {
        let ghost st = scan(all.take(i as int));
        assert(all.take(i as int + 1).drop_last() =~= all.take(i as int));
        assert(all.take(i as int + 1).last() == lines@[i as int]@);
        let line = lines[i].as_slice();
        let t = trim_slice(line);
        if line.len() > 0 && line[0] == 35 {
            headers.push(copy_range(t, 0, t.len()));
            assert(t@.subrange(0, t@.len() as int) =~= t@);
            assert(lines_view(headers@) =~= st.headers.push(t@));
        } else if t.len() == 0 {
            in_event = true;
            if stack.len() > 0 {
                let done = stack;
                stack = Vec::new();
                proof {
                    lemma_aggregate_counts(st.blocks);
                    assert forall|j: int| 0 <= j < samples@.len() implies samples@[j].1 < u64::MAX by {
                        let a = aggregate(st.blocks);
                        assert(a[j].1 == samples@[j].1);
                        lemma_occurrences_le(st.blocks, a[j].0);
                    }
                }
                add_sample(&mut samples, &mut index, done);
                proof {
                    let b2 = st.blocks.push(stack_view(done@));
                    assert(b2.drop_last() =~= st.blocks);
                    lemma_aggregate_counts(b2);
                    assert forall|j: int| 0 <= j < samples@.len() implies samples@[j].1 <= i + 1 by {
                        let a = aggregate(b2);
                        assert(a[j].1 == samples@[j].1);
                        lemma_occurrences_le(b2, a[j].0);
                    }
                }
            }
            assert(stack_view(stack@) =~= seq![]);
        } else if in_event {
            in_event = false;
            match event_timestamp(t) {
                Some(ts) => {
                    if start.is_none() {
                        start = Some(ts);
                    } else {
                        end = Some(ts);
                    }
                },
                None => {},
            }
        } else {
            match parse_frame_line(t) {
                Some(f) => {
                    stack.push(f);
                    assert(stack_view(stack@) =~= st.stack.push(f@));
                },
                None => {},
            }
        }
        i = i + 1;
    }
    assert(all.take(i as int) =~= all);
    Scan { samples, headers, start, end }
}

/// Why a dump cannot be converted.
#[derive(Clone, Copy, Debug, PartialEq, Eq)]
pub enum ConvertError {
    /// Fewer than two event lines carry a timestamp, or the last is before the first.
    NoDuration,
    /// The sampling frequency in the header does not fit in 64 bits.
    BadFrequency,
    /// No header line gives a capture time that the local time zone maps to one instant.
    NoCaptureTime,
    /// The header gives no sampling frequency, or gives zero.
    ZeroFrequency,
}

/// A parsed dump: aggregated stacks and capture metadata.
pub struct Trace {
    /// Each distinct non-empty stack with its number of occurrences, in order of first sighting.
    pub samples: Vec<(Vec<Frame>, u64)>,
    /// Capture time, in nanoseconds since the epoch.
    pub time_nanos: i64,
    /// Microseconds from the first to the last event timestamp.
    pub duration_micros: u64,
    /// Samples per second; never zero.
    pub freq: u64,
}

/// The metadata of a dump as (duration in microseconds, frequency, capture time
/// in nanoseconds), where `local` is the instant that the capture date names in
/// the local time zone; or the error that the dump gives.
pub open spec fn trace_meta(
    start: Option<u64>,
    end: Option<u64>,
    captured: bool,
    freq: u64,
    bad_freq: bool,
    local: Option<i64>,
) -> Result<(u64, u64, i64), ConvertError> {
    if end is None || start is None || end->Some_0 < start->Some_0 {
        Err(ConvertError::NoDuration)
    } else if bad_freq {
        Err(ConvertError::BadFrequency)
    } else if !captured || local is None {
        Err(ConvertError::NoCaptureTime)
    } else if freq == 0 {
        Err(ConvertError::ZeroFrequency)
    } else {
        Ok(((end->Some_0 - start->Some_0) as u64, freq, local->Some_0))
    }
}

/// Whether `r` is the outcome that `trace_meta` gives, with `samples` as the stacks.
pub open spec fn trace_matches(
    r: Result<Trace, ConvertError>,
    samples: Seq<(StackView, nat)>,
    meta: Result<(u64, u64, i64), ConvertError>,
) -> bool {
    match meta {
        Ok(m) => r matches Ok(t) && t.duration_micros == m.0 && t.freq == m.1 && t.time_nanos == m.2
            && samples_view(t.samples@) == samples,
        Err(e) => r == Err::<Trace, ConvertError>(e),
    }
}

/// Completes a scan with its header metadata and the local-time instant of
/// its capture date, as `trace_meta` says.
pub fn settle_trace(sc: Scan, captured: bool, freq: u64, bad_freq: bool, local: Option<i64>) -> (r:
    Result<Trace, ConvertError>)
    ensures
        trace_matches(
            r,
            samples_view(sc.samples@),
            trace_meta(sc.start, sc.end, captured, freq, bad_freq, local),
        ),
{
    let (start, end) = match (sc.start, sc.end) {
        (Some(s), Some(e)) => {
            if e < s {
                return Err(ConvertError::NoDuration);
            }
            (s, e)
        },
        _ => {
            return Err(ConvertError::NoDuration);
        },
    };
    if bad_freq {
        return Err(ConvertError::BadFrequency);
    }
    let time_nanos = match (captured, local) {
        (true, Some(n)) => n,
        _ => {
            return Err(ConvertError::NoCaptureTime);
        },
    };
    if freq == 0 {
        return Err(ConvertError::ZeroFrequency);
    }
    Ok(Trace { samples: sc.samples, time_nanos, duration_micros: end - start, freq })
}

/// The metadata of the dump that `lines` make, as `trace_meta` gives it.
pub open spec fn dump_meta(lines: Seq<Seq<u8>>, local: Option<i64>) -> Result<(u64, u64, i64), ConvertError> {
    let sv = scan(lines);
    let hv = header_info(sv.headers);
    trace_meta(sv.start, sv.end, hv.captured is Some, hv.freq, hv.bad_freq, local)
}

/// Parses the lines of a dump: aggregates its stacks and reads its metadata.
/// The capture instant depends on the machine's time zone, so the outcome is
/// the one that `trace_meta` gives for some such instant, or for none.
pub fn read_trace(lines: &Vec<Vec<u8>>) -> (r: Result<Trace, ConvertError>)
    ensures
        exists|local: Option<i64>|
            trace_matches(
                r,
                aggregate(scan(lines_view(lines@)).blocks),
                #[trigger] dump_meta(lines_view(lines@), local),
            ),
{
    let sc = scan_lines(lines);
    let info = read_headers(&sc.headers);
    let local = match &info.captured {
        Some(t) => local_epoch_nanos(t),
        None => None,
    };
    let r = settle_trace(sc, info.captured.is_some(), info.freq, info.bad_freq, local);
    let ghost sv = scan(lines_view(lines@));
    assert(lines_view(sc.headers@) == sc.headers@.map_values(|l: Vec<u8>| l@));
    let ghost hv = header_info(sv.headers);
    assert(trace_matches(r, aggregate(sv.blocks), dump_meta(lines_view(lines@), local)));
    r
}

/// Only non-empty stacks are counted: every stack that a scan completes has a frame.
pub proof fn lemma_scan_blocks_nonempty(lines: Seq<Seq<u8>>)
    ensures
        forall|k: int| 0 <= k < scan(lines).blocks.len() ==> (#[trigger] scan(lines).blocks[k]).len() > 0,
    decreases lines.len(),
{
    if lines.len() > 0 {
        lemma_scan_blocks_nonempty(lines.drop_last());
    }
}

} // verus!
