//! Interning of strings, functions and locations, and assembly of the profile message.
use std::collections::HashMap;
use vstd::prelude::*;
use vstd::std_specs::hash::group_hash_axioms;
use vstd::wrapping::u64_specs;
use crate::bytes::bytes_eq;
use crate::encode::{encode_profile, profile_bytes};
use crate::gzip::{compress_profile, gzip_member_of};
use crate::trace::{dump_meta, scan, aggregate, lines_view, read_trace, samples_view, stack_view, ConvertError, Frame, StackView, Trace};

verus! {

/// Number of entries at the start of `keys` that differ from `k`.
pub open spec fn first_index<K>(keys: Seq<K>, k: K) -> nat
    decreases keys.len(),
{
    if keys.len() > 0 && keys[0] != k {
        1 + first_index(keys.drop_first(), k)
    } else {
        0
    }
}

pub proof fn lemma_first_index<K>(keys: Seq<K>, k: K)
    ensures
        first_index(keys, k) <= keys.len(),
        forall|j: int| 0 <= j < first_index(keys, k) ==> keys[j] != k,
        first_index(keys, k) < keys.len() ==> keys[first_index(keys, k) as int] == k,
    decreases keys.len(),
{
    if keys.len() > 0 && keys[0] != k {
        let t = keys.drop_first();
        lemma_first_index(t, k);
        assert forall|j: int| 0 <= j < first_index(keys, k) implies keys[j] != k by {
            if j > 0 {
                assert(keys[j] == t[j - 1]);
            }
        }
    }
}

/// The intern tables as plain values. A string's id is its index; a function's
/// and a location's id is its index plus one.
pub struct Tables {
    pub strings: Seq<Seq<u8>>,
    /// (name, id of the name in `strings`)
    pub functions: Seq<(Seq<u8>, nat)>,
    /// (address, function id)
    pub locations: Seq<(u64, nat)>,
}

pub open spec fn function_names(f: Seq<(Seq<u8>, nat)>) -> Seq<Seq<u8>> {
    f.map_values(|e: (Seq<u8>, nat)| e.0)
}

pub open spec fn location_addresses(l: Seq<(u64, nat)>) -> Seq<u64> {
    l.map_values(|e: (u64, nat)| e.0)
}

/// The id of `name` in the string table, adding it where it is new.
pub open spec fn intern_string(strings: Seq<Seq<u8>>, name: Seq<u8>) -> (Seq<Seq<u8>>, nat) {
    let i = first_index(strings, name);
    if i < strings.len() {
        (strings, i)
    } else {
        (strings.push(name), strings.len())
    }
}

/// The id of the function called `name`, adding it where it is new.
pub open spec fn intern_function(t: Tables, name: Seq<u8>) -> (Tables, nat) {
    let j = first_index(function_names(t.functions), name);
    if j < t.functions.len() {
        (t, j + 1)
    } else {
        let (ss, sid) = intern_string(t.strings, name);
        (Tables { strings: ss, functions: t.functions.push((name, sid)), ..t }, t.functions.len() + 1)
    }
}

/// The id of the location at `addr`, adding it, bound to the function called
/// `name`, where the address is new. A known address keeps its first function.
pub open spec fn intern_location(t: Tables, addr: u64, name: Seq<u8>) -> (Tables, nat) {
    let k = first_index(location_addresses(t.locations), addr);
    if k < t.locations.len() {
        (t, k + 1)
    } else {
        let (t2, fid) = intern_function(t, name);
        (Tables { locations: t2.locations.push((addr, fid)), ..t2 }, t.locations.len() + 1)
    }
}

/// The location ids of the frames of a stack, in order, interning each frame in turn.
pub open spec fn intern_stack(t: Tables, s: StackView) -> (Tables, Seq<nat>)
    decreases s.len(),
{
    if s.len() == 0 {
        (t, seq![])
    } else {
        let (t1, ids) = intern_stack(t, s.drop_last());
        let (t2, id) = intern_location(t1, s.last().0, s.last().1);
        (t2, ids.push(id))
    }
}

/// The location ids of each stack, in order, interning the stacks in turn.
pub open spec fn intern_stacks(t: Tables, ss: Seq<StackView>) -> (Tables, Seq<Seq<nat>>)
    decreases ss.len(),
{
    if ss.len() == 0 {
        (t, seq![])
    } else {
        let (t1, ids) = intern_stacks(t, ss.drop_last());
        let (t2, s_ids) = intern_stack(t1, ss.last());
        (t2, ids.push(s_ids))
    }
}

/// The strings whose ids are fixed: "", "samples", "count", "cpu", "nanoseconds".
pub open spec fn seed_strings() -> Seq<Seq<u8>> {
    seq![
        seq![],
        seq![115u8, 97, 109, 112, 108, 101, 115],
        seq![99u8, 111, 117, 110, 116],
        seq![99u8, 112, 117],
        seq![110u8, 97, 110, 111, 115, 101, 99, 111, 110, 100, 115],
    ]
}

/// The tables a conversion starts from: the five fixed strings and nothing else.
pub open spec fn fresh_tables() -> Tables {
    Tables { strings: seed_strings(), functions: seq![], locations: seq![] }
}

/// Well-formed tables: each string, function name and address occurs once; each
/// function's name id points at its name; each location's function exists.
pub open spec fn tables_wf(t: Tables) -> bool {
    &&& forall|i: int, j: int| 0 <= i < j < t.strings.len() ==> t.strings[i] != t.strings[j]
    &&& forall|i: int, j: int|
        0 <= i < j < t.functions.len() ==> t.functions[i].0 != t.functions[j].0
    &&& forall|i: int, j: int|
        0 <= i < j < t.locations.len() ==> t.locations[i].0 != t.locations[j].0
    &&& forall|i: int|
        0 <= i < t.functions.len() ==> {
            let sid = #[trigger] t.functions[i].1;
            sid < t.strings.len() && t.strings[sid as int] == t.functions[i].0
        }
    &&& forall|i: int|
        0 <= i < t.locations.len() ==> 1 <= #[trigger] t.locations[i].1 <= t.functions.len()
    &&& t.strings.len() >= 5
    &&& t.strings.take(5) == seed_strings()
}

proof fn lemma_intern_string(strings: Seq<Seq<u8>>, name: Seq<u8>)
    ensures
        intern_string(strings, name).1 < intern_string(strings, name).0.len(),
        intern_string(strings, name).0[intern_string(strings, name).1 as int] == name,
        intern_string(strings, name).0.take(strings.len() as int) == strings,
        (forall|i: int, j: int| 0 <= i < j < strings.len() ==> strings[i] != strings[j]) ==> (forall|
            i: int,
            j: int,
        |
            0 <= i < j < intern_string(strings, name).0.len() ==> intern_string(strings, name).0[i]
                != intern_string(strings, name).0[j]),
{
    lemma_first_index(strings, name);
    let ss = intern_string(strings, name).0;
    assert(ss.take(strings.len() as int) =~= strings);
}

/// Interning a location keeps the tables well formed, and only appends to them.
pub proof fn lemma_intern_location_wf(t: Tables, addr: u64, name: Seq<u8>)
    requires
        tables_wf(t),
    ensures
        tables_wf(intern_location(t, addr, name).0),
        1 <= intern_location(t, addr, name).1 <= intern_location(t, addr, name).0.locations.len(),
        intern_location(t, addr, name).0.locations[intern_location(t, addr, name).1 - 1].0 == addr,
        intern_location(t, addr, name).0.locations.take(t.locations.len() as int) == t.locations,
        intern_location(t, addr, name).0.functions.take(t.functions.len() as int) == t.functions,
        intern_location(t, addr, name).0.strings.take(t.strings.len() as int) == t.strings,
{
    let la = location_addresses(t.locations);
    lemma_first_index(la, addr);
    let k = first_index(la, addr);
    let (t3, id) = intern_location(t, addr, name);
    if k < t.locations.len() {
        assert(la[k as int] == t.locations[k as int].0);
        assert(t.locations.take(t.locations.len() as int) =~= t.locations);
        assert(t.functions.take(t.functions.len() as int) =~= t.functions);
        assert(t.strings.take(t.strings.len() as int) =~= t.strings);
    } else {
        let fnames = function_names(t.functions);
        lemma_first_index(fnames, name);
        let j = first_index(fnames, name);
        let (t2, fid) = intern_function(t, name);
        assert forall|a: int| 0 <= a < t.locations.len() implies t.locations[a].0 != addr by {
            assert(la[a] == t.locations[a].0);
        }
        if j < t.functions.len() {
            assert(t2 == t);
        } else {
            lemma_intern_string(t.strings, name);
            let (ss, sid) = intern_string(t.strings, name);
            assert forall|a: int| 0 <= a < t.functions.len() implies t.functions[a].0 != name by {
                assert(fnames[a] == t.functions[a].0);
            }
            assert forall|a: int| 0 <= a < t2.functions.len() implies {
                let sid2 = #[trigger] t2.functions[a].1;
                sid2 < t2.strings.len() && t2.strings[sid2 as int] == t2.functions[a].0
            } by {
                if a < t.functions.len() {
                    let sid2 = t.functions[a].1;
                    assert(t2.functions[a] == t.functions[a]);
                    assert(ss.take(t.strings.len() as int)[sid2 as int] == ss[sid2 as int]);
                }
            }
            assert(ss.take(5) =~= t.strings.take(5)) by {
                assert forall|a: int| 0 <= a < 5 implies ss.take(5)[a] == t.strings.take(5)[a] by {
                    assert(ss.take(t.strings.len() as int)[a] == ss[a]);
                }
            }
            assert(t2.functions.take(t.functions.len() as int) =~= t.functions);
        }
        assert(t3.locations.take(t.locations.len() as int) =~= t.locations);
        assert(t2.functions.take(t.functions.len() as int) =~= t.functions);
        assert(t2.strings.take(t.strings.len() as int) =~= t.strings) by {
            if j >= t.functions.len() {
                lemma_intern_string(t.strings, name);
            } else {
                assert(t2.strings =~= t.strings);
            }
        }
    }
}

/// A pair of string ids naming a kind of value and its unit.
#[derive(Clone, Copy, Debug, PartialEq, Eq)]
pub struct ValueType {
    pub type_id: i64,
    pub unit_id: i64,
}

/// One aggregated stack: its location ids, leaf first, and its values
/// (sample count, estimated CPU nanoseconds).
pub struct Sample {
    pub location_id: Vec<u64>,
    pub value: Vec<i64>,
}

/// A code location: its id, its address, and the id of its function, on
/// line 0 (the line is unknown).
#[derive(Clone, Copy, Debug, PartialEq, Eq)]
pub struct Location {
    pub id: u64,
    pub address: u64,
    pub function_id: u64,
}

/// A function: its id and the string id of its name.
#[derive(Clone, Copy, Debug, PartialEq, Eq)]
pub struct Function {
    pub id: u64,
    pub name: i64,
}

/// The fields of a pprof profile message that a conversion fills.
pub struct Profile {
    pub sample_type: Vec<ValueType>,
    pub sample: Vec<Sample>,
    pub location: Vec<Location>,
    pub function: Vec<Function>,
    pub string_table: Vec<Vec<u8>>,
    pub time_nanos: i64,
    pub duration_nanos: i64,
    pub period: i64,
    pub period_type: ValueType,
}

pub const NANOS_PER_SECOND: u64 = 1_000_000_000;

/// `x`, or the largest `i64` where `x` is larger.
pub open spec fn clamp_i64(x: int) -> i64 {
    if x > i64::MAX {
        i64::MAX
    } else {
        x as i64
    }
}

/// The values of a stack seen `count` times at `freq` samples per second: the
/// count, and the count times a billion divided by the frequency, truncated.
pub open spec fn sample_values(count: nat, freq: u64) -> Seq<i64> {
    seq![clamp_i64(count as int), clamp_i64((count as int) * 1_000_000_000int / (freq as int))]
}

/// Nanoseconds per sample at `freq` samples per second, truncated.
pub open spec fn period_of(freq: u64) -> i64 {
    (1_000_000_000int / (freq as int)) as i64
}

/// A duration in microseconds, in nanoseconds.
pub open spec fn duration_nanos_of(micros: u64) -> i64 {
    clamp_i64((micros as int) * 1000int)
}

pub open spec fn stack_keys(agg: Seq<(StackView, nat)>) -> Seq<StackView> {
    agg.map_values(|e: (StackView, nat)| e.0)
}

pub open spec fn ids_view(v: Vec<u64>) -> Seq<nat> {
    v@.map_values(|x: u64| x as nat)
}

/// Whether `p` is the profile of the aggregated stacks `agg` with the given
/// metadata, where `t` are the tables before and `t2` after interning.
pub open spec fn profile_of(
    p: Profile,
    t: Tables,
    t2: Tables,
    agg: Seq<(StackView, nat)>,
    duration_micros: u64,
    freq: u64,
    time_nanos: i64,
) -> bool {
    let ids = intern_stacks(t, stack_keys(agg)).1;
    &&& t2 == intern_stacks(t, stack_keys(agg)).0
    &&& p.sample_type@ == seq![
        ValueType { type_id: 1, unit_id: 2 },
        ValueType { type_id: 3, unit_id: 4 },
    ]
    &&& p.sample@.len() == agg.len()
    &&& forall|i: int|
        0 <= i < agg.len() ==> ids_view((#[trigger] p.sample@[i]).location_id) == ids[i]
            && p.sample@[i].value@ == sample_values(agg[i].1, freq)
    &&& p.location@.len() == t2.locations.len()
    &&& forall|k: int|
        0 <= k < t2.locations.len() ==> #[trigger] p.location@[k] == (Location {
            id: (k + 1) as u64,
            address: t2.locations[k].0,
            function_id: t2.locations[k].1 as u64,
        })
    &&& p.function@.len() == t2.functions.len()
    &&& forall|k: int|
        0 <= k < t2.functions.len() ==> #[trigger] p.function@[k] == (Function {
            id: (k + 1) as u64,
            name: t2.functions[k].1 as i64,
        })
    &&& lines_view(p.string_table@) == t2.strings
    &&& p.time_nanos == time_nanos
    &&& p.duration_nanos == duration_nanos_of(duration_micros)
    &&& p.period == period_of(freq)
    &&& p.period_type == (ValueType { type_id: 3, unit_id: 4 })
}

/// A hash of a name, under which its table entry is filed.
pub open spec fn name_hash(s: Seq<u8>) -> u64
    decreases s.len(),
{
    if s.len() == 0 {
        0
    } else {
        u64_specs::wrapping_add(u64_specs::wrapping_mul(name_hash(s.drop_last()), 31), s.last() as u64)
    }
}

fn hash_name(s: &Vec<u8>) -> (r: u64)
    ensures
        r == name_hash(s@),
{
    let mut h: u64 = 0;
    let mut i: usize = 0;
    assert(s@.take(0) =~= seq![]);
    while i < s.len()
        invariant
            0 <= i <= s@.len(),
            h == name_hash(s@.take(i as int)),
        decreases s@.len() - i,
    {
        assert(s@.take(i as int + 1).drop_last() =~= s@.take(i as int));
        h = h.wrapping_mul(31).wrapping_add(s[i] as u64);
        i = i + 1;
    }
    assert(s@.take(i as int) =~= s@);
    h
}

/// Every name is filed under its hash, and the index names only entries.
pub open spec fn name_index_ok(keys: Seq<Seq<u8>>, m: Map<u64, Vec<usize>>) -> bool {
    &&& forall|j: int|
        0 <= j < keys.len() ==> m.contains_key(name_hash(#[trigger] keys[j])) && m[name_hash(
            keys[j],
        )]@.contains(j as usize)
    &&& forall|h: u64, k: int| m.contains_key(h) && 0 <= k < m[h]@.len() ==> (#[trigger] m[h]@[k]) < keys.len()
}

fn bucket_of(m: &HashMap<u64, Vec<usize>>, h: u64) -> (r: Vec<usize>)
    ensures
        m@.contains_key(h) ==> r@ == m@[h]@,
        !m@.contains_key(h) ==> r@.len() == 0,
{
    broadcast use group_hash_axioms;

    match m.get(&h) {
        Some(b) => b.clone(),
        None => Vec::new(),
    }
}

proof fn lemma_not_filed(keys: Seq<Seq<u8>>, m: Map<u64, Vec<usize>>, name: Seq<u8>, bucket: Seq<usize>, n: usize)
    requires
        name_index_ok(keys, m),
        n == keys.len(),
        m.contains_key(name_hash(name)) ==> bucket == m[name_hash(name)]@,
        !m.contains_key(name_hash(name)) ==> bucket.len() == 0,
        forall|k: int| 0 <= k < bucket.len() ==> keys[bucket[k] as int] != name,
    ensures
        forall|j: int| 0 <= j < keys.len() ==> keys[j] != name,
{
    assert forall|j: int| 0 <= j < keys.len() implies keys[j] != name by {
        if keys[j] == name {
            assert(m.contains_key(name_hash(keys[j])));
            assert(m[name_hash(name)]@.contains(j as usize));
            let k = choose|k: int| 0 <= k < bucket.len() && bucket[k] == j as usize;
            assert(j < n);
            assert(bucket[k] as int == j);
        }
    }
}

fn file_under(
    m: &mut HashMap<u64, Vec<usize>>,
    Ghost(keys): Ghost<Seq<Seq<u8>>>,
    Ghost(name): Ghost<Seq<u8>>,
    h: u64,
    n: usize,
)
    requires
        name_index_ok(keys, old(m)@),
        h == name_hash(name),
        n == keys.len(),
    ensures
        name_index_ok(keys.push(name), final(m)@),
{
    broadcast use group_hash_axioms;

    let mut bucket = bucket_of(m, h);
    bucket.push(n);
    m.insert(h, bucket);
    let ghost nk = keys.push(name);
    assert forall|j: int| 0 <= j < nk.len() implies m@.contains_key(name_hash(#[trigger] nk[j]))
        && m@[name_hash(nk[j])]@.contains(j as usize) by {
        if j < n {
            assert(nk[j] == keys[j]);
            let hj = name_hash(keys[j]);
            assert(old(m)@.contains_key(hj) && old(m)@[hj]@.contains(j as usize));
            if hj == h {
                let k = choose|k: int| 0 <= k < old(m)@[h]@.len() && old(m)@[h]@[k] == j as usize;
                assert(m@[h]@[k] == j as usize);
            }
        } else {
            assert(m@[h]@[bucket@.len() - 1] == n);
        }
    }
    assert forall|hh: u64, k: int| m@.contains_key(hh) && 0 <= k < m@[hh]@.len() implies (
    #[trigger] m@[hh]@[k]) < nk.len() by {
        if hh != h {
            assert(old(m)@[hh]@[k] < n);
        } else if k < bucket@.len() - 1 {
            assert(old(m)@[h]@[k] < n);
        }
    }
}

/// A converter from stack dumps to profiles; it owns the intern tables.
pub struct PprofConverter {
    strings: Vec<Vec<u8>>,
    functions: Vec<(Vec<u8>, u64)>,
    locations: Vec<(u64, u64)>,
    /// The index in `locations` of each address.
    location_index: HashMap<u64, usize>,
    /// The indices in `strings` of the strings with each hash.
    string_index: HashMap<u64, Vec<usize>>,
    /// The indices in `functions` of the names with each hash.
    function_index: HashMap<u64, Vec<usize>>,
}

impl PprofConverter {
    /// The intern tables as plain values.
    pub closed spec fn tables(&self) -> Tables {
        Tables {
            strings: lines_view(self.strings@),
            functions: self.functions@.map_values(|f: (Vec<u8>, u64)| (f.0@, f.1 as nat)),
            locations: self.locations@.map_values(|l: (u64, u64)| (l.0, l.1 as nat)),
        }
    }

    pub closed spec fn wf(&self) -> bool {
        &&& tables_wf(self.tables())
        &&& forall|k: int|
            0 <= k < self.locations@.len() ==> self.location_index@.contains_key(
                (#[trigger] self.locations@[k]).0,
            ) && self.location_index@[self.locations@[k].0] == k
        &&& forall|a: u64|
            #[trigger] self.location_index@.contains_key(a) ==> self.location_index@[a]
                < self.locations@.len() && self.locations@[self.location_index@[a] as int].0 == a
        &&& name_index_ok(self.tables().strings, self.string_index@)
        &&& name_index_ok(function_names(self.tables().functions), self.function_index@)
    }

    /// A converter with the five fixed strings and no functions or locations.
    pub fn new() -> (r: Self)
        ensures
            r.wf(),
            r.tables() == fresh_tables(),
    {
        let mut strings: Vec<Vec<u8>> = Vec::new();
        strings.push(Vec::new());
        strings.push(vec![115u8, 97, 109, 112, 108, 101, 115]);
        strings.push(vec![99u8, 111, 117, 110, 116]);
        strings.push(vec![99u8, 112, 117]);
        strings.push(vec![110u8, 97, 110, 111, 115, 101, 99, 111, 110, 100, 115]);
        let mut string_index: HashMap<u64, Vec<usize>> = HashMap::new();
        let ghost none: Seq<Seq<u8>> = seq![];
        assert(name_index_ok(none, string_index@));
        let mut k: usize = 0;
        while k < strings.len()
            invariant
                0 <= k <= strings@.len(),
                name_index_ok(lines_view(strings@).take(k as int), string_index@),
            decreases strings@.len() - k,
        {
            let h = hash_name(&strings[k]);
            file_under(&mut string_index, Ghost(lines_view(strings@).take(k as int)), Ghost(strings@[k as int]@), h, k);
            assert(lines_view(strings@).take(k as int).push(strings@[k as int]@) =~= lines_view(strings@).take(k as int + 1));
            k = k + 1;
        }
        assert(lines_view(strings@).take(k as int) =~= lines_view(strings@));
        let r = PprofConverter {
            strings,
            functions: Vec::new(),
            locations: Vec::new(),
            location_index: HashMap::new(),
            string_index,
            function_index: HashMap::new(),
        };
        assert(r.tables().strings =~= seed_strings());
        assert(r.tables().functions =~= seq![]);
        assert(r.tables().locations =~= seq![]);
        assert(seed_strings()[0].len() == 0);
        assert(seed_strings()[1].len() == 7);
        assert(seed_strings()[2].len() == 5);
        assert(seed_strings()[3].len() == 3);
        assert(seed_strings()[4].len() == 11);
        assert(seed_strings()[0] != seed_strings()[1]);
        assert(seed_strings()[0] != seed_strings()[2]);
        assert(seed_strings()[0] != seed_strings()[3]);
        assert(seed_strings()[0] != seed_strings()[4]);
        assert(seed_strings()[1] != seed_strings()[2]);
        assert(seed_strings()[1] != seed_strings()[3]);
        assert(seed_strings()[1] != seed_strings()[4]);
        assert(seed_strings()[2] != seed_strings()[4]);
        assert(seed_strings()[3] != seed_strings()[4]);
        assert(seed_strings()[2] != seed_strings()[3]);
        assert(seed_strings().take(5) =~= seed_strings());
        r
    }

    fn string_id(&mut self, name: &Vec<u8>) -> (r: usize)
        requires
            tables_wf(old(self).tables()),
            name_index_ok(old(self).tables().strings, old(self).string_index@),
        ensures
            final(self).strings@.len() >= old(self).strings@.len(),
            final(self).location_index == old(self).location_index,
            final(self).function_index == old(self).function_index,
            final(self).functions == old(self).functions,
            final(self).locations == old(self).locations,
            final(self).tables().strings == intern_string(old(self).tables().strings, name@).0,
            r as nat == intern_string(old(self).tables().strings, name@).1,
            name_index_ok(final(self).tables().strings, final(self).string_index@),
    {
        let ghost keys = self.tables().strings;
        let h = hash_name(name);
        let bucket = bucket_of(&self.string_index, h);
        let mut i: usize = 0;
        while i < bucket.len()
            invariant
                keys == self.tables().strings,
                self == old(self),
                tables_wf(self.tables()),
                name_index_ok(keys, self.string_index@),
                h == name_hash(name@),
                self.string_index@.contains_key(h) ==> bucket@ == self.string_index@[h]@,
                !self.string_index@.contains_key(h) ==> bucket@.len() == 0,
                0 <= i <= bucket@.len(),
                forall|k: int| 0 <= k < i ==> keys[bucket@[k] as int] != name@,
            decreases bucket@.len() - i,
        {
            let c = bucket[i];
            assert(c < keys.len()) by {
                assert(self.string_index@[h]@[i as int] == c);
            }
            assert(keys[c as int] == self.strings@[c as int]@);
            if bytes_eq(&self.strings[c], name) {
                proof {
                    lemma_first_index(keys, name@);
                    let f = first_index(keys, name@) as int;
                    if f < c {
                        assert(keys[f] == keys[c as int]);
                    }
                }
                return c;
            }
            i = i + 1;
        }
        let n = self.strings.len();
        proof {
            lemma_first_index(keys, name@);
            lemma_not_filed(keys, self.string_index@, name@, bucket@, n);
        }
        self.strings.push(name.clone());
        file_under(&mut self.string_index, Ghost(keys), Ghost(name@), h, n);
        assert(self.tables().strings =~= keys.push(name@));
        n
    }

    fn function_id(&mut self, name: &Vec<u8>) -> (r: usize)
        requires
            old(self).wf(),
        ensures
            final(self).locations == old(self).locations,
            final(self).location_index == old(self).location_index,
            final(self).tables() == intern_function(old(self).tables(), name@).0,
            r as nat == intern_function(old(self).tables(), name@).1,
            name_index_ok(final(self).tables().strings, final(self).string_index@),
            name_index_ok(function_names(final(self).tables().functions), final(self).function_index@),
    {
        let ghost t = self.tables();
        let ghost keys = function_names(t.functions);
        let h = hash_name(name);
        let bucket = bucket_of(&self.function_index, h);
        let mut i: usize = 0;
        while i < bucket.len()
            invariant
                t == self.tables(),
                keys == function_names(t.functions),
                self == old(self),
                self.wf(),
                h == name_hash(name@),
                self.function_index@.contains_key(h) ==> bucket@ == self.function_index@[h]@,
                !self.function_index@.contains_key(h) ==> bucket@.len() == 0,
                0 <= i <= bucket@.len(),
                forall|k: int| 0 <= k < i ==> keys[bucket@[k] as int] != name@,
            decreases bucket@.len() - i,
        {
            let c = bucket[i];
            assert(c < keys.len()) by {
                assert(self.function_index@[h]@[i as int] == c);
            }
            assert(keys[c as int] == self.functions@[c as int].0@);
            let len: usize = self.functions.len();
            assert(c < len);
            if bytes_eq(&self.functions[c].0, name) {
                proof {
                    lemma_first_index(keys, name@);
                    let f = first_index(keys, name@) as int;
                    if f < c {
                        assert(keys[f] == t.functions[f].0);
                        assert(keys[c as int] == t.functions[c as int].0);
                    }
                }
                return c + 1;
            }
            i = i + 1;
        }
        let n = self.functions.len();
        proof {
            lemma_first_index(keys, name@);
            lemma_not_filed(keys, self.function_index@, name@, bucket@, n);
        }
        let sid = self.string_id(name);
        self.functions.push((name.clone(), sid as u64));
        file_under(&mut self.function_index, Ghost(keys), Ghost(name@), h, n);
        assert(self.tables().functions =~= t.functions.push((name@, sid as nat)));
        assert(function_names(self.tables().functions) =~= keys.push(name@));
        assert(self.tables().locations =~= t.locations);
        self.functions.len()
    }

    /// The id of the location at `addr`: a new address gets the next id and is
    /// bound to the function called `name`, which gets the next function id
    /// (and its name the next string id) where it is new.
    pub fn location_id(&mut self, addr: u64, name: &Vec<u8>) -> (r: u64)
        requires
            old(self).wf(),
        ensures
            final(self).wf(),
            final(self).tables() == intern_location(old(self).tables(), addr, name@).0,
            r as nat == intern_location(old(self).tables(), addr, name@).1,
    {
        broadcast use group_hash_axioms;

        let ghost t = self.tables();
        let ghost keys = location_addresses(t.locations);
        proof {
            lemma_first_index(keys, addr);
            lemma_intern_location_wf(t, addr, name@);
        }
        match self.location_index.get(&addr) {
            Some(k) => {
                let k: usize = *k;
                let len: usize = self.locations.len();
                assert(k < len);
                proof {
                    assert(keys[k as int] == addr);
                    if first_index(keys, addr) < k {
                        let j = first_index(keys, addr) as int;
                        assert(self.locations@[j].0 == addr);
                    }
                }
                return (k + 1) as u64;
            },
            None => {
                assert(first_index(keys, addr) == keys.len()) by {
                    if first_index(keys, addr) < keys.len() {
                        let j = first_index(keys, addr) as int;
                        assert(self.locations@[j].0 == addr);
                    }
                }
            },
        }
        let fid = self.function_id(name);
        let n = self.locations.len();
        self.locations.push((addr, fid as u64));
        self.location_index.insert(addr, n);
        assert(self.tables().locations =~= intern_location(t, addr, name@).0.locations);
        proof {
            assert forall|k: int| 0 <= k < self.locations@.len() implies self.location_index@.contains_key(
                (#[trigger] self.locations@[k]).0,
            ) && self.location_index@[self.locations@[k].0] == k by {
                if k < n {
                    assert(self.locations@[k] == old(self).locations@[k]);
                    assert(keys[k] == self.locations@[k].0);
                }
            }
        }
        self.locations.len() as u64
    }

    fn stack_location_ids(&mut self, stack: &Vec<Frame>) -> (r: Vec<u64>)
        requires
            old(self).wf(),
        ensures
            final(self).wf(),
            final(self).tables() == intern_stack(old(self).tables(), stack_view(stack@)).0,
            ids_view(r) == intern_stack(old(self).tables(), stack_view(stack@)).1,
    {
        let ghost t0 = self.tables();
        let ghost sv = stack_view(stack@);
        let mut ids: Vec<u64> = Vec::new();
        let mut j: usize = 0;
        assert(sv.take(0) =~= seq![]);
        assert(ids_view(ids) =~= seq![]);
        while j < stack.len()
            invariant
                sv == stack_view(stack@),
                0 <= j <= stack@.len(),
                self.wf(),
                self.tables() == intern_stack(t0, sv.take(j as int)).0,
                ids_view(ids) == intern_stack(t0, sv.take(j as int)).1,
            decreases stack@.len() - j,
        {
            assert(sv.take(j as int + 1).drop_last() =~= sv.take(j as int));
            assert(sv.take(j as int + 1).last() == stack@[j as int]@);
            let f = &stack[j];
            let id = self.location_id(f.address, &f.function_name);
            ids.push(id);
            assert(ids_view(ids) =~= intern_stack(t0, sv.take(j as int + 1)).1);
            j = j + 1;
        }
        assert(sv.take(j as int) =~= sv);
        ids
    }

    /// The profile of a parsed dump; its stacks' frames are interned in order.
    pub fn build_profile(&mut self, trace: &Trace) -> (r: Profile)
        requires
            old(self).wf(),
            trace.freq > 0,
        ensures
            final(self).wf(),
            profile_of(
                r,
                old(self).tables(),
                final(self).tables(),
                samples_view(trace.samples@),
                trace.duration_micros,
                trace.freq,
                trace.time_nanos,
            ),
    {
        let ghost t0 = self.tables();
        let ghost agg = samples_view(trace.samples@);
        let ghost keys = stack_keys(agg);
        let mut sample: Vec<Sample> = Vec::new();
        let mut i: usize = 0;
        assert(keys.take(0) =~= seq![]);
        while i < trace.samples.len()
            invariant
                agg == samples_view(trace.samples@),
                keys == stack_keys(agg),
                trace.freq > 0,
                0 <= i <= trace.samples@.len(),
                self.wf(),
                self.tables() == intern_stacks(t0, keys.take(i as int)).0,
                intern_stacks(t0, keys.take(i as int)).1.len() == i,
                sample@.len() == i,
                forall|j: int|
                    0 <= j < i ==> ids_view((#[trigger] sample@[j]).location_id) == intern_stacks(
                        t0,
                        keys.take(i as int),
                    ).1[j] && sample@[j].value@ == sample_values(agg[j].1, trace.freq),
            decreases trace.samples@.len() - i,
        {
            let ghost before = intern_stacks(t0, keys.take(i as int));
            assert(keys.take(i as int + 1).drop_last() =~= keys.take(i as int));
            assert(keys.take(i as int + 1).last() == stack_view(trace.samples@[i as int].0@));
            let entry = &trace.samples[i];
            let location_id = self.stack_location_ids(&entry.0);
            let count = entry.1;
            let v0: i64 = if count > i64::MAX as u64 {
                i64::MAX
            } else {
                count as i64
            };
            let cpu: u128 = (count as u128) * (NANOS_PER_SECOND as u128) / (trace.freq as u128);
            let v1: i64 = if cpu > i64::MAX as u128 {
                i64::MAX
            } else {
                cpu as i64
            };
            let value = vec![v0, v1];
            assert(value@ =~= sample_values(agg[i as int].1, trace.freq));
            sample.push(Sample { location_id, value });
            i = i + 1;
        }
        assert(keys.take(i as int) =~= keys);
        let mut location: Vec<Location> = Vec::new();
        let mut k: usize = 0;
        while k < self.locations.len()
            invariant
                0 <= k <= self.locations@.len(),
                location@.len() == k,
                forall|m: int|
                    0 <= m < k ==> #[trigger] location@[m] == (Location {
                        id: (m + 1) as u64,
                        address: self.tables().locations[m].0,
                        function_id: self.tables().locations[m].1 as u64,
                    }),
            decreases self.locations@.len() - k,
        {
            let (address, function_id) = self.locations[k];
            location.push(Location { id: (k + 1) as u64, address, function_id });
            k = k + 1;
        }
        let mut function: Vec<Function> = Vec::new();
        let mut k: usize = 0;
        while k < self.functions.len()
            invariant
                self.wf(),
                0 <= k <= self.functions@.len(),
                function@.len() == k,
                forall|m: int|
                    0 <= m < k ==> #[trigger] function@[m] == (Function {
                        id: (m + 1) as u64,
                        name: self.tables().functions[m].1 as i64,
                    }),
            decreases self.functions@.len() - k,
        {
            let name: i64 = #[verifier::truncate] (self.functions[k].1 as i64);
            function.push(Function { id: (k + 1) as u64, name });
            k = k + 1;
        }
        let mut string_table: Vec<Vec<u8>> = Vec::new();
        let mut k: usize = 0;
        while k < self.strings.len()
            invariant
                0 <= k <= self.strings@.len(),
                string_table@.len() == k,
                lines_view(string_table@) == self.tables().strings.take(k as int),
            decreases self.strings@.len() - k,
        {
            let c = self.strings[k].clone();
            assert(c@ == self.tables().strings[k as int]);
            let ghost prev = string_table@;
            string_table.push(c);
            assert forall|m: int| 0 <= m < k + 1 implies lines_view(string_table@)[m]
                == self.tables().strings.take(k as int + 1)[m] by {
                if m < k {
                    assert(string_table@[m] == prev[m]);
                    assert(lines_view(prev)[m] == self.tables().strings.take(k as int)[m]);
                }
            }
            assert(lines_view(string_table@) =~= self.tables().strings.take(k as int + 1));
            k = k + 1;
        }
        assert(self.tables().strings.take(k as int) =~= self.tables().strings);
        let duration: u128 = (trace.duration_micros as u128) * 1000;
        let duration_nanos: i64 = if duration > i64::MAX as u128 {
            i64::MAX
        } else {
            duration as i64
        };
        let sample_type = vec![ValueType { type_id: 1, unit_id: 2 }, ValueType { type_id: 3, unit_id: 4 }];
        let r = Profile {
            sample_type,
            sample,
            location,
            function,
            string_table,
            time_nanos: trace.time_nanos,
            duration_nanos,
            period: (NANOS_PER_SECOND / trace.freq) as i64,
            period_type: ValueType { type_id: 3, unit_id: 4 },
        };
        assert(r.sample_type@ =~= seq![
            ValueType { type_id: 1, unit_id: 2 },
            ValueType { type_id: 3, unit_id: 4 },
        ]);
        assert(r.duration_nanos == duration_nanos_of(trace.duration_micros));
        assert(r.period == period_of(trace.freq));
        assert(lines_view(r.string_table@) == self.tables().strings);
        assert(self.tables() == intern_stacks(t0, keys).0);
        assert(r.location@.len() == self.tables().locations.len());
        assert(r.function@.len() == self.tables().functions.len());
        r
    }

    /// Converts the lines of a stack dump into a profile message and compresses
    /// its encoding with gzip. Each conversion starts from fresh tables; it
    /// succeeds exactly where `profile_from_lines` does.
    pub fn from_reader(&mut self, lines: &Vec<Vec<u8>>) -> (r: Result<Vec<u8>, ConvertError>)
        ensures
            final(self).wf(),
            exists|local: Option<i64>|
                match #[trigger] dump_meta(lines_view(lines@), local) {
                    Ok(m) => r matches Ok(v) && exists|p: Profile|
                        #[trigger] profile_of(
                            p,
                            fresh_tables(),
                            final(self).tables(),
                            aggregate(scan(lines_view(lines@)).blocks),
                            m.0,
                            m.1,
                            m.2,
                        ) && gzip_member_of(v@, profile_bytes(p)),
                    Err(e) => r == Err::<Vec<u8>, ConvertError>(e) && final(self).tables()
                        == fresh_tables(),
                },
    {
        let p = self.profile_from_lines(lines);
        let ghost local = choose|local: Option<i64>|
            match #[trigger] dump_meta(lines_view(lines@), local) {
                Ok(m) => p matches Ok(q) && profile_of(
                    q,
                    fresh_tables(),
                    self.tables(),
                    aggregate(scan(lines_view(lines@)).blocks),
                    m.0,
                    m.1,
                    m.2,
                ),
                Err(e) => p == Err::<Profile, ConvertError>(e) && self.tables() == fresh_tables(),
            };
        match p {
            Ok(p) => {
                let encoded = encode_profile(&p);
                let v = compress_profile(&encoded);
                assert(match dump_meta(lines_view(lines@), local) {
                    Ok(m) => profile_of(
                        p,
                        fresh_tables(),
                        self.tables(),
                        aggregate(scan(lines_view(lines@)).blocks),
                        m.0,
                        m.1,
                        m.2,
                    ) && gzip_member_of(v@, profile_bytes(p)),
                    Err(e) => false,
                });
                Ok(v)
            },
            Err(e) => Err(e),
        }
    }

    /// Converts the lines of a stack dump into a profile, starting from fresh
    /// tables: the five fixed strings, no functions, no locations. The capture
    /// instant depends on the machine's time zone; the outcome is the one that
    /// `dump_meta` gives for some such instant, or for none.
    pub fn profile_from_lines(&mut self, lines: &Vec<Vec<u8>>) -> (r: Result<Profile, ConvertError>)
        ensures
            final(self).wf(),
            exists|local: Option<i64>|
                match #[trigger] dump_meta(lines_view(lines@), local) {
                    Ok(m) => r matches Ok(p) && profile_of(
                        p,
                        fresh_tables(),
                        final(self).tables(),
                        aggregate(scan(lines_view(lines@)).blocks),
                        m.0,
                        m.1,
                        m.2,
                    ),
                    Err(e) => r == Err::<Profile, ConvertError>(e) && final(self).tables()
                        == fresh_tables(),
                },
    {
        *self = PprofConverter::new();
        let trace = read_trace(lines);
        let ghost local = choose|local: Option<i64>|
            crate::trace::trace_matches(
                trace,
                aggregate(scan(lines_view(lines@)).blocks),
                #[trigger] dump_meta(lines_view(lines@), local),
            );
        match trace {
            Ok(t) => {
                let p = self.build_profile(&t);
                assert(match dump_meta(lines_view(lines@), local) {
                    Ok(m) => profile_of(
                        p,
                        fresh_tables(),
                        self.tables(),
                        aggregate(scan(lines_view(lines@)).blocks),
                        m.0,
                        m.1,
                        m.2,
                    ),
                    Err(e) => false,
                });
                Ok(p)
            },
            Err(e) => Err(e),
        }
    }
}

/// Makes converters.
pub struct PprofConverterBuilder {}

impl Default for PprofConverterBuilder {
    fn default() -> (r: Self)
        ensures
            r == (PprofConverterBuilder {}),
    {
        PprofConverterBuilder {}
    }
}

impl PprofConverterBuilder {
    /// A fresh converter: the five fixed strings, no functions, no locations.
    pub fn build(&mut self) -> (r: PprofConverter)
        ensures
            r.wf(),
            r.tables() == fresh_tables(),
    {
        PprofConverter::new()
    }
}

} // verus!

verus! {

/// Numbering is determined by the tables and the stacks: two profiles built
/// from the same tables and the same aggregated stacks have the same tables
/// after, the same location ids in each sample, and the same locations,
/// functions, strings and values.
pub proof fn lemma_numbering_deterministic(
    first: Profile,
    second: Profile,
    t: Tables,
    t1: Tables,
    t2: Tables,
    agg: Seq<(StackView, nat)>,
    duration_micros: u64,
    freq: u64,
    time_nanos: i64,
)
    requires
        profile_of(first, t, t1, agg, duration_micros, freq, time_nanos),
        profile_of(second, t, t2, agg, duration_micros, freq, time_nanos),
    ensures
        t1 == t2,
        first.sample@.len() == second.sample@.len(),
        forall|i: int|
            0 <= i < first.sample@.len() ==> ids_view((#[trigger] first.sample@[i]).location_id) == ids_view(
                second.sample@[i].location_id,
            ) && first.sample@[i].value@ == second.sample@[i].value@,
        first.location@ == second.location@,
        first.function@ == second.function@,
        lines_view(first.string_table@) == lines_view(second.string_table@),
        first.period == second.period,
        first.duration_nanos == second.duration_nanos,
{
    assert forall|i: int| 0 <= i < first.sample@.len() implies ids_view(
        (#[trigger] first.sample@[i]).location_id,
    ) == ids_view(second.sample@[i].location_id) && first.sample@[i].value@ == second.sample@[i].value@ by {
        assert(ids_view(second.sample@[i].location_id) == intern_stacks(t, stack_keys(agg)).1[i]);
    }
    assert(first.location@ =~= second.location@);
    assert(first.function@ =~= second.function@);
}

/// The period is a billion divided by the frequency, truncated, and the
/// duration in nanoseconds is the duration in microseconds times a thousand
/// wherever that fits in an `i64`.
pub proof fn lemma_period_and_duration(
    p: Profile,
    t: Tables,
    t2: Tables,
    agg: Seq<(StackView, nat)>,
    duration_micros: u64,
    freq: u64,
    time_nanos: i64,
)
    requires
        profile_of(p, t, t2, agg, duration_micros, freq, time_nanos),
        freq > 0,
        duration_micros * 1000 <= i64::MAX,
    ensures
        p.period == 1_000_000_000int / (freq as int),
        p.duration_nanos == duration_micros * 1000,
{
}

} // verus!

verus! {

/// Interning a stack keeps the tables well formed, only appends locations,
/// and gives each frame the id of a location at that frame's address.
pub proof fn lemma_stack_ids_point_to_addresses(t: Tables, s: StackView)
    requires
        tables_wf(t),
    ensures
        ({
            let (t2, ids) = intern_stack(t, s);
            &&& tables_wf(t2)
            &&& t2.locations.len() >= t.locations.len()
            &&& t2.locations.take(t.locations.len() as int) == t.locations
            &&& ids.len() == s.len()
            &&& forall|k: int|
                0 <= k < s.len() ==> 1 <= #[trigger] ids[k] <= t2.locations.len()
                    && t2.locations[ids[k] - 1].0 == s[k].0
        }),
    decreases s.len(),
{
    if s.len() > 0 {
        let p = s.drop_last();
        lemma_stack_ids_point_to_addresses(t, p);
        let (t1, ids1) = intern_stack(t, p);
        lemma_intern_location_wf(t1, s.last().0, s.last().1);
        let (t2, id) = intern_location(t1, s.last().0, s.last().1);
        let ids = ids1.push(id);
        assert forall|k: int| 0 <= k < s.len() implies 1 <= #[trigger] ids[k] <= t2.locations.len()
            && t2.locations[ids[k] - 1].0 == s[k].0 by {
            if k < p.len() {
                assert(ids[k] == ids1[k]);
                assert(s[k] == p[k]);
                assert(t2.locations.take(t1.locations.len() as int)[ids1[k] - 1] == t2.locations[ids1[k]
                    - 1]);
            }
        }
        assert(t2.locations.take(t.locations.len() as int) =~= t.locations) by {
            assert forall|m: int| 0 <= m < t.locations.len() implies t2.locations[m] == t.locations[m] by {
                assert(t2.locations.take(t1.locations.len() as int)[m] == t2.locations[m]);
                assert(t1.locations.take(t.locations.len() as int)[m] == t1.locations[m]);
            }
        }
    } else {
        assert(t.locations.take(t.locations.len() as int) =~= t.locations);
    }
}

/// Every location id of every sample names a location at the address of the
/// frame it stands for, in the tables left after interning.
pub proof fn lemma_sample_ids_point_to_addresses(t: Tables, ss: Seq<StackView>)
    requires
        tables_wf(t),
    ensures
        ({
            let (t2, ids) = intern_stacks(t, ss);
            &&& tables_wf(t2)
            &&& t2.locations.len() >= t.locations.len()
            &&& t2.locations.take(t.locations.len() as int) == t.locations
            &&& ids.len() == ss.len()
            &&& forall|i: int, k: int|
                0 <= i < ss.len() && 0 <= k < ss[i].len() ==> #[trigger] ids[i][k] >= 1
                    && ids[i][k] <= t2.locations.len() && t2.locations[ids[i][k] - 1].0 == ss[i][k].0
            &&& forall|i: int| 0 <= i < ss.len() ==> (#[trigger] ids[i]).len() == ss[i].len()
        }),
    decreases ss.len(),
{
    if ss.len() > 0 {
        let p = ss.drop_last();
        lemma_sample_ids_point_to_addresses(t, p);
        let (t1, ids1) = intern_stacks(t, p);
        lemma_stack_ids_point_to_addresses(t1, ss.last());
        let (t2, sids) = intern_stack(t1, ss.last());
        let ids = ids1.push(sids);
        assert forall|i: int, k: int| 0 <= i < ss.len() && 0 <= k < ss[i].len() implies #[trigger] ids[i][k]
            >= 1 && ids[i][k] <= t2.locations.len() && t2.locations[ids[i][k] - 1].0 == ss[i][k].0 by {
            if i < p.len() {
                assert(ids[i] == ids1[i]);
                assert(ss[i] == p[i]);
                assert(ids1[i][k] >= 1 && ids1[i][k] <= t1.locations.len());
                assert(t2.locations.take(t1.locations.len() as int)[ids1[i][k] - 1] == t2.locations[ids1[i][k]
                    - 1]);
            } else {
                assert(ids[i] == sids);
                assert(sids[k] >= 1);
            }
        }
        assert forall|i: int| 0 <= i < ss.len() implies (#[trigger] ids[i]).len() == ss[i].len() by {
            if i < p.len() {
                assert(ids[i] == ids1[i]);
                assert(ss[i] == p[i]);
            }
        }
        assert(t2.locations.take(t.locations.len() as int) =~= t.locations) by {
            assert forall|m: int| 0 <= m < t.locations.len() implies t2.locations[m] == t.locations[m] by {
                assert(t2.locations.take(t1.locations.len() as int)[m] == t2.locations[m]);
                assert(t1.locations.take(t.locations.len() as int)[m] == t1.locations[m]);
            }
        }
    } else {
        assert(t.locations.take(t.locations.len() as int) =~= t.locations);
    }
}

} // verus!

verus! {

/// In a profile, each sample lists one location id per frame of its stack, and
/// the location with that id carries that frame's address.
pub proof fn lemma_profile_locations(
    p: Profile,
    t: Tables,
    t2: Tables,
    agg: Seq<(StackView, nat)>,
    duration_micros: u64,
    freq: u64,
    time_nanos: i64,
)
    requires
        tables_wf(t),
        profile_of(p, t, t2, agg, duration_micros, freq, time_nanos),
    ensures
        forall|i: int| 0 <= i < agg.len() ==> (#[trigger] p.sample@[i]).location_id@.len() == agg[i].0.len(),
        forall|i: int, k: int|
            0 <= i < agg.len() && 0 <= k < agg[i].0.len() ==> {
                let id = (#[trigger] p.sample@[i].location_id@[k]) as int;
                1 <= id <= p.location@.len() && p.location@[id - 1].id == id && p.location@[id
                    - 1].address == agg[i].0[k].0
            },
{
    let keys = stack_keys(agg);
    lemma_sample_ids_point_to_addresses(t, keys);
    let ids = intern_stacks(t, keys).1;
    assert forall|i: int| 0 <= i < agg.len() implies (#[trigger] p.sample@[i]).location_id@.len()
        == agg[i].0.len() by {
        assert(ids_view(p.sample@[i].location_id) == ids[i]);
        assert(keys[i] == agg[i].0);
        assert(ids[i].len() == keys[i].len());
    }
    assert forall|i: int, k: int| 0 <= i < agg.len() && 0 <= k < agg[i].0.len() implies {
        let id = (#[trigger] p.sample@[i].location_id@[k]) as int;
        1 <= id <= p.location@.len() && p.location@[id - 1].id == id && p.location@[id - 1].address
            == agg[i].0[k].0
    } by {
        assert(ids_view(p.sample@[i].location_id) == ids[i]);
        assert(keys[i] == agg[i].0);
        assert(ids[i].len() == keys[i].len());
        assert(ids_view(p.sample@[i].location_id)[k] == p.sample@[i].location_id@[k] as nat);
        assert(ids[i][k] >= 1);
        let id = ids[i][k] as int;
        assert(p.location@[id - 1] == (Location {
            id: id as u64,
            address: t2.locations[id - 1].0,
            function_id: t2.locations[id - 1].1 as u64,
        }));
    }
}

} // verus!
