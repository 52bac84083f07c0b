//! The protobuf wire encoding of a profile message.
use vstd::prelude::*;
use crate::profile::{Function, Location, Profile, Sample, ValueType};
use crate::trace::lines_view;

verus! {

/// The base-128 varint of `v`: seven bits per byte, least significant first,
/// the high bit set on every byte but the last.
pub open spec fn varint(v: nat) -> Seq<u8>
    decreases v,
{
    if v < 128 {
        seq![v as u8]
    } else {
        seq![((v % 128) + 128) as u8] + varint(v / 128)
    }
}

/// Relies on `prost::encoding::encode_varint`, which appends the varint of `v`.
#[verifier::external_body]
fn put_varint(v: u64, buf: &mut Vec<u8>)
    ensures
        final(buf)@ == old(buf)@ + varint(v as nat),
{
    prost::encoding::encode_varint(v, buf)
}

/// The key of field `tag`: the varint of the tag times eight plus the wire
/// type, 2 for a length-delimited field and 0 for a varint.
pub open spec fn key(tag: nat, delimited: bool) -> Seq<u8> {
    varint(tag * 8 + if delimited {
        2nat
    } else {
        0nat
    })
}

/// Relies on `prost::encoding::encode_key`, which appends the varint of
/// `tag << 3 | wire_type`; it asserts that the tag is in 1 ..= 2^29 - 1.
#[verifier::external_body]
fn put_key(tag: u32, delimited: bool, buf: &mut Vec<u8>)
    requires
        1 <= tag < 0x2000_0000,
    ensures
        final(buf)@ == old(buf)@ + key(tag as nat, delimited),
{
    let wire_type = if delimited {
        prost::encoding::WireType::LengthDelimited
    } else {
        prost::encoding::WireType::Varint
    };
    prost::encoding::encode_key(tag, wire_type, buf)
}

/// A varint field; a zero value is left out, as proto3 does.
pub open spec fn int_field(tag: nat, v: u64) -> Seq<u8> {
    if v == 0 {
        seq![]
    } else {
        key(tag, false) + varint(v as nat)
    }
}

/// A length-delimited field holding `body`.
pub open spec fn len_field(tag: nat, body: Seq<u8>) -> Seq<u8> {
    key(tag, true) + varint(body.len()) + body
}

/// The concatenation of `parts`, in order.
pub open spec fn flat(parts: Seq<Seq<u8>>) -> Seq<u8>
    decreases parts.len(),
{
    if parts.len() == 0 {
        seq![]
    } else {
        flat(parts.drop_last()) + parts.last()
    }
}

pub open spec fn varint_parts(vals: Seq<u64>) -> Seq<Seq<u8>> {
    vals.map_values(|v: u64| varint(v as nat))
}

/// A packed repeated varint field; left out where there are no values.
pub open spec fn packed_field(tag: nat, vals: Seq<u64>) -> Seq<u8> {
    if vals.len() == 0 {
        seq![]
    } else {
        len_field(tag, flat(varint_parts(vals)))
    }
}

pub open spec fn as_u64s(vals: Seq<i64>) -> Seq<u64> {
    vals.map_values(|v: i64| v as u64)
}

pub open spec fn value_type_bytes(v: ValueType) -> Seq<u8> {
    int_field(1, v.type_id as u64) + int_field(2, v.unit_id as u64)
}

pub open spec fn sample_bytes(s: Sample) -> Seq<u8> {
    packed_field(1, s.location_id@) + packed_field(2, as_u64s(s.value@))
}

/// A location with its one line record: function id, line 0 (left out).
pub open spec fn location_bytes(l: Location) -> Seq<u8> {
    int_field(1, l.id) + int_field(3, l.address) + len_field(4, int_field(1, l.function_id))
}

pub open spec fn function_bytes(f: Function) -> Seq<u8> {
    int_field(1, f.id) + int_field(2, f.name as u64)
}

pub open spec fn sample_type_parts(v: Seq<ValueType>) -> Seq<Seq<u8>> {
    v.map_values(|x: ValueType| len_field(1, value_type_bytes(x)))
}

pub open spec fn sample_parts(v: Seq<Sample>) -> Seq<Seq<u8>> {
    v.map_values(|x: Sample| len_field(2, sample_bytes(x)))
}

pub open spec fn location_parts(v: Seq<Location>) -> Seq<Seq<u8>> {
    v.map_values(|x: Location| len_field(4, location_bytes(x)))
}

pub open spec fn function_parts(v: Seq<Function>) -> Seq<Seq<u8>> {
    v.map_values(|x: Function| len_field(5, function_bytes(x)))
}

pub open spec fn string_parts(v: Seq<Seq<u8>>) -> Seq<Seq<u8>> {
    v.map_values(|x: Seq<u8>| len_field(6, x))
}

/// The encoding of a profile message: its fields in order of their numbers.
pub open spec fn profile_bytes(p: Profile) -> Seq<u8> {
    flat(sample_type_parts(p.sample_type@)) + flat(sample_parts(p.sample@)) + flat(
        location_parts(p.location@),
    ) + flat(function_parts(p.function@)) + flat(string_parts(lines_view(p.string_table@)))
        + int_field(9, p.time_nanos as u64) + int_field(10, p.duration_nanos as u64) + len_field(
        11,
        value_type_bytes(p.period_type),
    ) + int_field(12, p.period as u64)
}

fn put_bytes(out: &mut Vec<u8>, b: &Vec<u8>)
    ensures
        final(out)@ == old(out)@ + b@,
{
    let mut i: usize = 0;
    while i < b.len()
        invariant
            0 <= i <= b@.len(),
            out@ == old(out)@ + b@.take(i as int),
        decreases b@.len() - i,
    {
        out.push(b[i]);
        assert(b@.take(i as int + 1) =~= b@.take(i as int).push(b@[i as int]));
        assert(out@ =~= old(out)@ + b@.take(i as int + 1));
        i = i + 1;
    }
    assert(b@.take(i as int) =~= b@);
}

fn put_int_field(out: &mut Vec<u8>, tag: u32, v: u64)
    requires
        1 <= tag < 0x2000_0000,
    ensures
        final(out)@ == old(out)@ + int_field(tag as nat, v),
{
    if v != 0 {
        put_key(tag, false, out);
        put_varint(v, out);
        assert(out@ =~= old(out)@ + int_field(tag as nat, v));
    } else {
        assert(out@ =~= old(out)@ + int_field(tag as nat, v));
    }
}

fn put_len_field(out: &mut Vec<u8>, tag: u32, body: &Vec<u8>)
    requires
        1 <= tag < 0x2000_0000,
    ensures
        final(out)@ == old(out)@ + len_field(tag as nat, body@),
{
    put_key(tag, true, out);
    put_varint(body.len() as u64, out);
    put_bytes(out, body);
    assert(out@ =~= old(out)@ + len_field(tag as nat, body@));
}

proof fn lemma_flat_step(parts: Seq<Seq<u8>>, i: int)
    requires
        0 <= i < parts.len(),
    ensures
        flat(parts.take(i + 1)) == flat(parts.take(i)) + parts[i],
{
    assert(parts.take(i + 1).drop_last() =~= parts.take(i));
}

fn put_packed(out: &mut Vec<u8>, tag: u32, vals: &Vec<u64>)
    requires
        1 <= tag < 0x2000_0000,
    ensures
        final(out)@ == old(out)@ + packed_field(tag as nat, vals@),
{
    if vals.len() == 0 {
        assert(out@ =~= old(out)@ + packed_field(tag as nat, vals@));
        return;
    }
    let ghost parts = varint_parts(vals@);
    let mut body: Vec<u8> = Vec::new();
    let mut i: usize = 0;
    assert(parts.take(0) =~= seq![]);
    while i < vals.len()
        invariant
            parts == varint_parts(vals@),
            0 <= i <= vals@.len(),
            body@ == flat(parts.take(i as int)),
        decreases vals@.len() - i,
    {
        proof {
            lemma_flat_step(parts, i as int);
        }
        put_varint(vals[i], &mut body);
        i = i + 1;
    }
    assert(parts.take(i as int) =~= parts);
    put_len_field(out, tag, &body);
}

fn value_type_encoding(v: &ValueType) -> (r: Vec<u8>)
    ensures
        r@ == value_type_bytes(*v),
{
    let mut out: Vec<u8> = Vec::new();
    put_int_field(&mut out, 1, v.type_id as u64);
    put_int_field(&mut out, 2, v.unit_id as u64);
    assert(out@ =~= value_type_bytes(*v));
    out
}

fn sample_encoding(s: &Sample) -> (r: Vec<u8>)
    ensures
        r@ == sample_bytes(*s),
{
    let mut values: Vec<u64> = Vec::new();
    let mut i: usize = 0;
    while i < s.value.len()
        invariant
            0 <= i <= s.value@.len(),
            values@ == as_u64s(s.value@.take(i as int)),
        decreases s.value@.len() - i,
    {
        values.push(s.value[i] as u64);
        assert(values@ =~= as_u64s(s.value@.take(i as int + 1)));
        i = i + 1;
    }
    assert(s.value@.take(i as int) =~= s.value@);
    let mut out: Vec<u8> = Vec::new();
    put_packed(&mut out, 1, &s.location_id);
    put_packed(&mut out, 2, &values);
    assert(out@ =~= sample_bytes(*s));
    out
}

fn location_encoding(l: &Location) -> (r: Vec<u8>)
    ensures
        r@ == location_bytes(*l),
{
    let mut line: Vec<u8> = Vec::new();
    put_int_field(&mut line, 1, l.function_id);
    assert(line@ =~= int_field(1, l.function_id));
    let mut out: Vec<u8> = Vec::new();
    put_int_field(&mut out, 1, l.id);
    put_int_field(&mut out, 3, l.address);
    put_len_field(&mut out, 4, &line);
    assert(out@ =~= location_bytes(*l));
    out
}

fn function_encoding(f: &Function) -> (r: Vec<u8>)
    ensures
        r@ == function_bytes(*f),
{
    let mut out: Vec<u8> = Vec::new();
    put_int_field(&mut out, 1, f.id);
    put_int_field(&mut out, 2, f.name as u64);
    assert(out@ =~= function_bytes(*f));
    out
}

/// The protobuf encoding of a profile message.
pub fn encode_profile(p: &Profile) -> (r: Vec<u8>)
    ensures
        r@ == profile_bytes(*p),
{
    let mut out: Vec<u8> = Vec::new();
    let ghost base = out@;
    let ghost parts = sample_type_parts(p.sample_type@);
    let mut i: usize = 0;
    assert(parts.take(0) =~= seq![]);
    assert(out@ =~= base + flat(parts.take(0)));
    while i < p.sample_type.len()
        invariant
            parts == sample_type_parts(p.sample_type@),
            0 <= i <= p.sample_type@.len(),
            out@ == base + flat(parts.take(i as int)),
        decreases p.sample_type@.len() - i,
    {
        proof {
            lemma_flat_step(parts, i as int);
        }
        let body = value_type_encoding(&p.sample_type[i]);
        put_len_field(&mut out, 1, &body);
        assert(out@ =~= base + flat(parts.take(i as int + 1)));
        i = i + 1;
    }
    assert(parts.take(i as int) =~= parts);
    let ghost base = out@;
    let ghost parts = sample_parts(p.sample@);
    let mut i: usize = 0;
    assert(parts.take(0) =~= seq![]);
    assert(out@ =~= base + flat(parts.take(0)));
    while i < p.sample.len()
        invariant
            parts == sample_parts(p.sample@),
            0 <= i <= p.sample@.len(),
            out@ == base + flat(parts.take(i as int)),
        decreases p.sample@.len() - i,
    {
        proof {
            lemma_flat_step(parts, i as int);
        }
        let body = sample_encoding(&p.sample[i]);
        put_len_field(&mut out, 2, &body);
        assert(out@ =~= base + flat(parts.take(i as int + 1)));
        i = i + 1;
    }
    assert(parts.take(i as int) =~= parts);
    let ghost base = out@;
    let ghost parts = location_parts(p.location@);
    let mut i: usize = 0;
    assert(parts.take(0) =~= seq![]);
    assert(out@ =~= base + flat(parts.take(0)));
    while i < p.location.len()
        invariant
            parts == location_parts(p.location@),
            0 <= i <= p.location@.len(),
            out@ == base + flat(parts.take(i as int)),
        decreases p.location@.len() - i,
    {
        proof {
            lemma_flat_step(parts, i as int);
        }
        let body = location_encoding(&p.location[i]);
        put_len_field(&mut out, 4, &body);
        assert(out@ =~= base + flat(parts.take(i as int + 1)));
        i = i + 1;
    }
    assert(parts.take(i as int) =~= parts);
    let ghost base = out@;
    let ghost parts = function_parts(p.function@);
    let mut i: usize = 0;
    assert(parts.take(0) =~= seq![]);
    assert(out@ =~= base + flat(parts.take(0)));
    while i < p.function.len()
        invariant
            parts == function_parts(p.function@),
            0 <= i <= p.function@.len(),
            out@ == base + flat(parts.take(i as int)),
        decreases p.function@.len() - i,
    {
        proof {
            lemma_flat_step(parts, i as int);
        }
        let body = function_encoding(&p.function[i]);
        put_len_field(&mut out, 5, &body);
        assert(out@ =~= base + flat(parts.take(i as int + 1)));
        i = i + 1;
    }
    assert(parts.take(i as int) =~= parts);
    let ghost base = out@;
    let ghost parts = string_parts(lines_view(p.string_table@));
    let mut i: usize = 0;
    assert(parts.take(0) =~= seq![]);
    assert(out@ =~= base + flat(parts.take(0)));
    while i < p.string_table.len()
        invariant
            parts == string_parts(lines_view(p.string_table@)),
            0 <= i <= p.string_table@.len(),
            out@ == base + flat(parts.take(i as int)),
        decreases p.string_table@.len() - i,
    {
        proof {
            lemma_flat_step(parts, i as int);
        }
        let body = p.string_table[i].clone();
        put_len_field(&mut out, 6, &body);
        assert(out@ =~= base + flat(parts.take(i as int + 1)));
        i = i + 1;
    }
    assert(parts.take(i as int) =~= parts);
    put_int_field(&mut out, 9, p.time_nanos as u64);
    put_int_field(&mut out, 10, p.duration_nanos as u64);
    let pt = value_type_encoding(&p.period_type);
    put_len_field(&mut out, 11, &pt);
    put_int_field(&mut out, 12, p.period as u64);
    assert(out@ =~= profile_bytes(*p));
    out
}

} // verus!

verus! {

/// Two profiles built from the same tables, stacks and metadata encode to the
/// same bytes.
pub proof fn lemma_encoding_deterministic(
    first: Profile,
    second: Profile,
    t: crate::profile::Tables,
    t1: crate::profile::Tables,
    t2: crate::profile::Tables,
    agg: Seq<(crate::trace::StackView, nat)>,
    duration_micros: u64,
    freq: u64,
    time_nanos: i64,
)
    requires
        crate::profile::profile_of(first, t, t1, agg, duration_micros, freq, time_nanos),
        crate::profile::profile_of(second, t, t2, agg, duration_micros, freq, time_nanos),
    ensures
        profile_bytes(first) == profile_bytes(second),
{
    crate::profile::lemma_numbering_deterministic(first, second, t, t1, t2, agg, duration_micros, freq, time_nanos);
    assert(sample_parts(first.sample@) =~= sample_parts(second.sample@)) by {
        assert forall|i: int| 0 <= i < first.sample@.len() implies sample_parts(first.sample@)[i]
            == sample_parts(second.sample@)[i] by {
            let la = first.sample@[i].location_id@;
            let lb = second.sample@[i].location_id@;
            assert(crate::profile::ids_view(first.sample@[i].location_id) == crate::profile::ids_view(
                second.sample@[i].location_id,
            ));
            assert(la =~= lb) by {
                assert forall|k: int| 0 <= k < la.len() implies la[k] == lb[k] by {
                    assert(crate::profile::ids_view(first.sample@[i].location_id)[k] == la[k] as nat);
                    assert(crate::profile::ids_view(second.sample@[i].location_id)[k] == lb[k] as nat);
                }
            }
        }
    }
    assert(sample_type_parts(first.sample_type@) =~= sample_type_parts(second.sample_type@));
}

} // verus!
