use perf_pprof::binary::{find_binary, select_binary, BinaryError};
use perf_pprof::bytes::{parse_radix, trim_slice};
use perf_pprof::encode::encode_profile;
use perf_pprof::gzip::compress_profile;
use perf_pprof::header::{read_headers, CivilTime};
use perf_pprof::profile::{PprofConverter, PprofConverterBuilder, Profile};
use perf_pprof::trace::{event_timestamp, parse_frame_line, read_trace, scan_lines, ConvertError};
use std::io::Read;

fn lines(text: &str) -> Vec<Vec<u8>> {
    text.split('\n').map(|l| l.as_bytes().to_vec()).collect()
}

fn convert(text: &str) -> Result<Profile, ConvertError> {
    PprofConverterBuilder::default().build().profile_from_lines(&lines(text))
}

fn string_of(p: &Profile, id: i64) -> String {
    String::from_utf8(p.string_table[id as usize].clone()).unwrap()
}

const HEADER: &str = "# ========\n# captured on: Thu Mar 10 10:45:19 2022\n# event : name = cycles, { sample_period, sample_freq } = 100, sample_type = IP\n# sample_freq } = 100\n# ========\n";

#[test]
fn single_stack_counted_twice() {
    let text = format!(
        "{}app 1234 100.000000: cycles:\n\tabcd main (/bin/app)\n\napp 1234 101.000000: cycles:\n\tabcd main (/bin/app)\n\n",
        HEADER
    );
    let p = convert(&text).unwrap();
    assert_eq!(p.sample.len(), 1);
    assert_eq!(p.sample[0].value, vec![2, 2 * 1_000_000_000 / 100]);
    assert_eq!(p.sample[0].location_id, vec![1]);
    assert_eq!(p.function.len(), 1);
    assert_eq!(string_of(&p, p.function[0].name), "main");
    assert_eq!(p.location.len(), 1);
    assert_eq!(p.location[0].address, 0xabcd);
    assert_eq!(p.location[0].function_id, 1);
    assert_eq!(p.period, 10_000_000);
    assert_eq!(p.duration_nanos, 1_000_000_000);
    assert_eq!(p.sample_type.len(), 2);
    assert_eq!(string_of(&p, p.sample_type[0].type_id), "samples");
    assert_eq!(string_of(&p, p.sample_type[0].unit_id), "count");
    assert_eq!(string_of(&p, p.sample_type[1].type_id), "cpu");
    assert_eq!(string_of(&p, p.sample_type[1].unit_id), "nanoseconds");
    assert_eq!(p.period_type.type_id, 3);
    assert_eq!(p.period_type.unit_id, 4);
    assert_eq!(p.string_table.len(), 6);
    assert_eq!(p.string_table[0], Vec::<u8>::new());
}

#[test]
fn bad_address_frame_is_dropped() {
    let text = format!(
        "{}app 1 10.000000: cycles:\n\tzzzz broken (/bin/app)\n\tabcd main (/bin/app)\n\napp 1 11.000000: cycles:\n\tqqqq only (/bin/app)\n\n",
        HEADER
    );
    let p = convert(&text).unwrap();
    assert_eq!(p.sample.len(), 1);
    assert_eq!(p.sample[0].location_id, vec![1]);
    assert_eq!(p.sample[0].value[0], 1);
    assert_eq!(p.location.len(), 1);
    assert_eq!(p.location[0].address, 0xabcd);
}

#[test]
fn missing_capture_time_fails() {
    let text = "# sample_freq } = 100\napp 1 10.000000: c:\n\tabcd main (/bin/app)\n\napp 1 11.000000: c:\n\tabcd main (/bin/app)\n\n";
    assert_eq!(convert(text).err(), Some(ConvertError::NoCaptureTime));
}

#[test]
fn frame_order_distinguishes_stacks() {
    let text = format!(
        "{}app 1 10.000000: c:\n\ta a (/m)\n\tb b (/m)\n\napp 1 11.000000: c:\n\tb b (/m)\n\ta a (/m)\n\n",
        HEADER
    );
    let p = convert(&text).unwrap();
    assert_eq!(p.sample.len(), 2);
    assert_eq!(p.sample[0].location_id, vec![1, 2]);
    assert_eq!(p.sample[1].location_id, vec![2, 1]);
    assert_eq!(p.sample[0].value[0], 1);
    assert_eq!(p.sample[1].value[0], 1);
}

#[test]
fn identical_stacks_aggregate() {
    let block = "app 1 10.000000: c:\n\t1 f (/m)\n\t2 g (/m)\n\n";
    let other = "app 1 12.500000: c:\n\t3 h (/m)\n\n";
    let text = format!("{}{}{}{}{}", HEADER, block, other, block, block);
    let t = read_trace(&lines(&text)).unwrap();
    assert_eq!(t.samples.len(), 2);
    assert_eq!(t.samples[0].1, 3);
    assert_eq!(t.samples[1].1, 1);
    assert_eq!(t.samples[0].0.len(), 2);
    assert_eq!(t.samples[0].0[0].address, 1);
    assert_eq!(t.samples[0].0[1].function_name, b"g".to_vec());
    let total: u64 = t.samples.iter().map(|s| s.1).sum();
    assert_eq!(total, 4);
    assert_eq!(t.duration_micros, 0);
    assert_eq!(t.freq, 100);
}

#[test]
fn one_event_gives_no_duration() {
    let text = format!("{}app 1 10.000000: c:\n\tabcd main (/m)\n\n", HEADER);
    assert_eq!(convert(&text).err(), Some(ConvertError::NoDuration));
}

#[test]
fn missing_frequency_is_zero_frequency() {
    let text = "# captured on: Thu Mar 10 10:45:19 2022\napp 1 10.000000: c:\n\tabcd main (/m)\n\napp 1 11.000000: c:\n\tabcd main (/m)\n\n";
    assert_eq!(convert(text).err(), Some(ConvertError::ZeroFrequency));
}

#[test]
fn oversized_frequency_is_rejected() {
    let text = "# captured on: Thu Mar 10 10:45:19 2022\n# sample_freq } = 99999999999999999999999\napp 1 10.000000: c:\n\tabcd main (/m)\n\napp 1 11.000000: c:\n\tabcd main (/m)\n\n";
    assert_eq!(convert(text).err(), Some(ConvertError::BadFrequency));
}

#[test]
fn later_timestamp_sets_duration_and_period() {
    let text = "# captured on: Thu Mar 10 10:45:19 2022\n# sample_freq } = 997\napp 1 10.250000: c:\n\tabcd main (/m)\n\napp 1 10.500000: c:\n\tabcd main (/m)\n\napp 1 12.750001: c:\n\tabcd main (/m)\n\n";
    let p = convert(text).unwrap();
    assert_eq!(p.period, 1_000_000_000 / 997);
    assert_eq!(p.duration_nanos, 2_500_001_000);
    assert_eq!(p.sample[0].value, vec![3, 3 * 1_000_000_000 / 997]);
}

#[test]
fn event_timestamp_reads_seconds_and_fraction() {
    assert_eq!(event_timestamp(b"perf 12345 678.901234: 1 cycles:"), Some(678_901_234));
    assert_eq!(event_timestamp(b"a b 1 2.5"), Some(2_000_005));
    assert_eq!(event_timestamp(b"perf [003] 678.901234:"), None);
    assert_eq!(event_timestamp(b"12 34"), None);
}

#[test]
fn frame_line_splits_name_and_module() {
    let f = parse_frame_line(b"7f00aa foo bar::baz (/usr/lib/x.so)").unwrap();
    assert_eq!(f.address, 0x7f00aa);
    assert_eq!(f.function_name, b"foo bar::baz".to_vec());
    assert_eq!(f.module_name, b"(/usr/lib/x.so)".to_vec());
    assert!(parse_frame_line(b"xyz main (/m)").is_none());
    assert!(parse_frame_line(b"abcd main").is_none());
    assert!(parse_frame_line(b"abcd").is_none());
    assert!(parse_frame_line(b"10000000000000000 f (/m)").is_none());
}

#[test]
fn numbers_and_trimming() {
    assert_eq!(parse_radix(b"ffffffffffffffff", 16), Some(u64::MAX));
    assert_eq!(parse_radix(b"18446744073709551616", 10), None);
    assert_eq!(parse_radix(b"", 10), None);
    assert_eq!(parse_radix(b"12a", 10), None);
    assert_eq!(parse_radix(b"1A", 16), Some(26));
    assert_eq!(trim_slice(b" \t ab c \r\n"), b"ab c");
}

#[test]
fn headers_give_date_and_frequency() {
    let hs = vec![
        b"# captured on    : Thu Mar 10 10:45:19 2022".to_vec(),
        b"# event : name = cycles, { sample_period, sample_freq } = 4000, x".to_vec(),
    ];
    let info = read_headers(&hs);
    assert_eq!(info.freq, 4000);
    assert!(!info.bad_freq);
    assert_eq!(
        info.captured,
        Some(CivilTime { year: 2022, month: 3, day: 10, hour: 10, minute: 45, second: 19, nanosecond: 0 })
    );
}

#[test]
fn address_keeps_its_first_function() {
    let mut c = PprofConverter::new();
    assert_eq!(c.location_id(0x10, &b"first".to_vec()), 1);
    assert_eq!(c.location_id(0x20, &b"second".to_vec()), 2);
    assert_eq!(c.location_id(0x10, &b"other".to_vec()), 1);
    assert_eq!(c.location_id(0x30, &b"first".to_vec()), 3);
    assert_eq!(c.location_id(0x40, &b"samples".to_vec()), 4);
    let text = format!("{}a 1 1.0: c:\n\t50 second (/m)\n\na 1 2.0: c:\n\t50 second (/m)\n\n", HEADER);
    assert_eq!(c.location_id(0x50, &b"samples".to_vec()), 5);
}

#[test]
fn function_named_like_a_fixed_string_reuses_its_id() {
    let text = format!("{}a 1 1.0: c:\n\t50 samples (/m)\n\n\ta 1 2.0: c:\n\n", HEADER);
    let p = convert(&text).unwrap();
    assert_eq!(p.function.len(), 1);
    assert_eq!(p.function[0].name, 1);
    assert_eq!(p.string_table.len(), 5);
}

#[test]
fn reused_converter_starts_from_fresh_tables() {
    let mut c = PprofConverterBuilder::default().build();
    let first = format!("{}a 1 1.0: c:\n\t10 f (/m)\n\na 1 2.0: c:\n\t20 g (/m)\n\n", HEADER);
    let second = format!("{}a 1 1.0: c:\n\t30 h (/m)\n\na 1 2.0: c:\n\t30 h (/m)\n\n", HEADER);
    c.profile_from_lines(&lines(&first)).unwrap();
    let p = c.profile_from_lines(&lines(&second)).unwrap();
    let fresh = convert(&second).unwrap();
    assert_eq!(p.location, fresh.location);
    assert_eq!(p.location.len(), 1);
    assert_eq!(p.location[0].address, 0x30);
    assert_eq!(p.function, fresh.function);
    assert_eq!(p.string_table, fresh.string_table);
    assert_eq!(p.string_table.len(), 6);
    assert_eq!(p.sample[0].location_id, vec![1]);
}

#[test]
fn conversion_is_deterministic() {
    let text = format!(
        "{}app 1 10.000000: c:\n\t1 f (/m)\n\t2 g (/m)\n\napp 1 11.000000: c:\n\t2 g (/m)\n\t3 h (/m)\n\n",
        HEADER
    );
    let a = convert(&text).unwrap();
    let b = convert(&text).unwrap();
    assert_eq!(a.sample.len(), b.sample.len());
    for (x, y) in a.sample.iter().zip(b.sample.iter()) {
        assert_eq!(x.location_id, y.location_id);
        assert_eq!(x.value, y.value);
    }
    assert_eq!(a.location, b.location);
    assert_eq!(a.function, b.function);
    assert_eq!(a.string_table, b.string_table);
    assert_eq!(a.sample[1].location_id, vec![2, 3]);
}

#[test]
fn headers_inside_blocks_do_not_break_stacks() {
    let text = format!(
        "{}app 1 10.000000: c:\n# note\n\tabcd main (/m)\n\napp 1 11.000000: c:\n\tabcd main (/m)\n\n\n\n",
        HEADER
    );
    let p = convert(&text).unwrap();
    assert_eq!(p.sample.len(), 1);
    assert_eq!(p.sample[0].value[0], 2);
    let s = scan_lines(&lines(&text));
    assert_eq!(s.headers.len(), 6);
    assert_eq!(s.start, Some(10_000_000));
    assert_eq!(s.end, Some(11_000_000));
}

#[test]
fn compressed_profile_decodes_to_input() {
    let data = b"profile bytes profile bytes profile bytes".to_vec();
    let gz = compress_profile(&data);
    let n = gz.len();
    assert_eq!(&gz[n - 4..], &(data.len() as u32).to_le_bytes());
    assert_eq!(&gz[0..3], &[0x1f, 0x8b, 8]);
    assert_ne!(gz, data);
    let mut out = Vec::new();
    libflate::gzip::Decoder::new(&gz[..]).unwrap().read_to_end(&mut out).unwrap();
    assert_eq!(out, data);
}

#[test]
fn binary_choice() {
    let paths = vec![b"/t/release/alpha".to_vec(), b"/t/release/beta".to_vec(), b"/t/x/beta".to_vec()];
    assert_eq!(find_binary(&paths, &Some(b"beta".to_vec())), Ok(1));
    assert_eq!(find_binary(&paths, &Some(b"gamma".to_vec())), Err(BinaryError::NoMatch));
    assert_eq!(find_binary(&paths, &None), Err(BinaryError::Ambiguous));
    assert_eq!(find_binary(&paths[..1].to_vec(), &None), Ok(0));
    assert_eq!(find_binary(&Vec::new(), &None), Err(BinaryError::NoBinary));
    assert_eq!(find_binary(&Vec::new(), &Some(b"a".to_vec())), Err(BinaryError::NoBinary));
    let foo = vec![b"/t/foo".to_vec(), b"/t/bin/foo".to_vec()];
    assert_eq!(find_binary(&foo, &Some(b"oo".to_vec())), Err(BinaryError::NoMatch));
    assert_eq!(find_binary(&foo, &Some(b"bin/foo".to_vec())), Ok(1));
    assert_eq!(find_binary(&foo, &Some(b"foo".to_vec())), Ok(0));
    assert_eq!(select_binary(3, &Some(vec![false, true, true])), Ok(1));
    assert_eq!(select_binary(2, &Some(vec![false, false])), Err(BinaryError::NoMatch));
    assert_eq!(select_binary(2, &None), Err(BinaryError::Ambiguous));
    assert_eq!(select_binary(1, &None), Ok(0));
    assert_eq!(select_binary(0, &None), Err(BinaryError::NoBinary));
}

fn gunzip(gz: &[u8]) -> Vec<u8> {
    let mut out = Vec::new();
    libflate::gzip::Decoder::new(gz).unwrap().read_to_end(&mut out).unwrap();
    out
}

/// Top-level fields of an encoded message: (field number, wire type, payload).
fn fields(mut buf: &[u8]) -> Vec<(u32, u8, Vec<u8>)> {
    let mut out = Vec::new();
    while !buf.is_empty() {
        let (tag, wire) = prost::encoding::decode_key(&mut buf).unwrap();
        match wire {
            prost::encoding::WireType::Varint => {
                let v = prost::encoding::decode_varint(&mut buf).unwrap();
                out.push((tag, 0, v.to_le_bytes().to_vec()));
            }
            prost::encoding::WireType::LengthDelimited => {
                let n = prost::encoding::decode_varint(&mut buf).unwrap() as usize;
                out.push((tag, 2, buf[..n].to_vec()));
                buf = &buf[n..];
            }
            _ => panic!("unexpected wire type"),
        }
    }
    out
}

fn varint_of(payload: &[u8]) -> u64 {
    u64::from_le_bytes(payload.try_into().unwrap())
}

#[test]
fn encoded_profile_round_trips() {
    let text = format!(
        "{}app 1 10.000000: c:\n\t1 f (/m)\n\t2 g (/m)\n\napp 1 11.000000: c:\n\t1 f (/m)\n\t2 g (/m)\n\napp 1 12.000000: c:\n\t2 g (/m)\n\n",
        HEADER
    );
    let gz = PprofConverterBuilder::default().build().from_reader(&lines(&text)).unwrap();
    let p = convert(&text).unwrap();
    let raw = gunzip(&gz);
    assert_eq!(raw, encode_profile(&p));
    let fs = fields(&raw);
    let count = |n: u32| fs.iter().filter(|f| f.0 == n).count();
    assert_eq!(count(1), 2);
    assert_eq!(count(2), 2);
    assert_eq!(count(4), 2);
    assert_eq!(count(5), 2);
    assert_eq!(count(6), 7);
    let samples: Vec<&Vec<u8>> = fs.iter().filter(|f| f.0 == 2).map(|f| &f.2).collect();
    let first = fields(samples[0]);
    assert_eq!(first[0].0, 1);
    assert_eq!(first[0].2, vec![1, 2]);
    assert_eq!(first[1].0, 2);
    let mut vals: &[u8] = &first[1].2;
    assert_eq!(prost::encoding::decode_varint(&mut vals).unwrap(), 2);
    assert_eq!(prost::encoding::decode_varint(&mut vals).unwrap(), 20_000_000);
    let strings: Vec<&Vec<u8>> = fs.iter().filter(|f| f.0 == 6).map(|f| &f.2).collect();
    assert_eq!(strings[1], &b"samples".to_vec());
    assert_eq!(strings[5], &b"f".to_vec());
    let period = fs.iter().find(|f| f.0 == 12).unwrap();
    assert_eq!(varint_of(&period.2), 10_000_000);
    let duration = fs.iter().find(|f| f.0 == 10).unwrap();
    assert_eq!(varint_of(&duration.2), 2_000_000_000);
    let loc = fields(fs.iter().find(|f| f.0 == 4).unwrap().2.as_slice());
    assert_eq!(loc[0].0, 1);
    assert_eq!(varint_of(&loc[0].2), 1);
    assert_eq!(loc[1].0, 3);
    assert_eq!(varint_of(&loc[1].2), 1);
    assert_eq!(loc[2].0, 4);
    assert_eq!(loc[2].2, vec![8, 1]);
}

#[test]
fn conversion_errors_write_nothing() {
    let text = "# sample_freq } = 100\napp 1 10.000000: c:\n\tabcd main (/bin/app)\n\napp 1 11.000000: c:\n\tabcd main (/bin/app)\n\n";
    let r = PprofConverterBuilder::default().build().from_reader(&lines(text));
    assert_eq!(r, Err(ConvertError::NoCaptureTime));
}

#[test]
fn many_blocks_aggregate_by_stack() {
    let mut text = String::from(HEADER);
    for i in 0..20000u64 {
        let k = i % 1500;
        text.push_str(&format!("app 1 {}.000000: c:\n\t{:x} f{} (/m)\n\t{:x} g (/m)\n\n", 10 + i, k + 16, k, 7));
    }
    let t = read_trace(&lines(&text)).unwrap();
    assert_eq!(t.samples.len(), 1500);
    assert_eq!(t.samples[0].1, 14);
    assert_eq!(t.samples[1499].1, 13);
    assert_eq!(t.duration_micros, 19999 * 1_000_000);
    let total: u64 = t.samples.iter().map(|s| s.1).sum();
    assert_eq!(total, 20000);
}
