use bookdata_ids::clean::{clean_line, process, split_first, RecordError};
use bookdata_ids::pgcode::{write_decimal, write_pgencoded};

fn encode(b: &[u8]) -> Vec<u8> {
    let mut out = Vec::new();
    write_pgencoded(&mut out, b);
    out
}

fn decode(b: &[u8]) -> Vec<u8> {
    let mut out = Vec::new();
    let mut i = 0;
    while i < b.len() {
        if b[i] == b'\\' && i + 1 < b.len() {
            out.push(match b[i + 1] {
                b't' => b'\t',
                b'n' => b'\n',
                b'r' => b'\r',
                c => c,
            });
            i += 2;
        } else {
            out.push(b[i]);
            i += 1;
        }
    }
    out
}

#[test]
fn delimiters_are_escaped() {
    assert_eq!(encode(b"a\tb\nc\rd\\e"), b"a\\tb\\nc\\rd\\\\e".to_vec());
}

#[test]
fn other_bytes_pass_through() {
    assert_eq!(encode(&[0xff, 0x00, b'x', 0x80]), vec![0xff, 0x00, b'x', 0x80]);
    assert!(encode(b"").is_empty());
}

#[test]
fn encoding_round_trips() {
    let input: Vec<u8> = vec![b'\t', b'\\', b'n', b'\n', b'\r', 0xfe, b'\\', b'\\', b't', 0x00];
    let enc = encode(&input);
    assert!(!enc.contains(&b'\t') && !enc.contains(&b'\n') && !enc.contains(&b'\r'));
    assert_eq!(decode(&enc), input);
}

#[test]
fn decimals() {
    let mut out = Vec::new();
    write_decimal(&mut out, 0);
    out.push(b' ');
    write_decimal(&mut out, 120);
    out.push(b' ');
    write_decimal(&mut out, -45);
    out.push(b' ');
    write_decimal(&mut out, i64::MIN);
    out.push(b' ');
    write_decimal(&mut out, i64::MAX);
    assert_eq!(out, b"0 120 -45 -9223372036854775808 9223372036854775807".to_vec());
}

#[test]
fn split_at_first_tab() {
    let (a, b) = split_first(b"ab\tcd\tef").unwrap();
    assert_eq!(a, b"ab");
    assert_eq!(b, b"cd\tef");
    let (a, b) = split_first(b"\t").unwrap();
    assert!(a.is_empty() && b.is_empty());
    assert!(split_first(b"no tab").is_none());
}

#[test]
fn record_is_cleaned() {
    let mut out = Vec::new();
    assert!(clean_line(b"/type/edition\t/books/OL1M\t3\t2010-01-01\t{\"a\":\"x\\ty\"}", &mut out));
    assert_eq!(out, b"/books/OL1M\t{\"a\":\"x\\\\ty\"}\n".to_vec());
}

#[test]
fn content_keeps_later_tabs() {
    let mut out = Vec::new();
    assert!(clean_line(b"t\tk\\1\tv\ts\tc1\tc2", &mut out));
    assert_eq!(out, b"k\\\\1\tc1\\tc2\n".to_vec());
}

#[test]
fn short_record_is_refused() {
    let mut out = b"kept".to_vec();
    assert!(!clean_line(b"t\tk\tv", &mut out));
    assert_eq!(out, b"kept".to_vec());
}

#[test]
fn run_over_records() {
    let lines = vec![b"t\tk1\tv\ts\tj1".to_vec(), b"t\tk2\tv\ts\tj2".to_vec()];
    assert_eq!(process(&lines), Ok(b"k1\tj1\nk2\tj2\n".to_vec()));
    assert_eq!(process(&vec![]), Ok(vec![]));
}

#[test]
fn missing_field_fails_whole_run() {
    let lines = vec![
        b"t\tk1\tv\ts\tj1".to_vec(),
        b"t\tk2\tv".to_vec(),
        b"t\tk3\tv\ts\tj3".to_vec(),
    ];
    assert_eq!(process(&lines), Err(RecordError::MissingField(1)));
}
