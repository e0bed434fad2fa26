//! Cleaning of flat tab-separated dump records into `key\tcontent` rows.
use vstd::prelude::*;
use vstd::slice::slice_subrange;
use crate::pgcode::{pg_encode, write_pgencoded};

verus! {

/// Whether `i` is the position of the first tab of `s`.
pub open spec fn is_first_tab(s: Seq<u8>, i: int) -> bool {
    0 <= i < s.len() && s[i] == 9 && forall|j: int| 0 <= j < i ==> s[j] != 9
}

/// The text before the first tab and the text after it, if `s` has a tab.
pub open spec fn split_tab(s: Seq<u8>) -> Option<(Seq<u8>, Seq<u8>)> {
    if exists|i: int| is_first_tab(s, i) {
        let i = choose|i: int| is_first_tab(s, i);
        Some((s.subrange(0, i), s.subrange(i + 1, s.len() as int)))
    } else {
        None
    }
}

/// The key (second field) and content (everything after the fourth tab) of a
/// dump record `type\tkey\tversion\tstamp\tcontent`, if it has all fields.
pub open spec fn record_fields(line: Seq<u8>) -> Option<(Seq<u8>, Seq<u8>)> {
    match split_tab(line) {
        None => None,
        Some(f1) => match split_tab(f1.1) {
            None => None,
            Some(f2) => match split_tab(f2.1) {
                None => None,
                Some(f3) => match split_tab(f3.1) {
                    None => None,
                    Some(f4) => Some((f2.0, f4.1)),
                },
            },
        },
    }
}

/// The output row `{encoded key}\t{encoded content}\n` of a record.
pub open spec fn clean_row(key: Seq<u8>, content: Seq<u8>) -> Seq<u8> {
    pg_encode(key) + seq![9u8] + pg_encode(content) + seq![10u8]
}

/// The output of a run over `lines` whose records all have their fields.
pub open spec fn clean_output(lines: Seq<Seq<u8>>) -> Seq<u8>
    decreases lines.len(),
{
    if lines.len() == 0 {
        Seq::empty()
    } else {
        let f = record_fields(lines.last()).unwrap();
        clean_output(lines.drop_last()) + clean_row(f.0, f.1)
    }
}

/// Splits `s` at its first tab, dropping the tab.
pub fn split_first(s: &[u8]) -> (r: Option<(&[u8], &[u8])>)
    ensures
        match r {
            Some(p) => split_tab(s@) == Some((p.0@, p.1@)),
            None => split_tab(s@) is None,
        },
{
    let mut i: usize = 0;
    while i < s.len()
        invariant
            i <= s@.len(),
            forall|j: int| 0 <= j < i ==> s@[j] != 9,
        decreases s@.len() - i,
    {
        if s[i] == 9 {
            proof {
                assert(is_first_tab(s@, i as int));
                let c = choose|c: int| is_first_tab(s@, c);
                if c < i {
                    assert(s@[c] != 9);
                } else if c > i {
                    assert(s@[i as int] != 9);
                }
            }
            return Some((slice_subrange(s, 0, i), slice_subrange(s, i + 1, s.len())));
        }
        i += 1;
    }
    None
}

/// Why a flat dump record cannot be cleaned.
#[derive(Debug, Clone, Copy, PartialEq, Eq)]
pub enum RecordError {
    /// The record at this line index lacks a field separator.
    MissingField(usize),
}

/// Appends the cleaned row of one record to `out`, or fails when the record
/// lacks a field.
pub fn clean_line(line: &[u8], out: &mut Vec<u8>) -> (r: bool)
    ensures
        r == record_fields(line@) is Some,
        r ==> final(out)@ == old(out)@ + clean_row(
            record_fields(line@).unwrap().0,
            record_fields(line@).unwrap().1,
        ),
        !r ==> final(out)@ == old(out)@,
{
    let (_ty, rest) = match split_first(line) {
        Some(p) => p,
        None => return false,
    };
    let (key, rest) = match split_first(rest) {
        Some(p) => p,
        None => return false,
    };
    let (_ver, rest) = match split_first(rest) {
        Some(p) => p,
        None => return false,
    };
    let (_stamp, content) = match split_first(rest) {
        Some(p) => p,
        None => return false,
    };
    let ghost start = out@;
    write_pgencoded(out, key);
    out.push(9);
    write_pgencoded(out, content);
    out.push(10);
    assert(out@ =~= start + clean_row(key@, content@));
    true
}

/// Cleans every record of a dump. One record without all its fields fails
/// the whole run, naming the first such line.
pub fn process(lines: &Vec<Vec<u8>>) -> (r: Result<Vec<u8>, RecordError>)
    ensures
        match r {
            Ok(out) => {
                &&& forall|i: int| 0 <= i < lines@.len() ==> (#[trigger] record_fields(lines@[i]@)) is Some
                &&& out@ == clean_output(lines@.map_values(|l: Vec<u8>| l@))
            },
            Err(RecordError::MissingField(i)) => {
                &&& i < lines@.len()
                &&& record_fields(lines@[i as int]@) is None
                &&& forall|j: int| 0 <= j < i ==> (#[trigger] record_fields(lines@[j]@)) is Some
            },
        },
{
    let mut out: Vec<u8> = Vec::new();
    let mut i: usize = 0;
    while i < lines.len()
        invariant
            i <= lines@.len(),
            forall|j: int| 0 <= j < i ==> (#[trigger] record_fields(lines@[j]@)) is Some,
            out@ == clean_output(lines@.map_values(|l: Vec<u8>| l@).subrange(0, i as int)),
        decreases lines@.len() - i,
    {
        if !clean_line(lines[i].as_slice(), &mut out) {
            return Err(RecordError::MissingField(i));
        }
        proof {
            let v = lines@.map_values(|l: Vec<u8>| l@);
            assert(v.subrange(0, i + 1).drop_last() =~= v.subrange(0, i as int));
            assert(v.subrange(0, i + 1).last() == lines@[i as int]@);
        }
        i += 1;
    }
    assert(lines@.map_values(|l: Vec<u8>| l@).subrange(0, lines@.len() as int) =~= lines@.map_values(
        |l: Vec<u8>| l@,
    ));
    Ok(out)
}

} // verus!
