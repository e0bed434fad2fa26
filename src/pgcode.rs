//! Encoding of byte content for the PostgreSQL `COPY` text format.
use vstd::prelude::*;

verus! {

/// The two-byte escape of a delimiter byte, or the byte itself.
pub open spec fn escape_byte(b: u8) -> Seq<u8> {
    if b == 9 {
        seq![92u8, 116u8]
    } else if b == 10 {
        seq![92u8, 110u8]
    } else if b == 13 {
        seq![92u8, 114u8]
    } else if b == 92 {
        seq![92u8, 92u8]
    } else {
        seq![b]
    }
}

/// The encoded form of a byte sequence: each byte replaced by its escape.
pub open spec fn pg_encode(s: Seq<u8>) -> Seq<u8>
    decreases s.len(),
{
    if s.len() == 0 {
        Seq::empty()
    } else {
        escape_byte(s[0]) + pg_encode(s.subrange(1, s.len() as int))
    }
}

/// The byte that the format reads for a backslash followed by `c`.
pub open spec fn unescape(c: u8) -> u8 {
    if c == 116 {
        9u8
    } else if c == 110 {
        10u8
    } else if c == 114 {
        13u8
    } else if c == 98 {
        8u8
    } else if c == 102 {
        12u8
    } else if c == 118 {
        11u8
    } else {
        c
    }
}

/// The format's decoding of single-character backslash escapes.
pub open spec fn pg_decode(s: Seq<u8>) -> Seq<u8>
    decreases s.len(),
{
    if s.len() == 0 {
        Seq::empty()
    } else if s[0] == 92 && s.len() >= 2 {
        seq![unescape(s[1])] + pg_decode(s.subrange(2, s.len() as int))
    } else {
        seq![s[0]] + pg_decode(s.subrange(1, s.len() as int))
    }
}

/// Encoding distributes over concatenation.
pub proof fn lemma_encode_concat(a: Seq<u8>, b: Seq<u8>)
    ensures
        pg_encode(a + b) == pg_encode(a) + pg_encode(b),
    decreases a.len(),
{
    if a.len() == 0 {
        assert(a + b =~= b);
        assert(pg_encode(a) + pg_encode(b) =~= pg_encode(b));
    } else {
        lemma_encode_concat(a.subrange(1, a.len() as int), b);
        assert((a + b).subrange(1, (a + b).len() as int) =~= a.subrange(1, a.len() as int) + b);
        assert(pg_encode(a + b) =~= escape_byte(a[0]) + pg_encode(a.subrange(1, a.len() as int))
            + pg_encode(b));
    }
}

proof fn lemma_encode_one(b: u8)
    ensures
        pg_encode(seq![b]) == escape_byte(b),
{
    assert(seq![b].subrange(1, 1) =~= Seq::<u8>::empty());
    assert(pg_encode(Seq::<u8>::empty()) == Seq::<u8>::empty());
    assert(pg_encode(seq![b]) == escape_byte(b) + pg_encode(Seq::<u8>::empty()));
    assert(escape_byte(b) + Seq::<u8>::empty() =~= escape_byte(b));
}

/// Decoding the encoded form of any byte sequence gives back the sequence.
pub proof fn lemma_decode_encode(s: Seq<u8>)
    ensures
        pg_decode(pg_encode(s)) == s,
    decreases s.len(),
{
    if s.len() > 0 {
        let rest = s.subrange(1, s.len() as int);
        lemma_decode_encode(rest);
        let e = escape_byte(s[0]);
        let whole = e + pg_encode(rest);
        if e.len() == 2 {
            assert(whole.subrange(2, whole.len() as int) =~= pg_encode(rest));
        } else {
            assert(whole.subrange(1, whole.len() as int) =~= pg_encode(rest));
        }
        assert(pg_decode(whole) =~= seq![s[0]] + rest);
        assert(seq![s[0]] + rest =~= s);
    }
}

/// Every tab, newline, carriage return and backslash of the encoded form is
/// part of an escape: no structural delimiter byte survives encoding.
pub proof fn lemma_encode_has_no_delimiters(s: Seq<u8>)
    ensures
        forall|i: int|
            0 <= i < pg_encode(s).len() ==> pg_encode(s)[i] != 9u8 && pg_encode(s)[i] != 10u8
                && pg_encode(s)[i] != 13u8,
    decreases s.len(),
{
    if s.len() > 0 {
        let rest = s.subrange(1, s.len() as int);
        lemma_encode_has_no_delimiters(rest);
        let e = escape_byte(s[0]);
        assert forall|i: int| 0 <= i < pg_encode(s).len() implies pg_encode(s)[i] != 9u8
            && pg_encode(s)[i] != 10u8 && pg_encode(s)[i] != 13u8 by {
            if i >= e.len() {
                assert(pg_encode(s)[i] == pg_encode(rest)[i - e.len()]);
            }
        }
    }
}

/// Appends the encoded form of `buf` to `out`.
pub fn write_pgencoded(out: &mut Vec<u8>, buf: &[u8])
    ensures
        final(out)@ == old(out)@ + pg_encode(buf@),
{
    let ghost start = out@;
    let mut i: usize = 0;
    while i < buf.len()
        invariant
            i <= buf@.len(),
            out@ == start + pg_encode(buf@.subrange(0, i as int)),
        decreases buf@.len() - i,
    {
        let b = buf[i];
        if b == 9 {
            out.push(92);
            out.push(116);
        } else if b == 10 {
            out.push(92);
            out.push(110);
        } else if b == 13 {
            out.push(92);
            out.push(114);
        } else if b == 92 {
            out.push(92);
            out.push(92);
        } else {
            out.push(b);
        }
        proof {
            let pre = buf@.subrange(0, i as int);
            lemma_encode_concat(pre, seq![b]);
            lemma_encode_one(b);
            assert(buf@.subrange(0, i + 1) =~= pre + seq![b]);
            assert(out@ =~= start + pg_encode(pre) + escape_byte(b));
        }
        i += 1;
    }
    assert(buf@.subrange(0, buf@.len() as int) =~= buf@);
}

/// Decimal digits of a natural number, most significant first.
pub open spec fn decimal(n: nat) -> Seq<u8>
    decreases n,
{
    if n < 10 {
        seq![(48 + n) as u8]
    } else {
        decimal(n / 10) + seq![(48 + n % 10) as u8]
    }
}

/// Decimal text of an integer, with a leading `-` when negative.
pub open spec fn signed_decimal(i: int) -> Seq<u8> {
    if i < 0 {
        seq![45u8] + decimal((-i) as nat)
    } else {
        decimal(i as nat)
    }
}

fn write_unsigned(out: &mut Vec<u8>, n: u64)
    ensures
        final(out)@ == old(out)@ + decimal(n as nat),
    decreases n,
{
    if n >= 10 {
        write_unsigned(out, n / 10);
    }
    out.push((48 + n % 10) as u8);
}

/// Appends the decimal text of `n` to `out`.
pub fn write_decimal(out: &mut Vec<u8>, n: i64)
    ensures
        final(out)@ == old(out)@ + signed_decimal(n as int),
{
    if n < 0 {
        out.push(45);
        let m: u64 = if n == i64::MIN {
            9223372036854775808u64
        } else {
            (-n) as u64
        };
        write_unsigned(out, m);
        assert(out@ =~= old(out)@ + signed_decimal(n as int));
    } else {
        write_unsigned(out, n as u64);
    }
}

} // verus!
