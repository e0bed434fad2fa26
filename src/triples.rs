//! Turning parsed N-Triples lines into rows of identifiers.
use vstd::prelude::*;
use vstd::utf8::encode_utf8;
use ntriple::parser::triple_line;
use ntriple::{Object as NtObject, Predicate as NtPredicate, Subject as NtSubject};
use crate::literals::{literal_line, LitWriter};
use crate::nodes::{blank_iri, predicate_iri, resolves, subject_iri, NodeIndex};
use crate::pgcode::{signed_decimal, write_decimal};
use crate::statement::{LineParse, Object, Predicate, Subject, Triple};

verus! {

/// What the N-Triples grammar makes of one line of text.
pub uninterp spec fn ntriple_parse(line: Seq<char>) -> LineParse;

/// The value of an ASCII hexadecimal digit, or `-1`.
pub open spec fn hex_digit(c: u8) -> int {
    if 48 <= c <= 57 {
        c - 48
    } else if 97 <= c <= 102 {
        c - 87
    } else if 65 <= c <= 70 {
        c - 55
    } else {
        -1
    }
}

/// Whether the `n` bytes from `start` are all hexadecimal digits.
pub open spec fn all_hex(s: Seq<u8>, start: int, n: nat) -> bool {
    forall|j: int| start <= j < start + n ==> hex_digit(#[trigger] s[j]) >= 0
}

/// The number that the `n` hexadecimal digits from `start` spell.
pub open spec fn hex_num(s: Seq<u8>, start: int, n: nat) -> int
    decreases n,
{
    if n == 0 {
        0
    } else {
        hex_num(s, start, (n - 1) as nat) * 16 + hex_digit(s[start + n - 1])
    }
}

/// `16` to the power `k`.
pub open spec fn pow16(k: nat) -> int
    decreases k,
{
    if k == 0 {
        1
    } else {
        16 * pow16((k - 1) as nat)
    }
}

/// Whether a `\u` escape with four hex digits, or a `\U` escape with six,
/// starts at `i` and names no Unicode scalar value (a surrogate, or a value
/// above `10FFFF`).
pub open spec fn bad_escape_at(s: Seq<u8>, i: int) -> bool {
    &&& 0 <= i
    &&& i + 1 < s.len()
    &&& s[i] == 92
    &&& {
        ||| (s[i + 1] == 117 && i + 6 <= s.len() && all_hex(s, i + 2, 4) && 0xD800 <= hex_num(
            s,
            i + 2,
            4,
        ) <= 0xDFFF)
        ||| (s[i + 1] == 85 && i + 8 <= s.len() && all_hex(s, i + 2, 6) && ((0xD800 <= hex_num(
            s,
            i + 2,
            6,
        ) <= 0xDFFF) || hex_num(s, i + 2, 6) > 0x10FFFF))
    }
}

/// Whether every `\u` / `\U` escape of the line names a character.
pub open spec fn escapes_decodable(s: Seq<u8>) -> bool {
    forall|i: int| 0 <= i < s.len() ==> !#[trigger] bad_escape_at(s, i)
}

proof fn lemma_pow16_bound(k: nat)
    requires
        k <= 6,
    ensures
        1 <= pow16(k) <= 16777216,
{
    reveal_with_fuel(pow16, 7);
}

fn hex_at(b: &[u8], start: usize, n: usize) -> (r: Option<u64>)
    requires
        start + n <= b@.len(),
        n <= 6,
    ensures
        r is Some <==> all_hex(b@, start as int, n as nat),
        r matches Some(v) ==> v == hex_num(b@, start as int, n as nat),
{
    let len = b.len();
    let mut acc: u64 = 0;
    let mut k: usize = 0;
    while k < n
        invariant
            len == b@.len(),
            start + n <= b@.len(),
            n <= 6,
            k <= n,
            all_hex(b@, start as int, k as nat),
            acc == hex_num(b@, start as int, k as nat),
            acc < pow16(k as nat),
        decreases n - k,
    {
        let c = b[start + k];
        let d: u64 = if 48 <= c && c <= 57 {
            (c - 48) as u64
        } else if 97 <= c && c <= 102 {
            (c - 87) as u64
        } else if 65 <= c && c <= 70 {
            (c - 55) as u64
        } else {
            assert(!all_hex(b@, start as int, n as nat)) by {
                assert(hex_digit(b@[start + k]) < 0);
            }
            return None;
        };
        proof {
            lemma_pow16_bound((k + 1) as nat);
            assert(pow16((k + 1) as nat) == 16 * pow16(k as nat));
        }
        acc = acc * 16 + d;
        k += 1;
    }
    Some(acc)
}

fn bad_escape(b: &[u8], i: usize) -> (r: bool)
    requires
        i < b@.len(),
    ensures
        r == bad_escape_at(b@, i as int),
{
    if b.len() - i < 2 || b[i] != 92 {
        return false;
    }
    if b[i + 1] == 117 && b.len() - i >= 6 {
        match hex_at(b, i + 2, 4) {
            Some(v) => 0xD800 <= v && v <= 0xDFFF,
            None => false,
        }
    } else if b[i + 1] == 85 && b.len() - i >= 8 {
        match hex_at(b, i + 2, 6) {
            Some(v) => (0xD800 <= v && v <= 0xDFFF) || v > 0x10FFFF,
            None => false,
        }
    } else {
        false
    }
}

/// Whether every `\u` / `\U` escape of the line names a character.
pub fn escapes_ok(b: &[u8]) -> (r: bool)
    ensures
        r == escapes_decodable(b@),
{
    let mut i: usize = 0;
    while i < b.len()
        invariant
            i <= b@.len(),
            forall|j: int| 0 <= j < i ==> !#[trigger] bad_escape_at(b@, j),
        decreases b@.len() - i,
    {
        if bad_escape(b, i) {
            return false;
        }
        i += 1;
    }
    true
}

/// Relies on `ntriple::parser::triple_line`, which parses one line of
/// N-Triples: a statement, nothing (blank or comment line), or an error.
/// The outcome depends on the line's text alone. It panics on a `\u` or
/// `\U` escape that names no character, so such lines are left out.
#[verifier::external_body]
fn parse_line(line: &str) -> (r: LineParse)
    requires
        escapes_decodable(encode_utf8(line@)),
    ensures
        r == ntriple_parse(line@),
{
    match triple_line(line) {
        Err(_) => LineParse::Malformed,
        Ok(None) => LineParse::Empty,
        Ok(Some(t)) => LineParse::Statement(Triple {
            subject: match t.subject { NtSubject::IriRef(s) => Subject::IriRef(s), NtSubject::BNode(s) => Subject::BNode(s) },
            predicate: match t.predicate { NtPredicate::IriRef(s) => Predicate::IriRef(s) },
            object: match t.object {
                NtObject::IriRef(s) => Object::IriRef(s),
                NtObject::BNode(s) => Object::BNode(s),
                NtObject::Lit(l) => Object::Lit(l.data),
            },
        }),
    }
}

/// The line `{subject}\t{predicate}\t{object}\n` of the triples stream.
pub open spec fn triple_row(s: int, p: int, o: int) -> Seq<u8> {
    signed_decimal(s) + seq![9u8] + signed_decimal(p) + seq![9u8] + signed_decimal(o) + seq![10u8]
}

/// `(n1, l1)` is `(n0, l0)` after resolving object `obj` to `r`.
pub open spec fn object_resolves(
    n0: NodeIndex,
    l0: LitWriter,
    n1: NodeIndex,
    l1: LitWriter,
    obj: Object,
    r: int,
) -> bool {
    match obj {
        Object::IriRef(i) => resolves(n0, n1, encode_utf8(i@), r) && l1 == l0,
        Object::BNode(k) => resolves(n0, n1, blank_iri(n0.document(), encode_utf8(k@)), r)
            && l1 == l0,
        Object::Lit(t) => {
            &&& n1 == n0
            &&& l1.wf()
            &&& l1.counter() == l0.counter() + 1
            &&& r == -(l0.counter() + 1)
            &&& l1.output() == l0.output() + literal_line(r, encode_utf8(t@))
        },
    }
}

/// The identifier of a statement's object: a node for an IRI or blank node,
/// a fresh literal otherwise.
pub fn obj_id(nodes: &mut NodeIndex, lits: &mut LitWriter, obj: &Object) -> (r: i64)
    requires
        old(nodes).wf(),
        old(lits).wf(),
        old(nodes).max_id() < i64::MAX,
        old(lits).counter() < i64::MAX,
    ensures
        object_resolves(*old(nodes), *old(lits), *final(nodes), *final(lits), *obj, r as int),
{
    match obj {
        Object::IriRef(iri) => nodes.node_id(iri.as_str()),
        Object::BNode(key) => nodes.blank_id(key.as_str()),
        Object::Lit(text) => lits.lit_id(text.as_str()),
    }
}

/// What became of one input line.
#[derive(Debug, Clone, Copy, PartialEq, Eq)]
pub enum LineOutcome {
    /// A statement was resolved and its row written.
    Written,
    /// The line held no statement.
    Empty,
    /// The line was not valid N-Triples and was skipped.
    Malformed,
}

/// The allocators of one import run and the buffered triples stream.
pub struct TripleImporter {
    pub nodes: NodeIndex,
    pub lits: LitWriter,
    pub triples: Vec<u8>,
}

/// Resolving statement `t` took `pre` through nodes states `n1`, `n2` to
/// `post`, with identifiers `s`, `p`, `o`.
pub open spec fn statement_steps(
    pre: TripleImporter,
    post: TripleImporter,
    t: Triple,
    n1: NodeIndex,
    n2: NodeIndex,
    s: int,
    p: int,
    o: int,
) -> bool {
    &&& resolves(pre.nodes, n1, subject_iri(t.subject, pre.nodes.document()), s)
    &&& resolves(n1, n2, predicate_iri(t.predicate), p)
    &&& object_resolves(n2, pre.lits, post.nodes, post.lits, t.object, o)
    &&& post.triples@ == pre.triples@ + triple_row(s, p, o)
}

/// `post` is `pre` after handling a line that parsed as `parsed`, with outcome `r`.
pub open spec fn processes(
    pre: TripleImporter,
    post: TripleImporter,
    parsed: LineParse,
    r: LineOutcome,
) -> bool {
    match parsed {
        LineParse::Statement(t) => {
            &&& r == LineOutcome::Written
            &&& exists|n1: NodeIndex, n2: NodeIndex, s: int, p: int, o: int|
                #[trigger] statement_steps(pre, post, t, n1, n2, s, p, o)
        },
        LineParse::Empty => r == LineOutcome::Empty && post == pre,
        LineParse::Malformed => r == LineOutcome::Malformed && post == pre,
    }
}

impl TripleImporter {
    /// Both allocators are well formed.
    pub open spec fn wf(&self) -> bool {
        self.nodes.wf() && self.lits.wf()
    }

    /// Whether one more statement can be resolved without leaving the
    /// `i64` identifier range.
    pub open spec fn has_room_spec(&self) -> bool {
        self.nodes.max_id() <= i64::MAX - 3 && self.lits.counter() < i64::MAX
    }

    /// An importer for document `name` with empty allocators.
    pub fn new(name: &str) -> (r: TripleImporter)
        ensures
            r.wf(),
            r.nodes.table() == Map::<Seq<u8>, int>::empty(),
            r.nodes.max_id() == 0,
            r.nodes.output() == Seq::<u8>::empty(),
            r.nodes.document() == encode_utf8(name@),
            r.lits.counter() == 0,
            r.lits.output() == Seq::<u8>::empty(),
            r.triples@ == Seq::<u8>::empty(),
    {
        TripleImporter { nodes: NodeIndex::create(name), lits: LitWriter::create(), triples: Vec::new() }
    }

    /// Whether one more statement can be resolved.
    pub fn has_room(&self) -> (r: bool)
        ensures
            r == self.has_room_spec(),
    {
        self.nodes.max() <= i64::MAX - 3 && self.lits.counter_value() < i64::MAX
    }

    /// Resolves a parsed line: a statement gets its three identifiers and a
    /// row; an empty or malformed line changes nothing and allocates nothing.
    pub fn process_parsed(&mut self, parsed: LineParse) -> (r: LineOutcome)
        requires
            old(self).wf(),
            old(self).has_room_spec(),
        ensures
            final(self).wf(),
            processes(*old(self), *final(self), parsed, r),
    {
        match parsed {
            LineParse::Statement(t) => {
                let ghost pre = *self;
                let s = self.nodes.subj_id(&t.subject);
                let ghost n1 = self.nodes;
                let p = self.nodes.pred_id(&t.predicate);
                let ghost n2 = self.nodes;
                let o = obj_id(&mut self.nodes, &mut self.lits, &t.object);
                write_decimal(&mut self.triples, s);
                self.triples.push(9);
                write_decimal(&mut self.triples, p);
                self.triples.push(9);
                write_decimal(&mut self.triples, o);
                self.triples.push(10);
                assert(self.triples@ =~= pre.triples@ + triple_row(s as int, p as int, o as int));
                assert(statement_steps(pre, *self, t, n1, n2, s as int, p as int, o as int));
                LineOutcome::Written
            },
            LineParse::Empty => LineOutcome::Empty,
            LineParse::Malformed => LineOutcome::Malformed,
        }
    }

    /// Parses one N-Triples line and resolves it as `process_parsed` does.
    /// A line with a `\u` / `\U` escape that names no character is
    /// malformed (this refuses such a sequence in a comment too, and after an
    /// escaped backslash in a literal).
    pub fn process_line(&mut self, line: &str) -> (r: LineOutcome)
        requires
            old(self).wf(),
            old(self).has_room_spec(),
        ensures
            final(self).wf(),
            escapes_decodable(encode_utf8(line@)) ==> processes(
                *old(self),
                *final(self),
                ntriple_parse(line@),
                r,
            ),
            !escapes_decodable(encode_utf8(line@)) ==> r == LineOutcome::Malformed && *final(self)
                == *old(self),
    {
        if !escapes_ok(line.as_bytes()) {
            return LineOutcome::Malformed;
        }
        let parsed = parse_line(line);
        self.process_parsed(parsed)
    }

    /// Hands out the buffered triples-stream bytes, leaving the buffer empty.
    pub fn take_triples(&mut self) -> (r: Vec<u8>)
        ensures
            r@ == old(self).triples@,
            final(self).triples@ == Seq::<u8>::empty(),
            final(self).nodes == old(self).nodes,
            final(self).lits == old(self).lits,
    {
        let mut r: Vec<u8> = Vec::new();
        std::mem::swap(&mut r, &mut self.triples);
        r
    }
}

} // verus!
