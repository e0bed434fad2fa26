//! Interning of IRIs and blank nodes to positive node identifiers.
use vstd::prelude::*;
use vstd::utf8::encode_utf8;
use crate::pgcode::{pg_encode, signed_decimal, write_decimal, write_pgencoded};
use crate::statement::{Predicate, Subject};
use std::collections::HashMap;

verus! {

broadcast use vstd::std_specs::hash::group_hash_axioms;

/// A polynomial hash of IRI bytes modulo the prime 4294967291.
pub open spec fn iri_hash(s: Seq<u8>) -> u64
    decreases s.len(),
{
    if s.len() == 0 {
        0
    } else {
        ((iri_hash(s.drop_last()) as int * 31 + s.last() as int) % 4294967291) as u64
    }
}

fn hash_bytes(b: &[u8]) -> (r: u64)
    ensures
        r == iri_hash(b@),
{
    let mut h: u64 = 0;
    let mut i: usize = 0;
    while i < b.len()
        invariant
            i <= b@.len(),
            h < 4294967291,
            h == iri_hash(b@.subrange(0, i as int)),
        decreases b@.len() - i,
    {
        h = (h * 31 + b[i] as u64) % 4294967291;
        assert(b@.subrange(0, i + 1).drop_last() =~= b@.subrange(0, i as int));
        i += 1;
    }
    assert(b@.subrange(0, b@.len() as int) =~= b@);
    h
}

/// The bytes `blank://`.
pub open spec fn blank_prefix() -> Seq<u8> {
    seq![98u8, 108u8, 97u8, 110u8, 107u8, 58u8, 47u8, 47u8]
}

/// The IRI that stands for blank-node `key` of document `doc`: `blank://{doc}/{key}`.
pub open spec fn blank_iri(doc: Seq<u8>, key: Seq<u8>) -> Seq<u8> {
    blank_prefix() + doc + seq![47u8] + key
}

/// Whether an IRI lies in the `blank://` namespace.
pub open spec fn is_blank_iri(iri: Seq<u8>) -> bool {
    iri.len() >= 8 && iri.subrange(0, 8) == blank_prefix()
}

/// The line `{id}\t{encoded iri}\n` of the nodes stream.
pub open spec fn node_line(id: int, iri: Seq<u8>) -> Seq<u8> {
    signed_decimal(id) + seq![9u8] + pg_encode(iri) + seq![10u8]
}

/// One resolution on the abstract state (mapping, current maximum):
/// the new mapping, the new maximum and the identifier returned.
pub open spec fn resolve_step(table: Map<Seq<u8>, int>, max: int, iri: Seq<u8>) -> (
    Map<Seq<u8>, int>,
    int,
    int,
) {
    if table.contains_key(iri) {
        (table, max, table[iri])
    } else {
        (table.insert(iri, max + 1), max + 1, max + 1)
    }
}

/// The abstract state after resolving the first `n` IRIs of `iris` in order.
pub open spec fn run(table: Map<Seq<u8>, int>, max: int, iris: Seq<Seq<u8>>, n: nat) -> (
    Map<Seq<u8>, int>,
    int,
)
    decreases n,
{
    if n == 0 {
        (table, max)
    } else {
        let prev = run(table, max, iris, (n - 1) as nat);
        let r = resolve_step(prev.0, prev.1, iris[n - 1]);
        (r.0, r.1)
    }
}

/// The identifier returned for the `j`-th IRI of `iris`.
pub open spec fn id_at(table: Map<Seq<u8>, int>, max: int, iris: Seq<Seq<u8>>, j: int) -> int {
    let s = run(table, max, iris, j as nat);
    resolve_step(s.0, s.1, iris[j]).2
}

/// Whether the `j`-th IRI of `iris` is met for the first time (allocates).
pub open spec fn is_new_at(table: Map<Seq<u8>, int>, max: int, iris: Seq<Seq<u8>>, j: int) -> bool {
    !run(table, max, iris, j as nat).0.contains_key(iris[j])
}

/// Why a persisted snapshot cannot seed an index.
#[derive(Debug, Clone, Copy, PartialEq, Eq)]
pub enum SeedError {
    /// The persisted maximum is negative.
    NegativeMax,
    /// The entry at this position has an identifier outside `1..=max`,
    /// or an IRI in the `blank://` namespace.
    InvalidEntry(usize),
}

/// Whether a snapshot entry may seed an index whose maximum is `max`.
pub open spec fn seed_entry_ok(max: int, e: (Vec<u8>, i64)) -> bool {
    1 <= e.1 <= max && !is_blank_iri(e.0@)
}

/// The mapping that a snapshot installs: later entries win.
pub open spec fn seed_map(s: Seq<(Vec<u8>, i64)>) -> Map<Seq<u8>, int>
    decreases s.len(),
{
    if s.len() == 0 {
        Map::empty()
    } else {
        seed_map(s.drop_last()).insert(s.last().0@, s.last().1 as int)
    }
}

/// Interns IRIs to positive identifiers and buffers the nodes stream.
pub struct NodeIndex {
    keys: Vec<Vec<u8>>,
    ids: Vec<i64>,
    max: i64,
    out: Vec<u8>,
    name: Vec<u8>,
    buckets: HashMap<u64, Vec<usize>>,
    table: Ghost<Map<Seq<u8>, int>>,
    seed_max: Ghost<int>,
    seed_len: Ghost<int>,
}

/// `post` is `pre` after resolving `iri` to `r`.
pub open spec fn resolves(pre: NodeIndex, post: NodeIndex, iri: Seq<u8>, r: int) -> bool {
    &&& post.wf()
    &&& (post.table(), post.max_id(), r) == resolve_step(pre.table(), pre.max_id(), iri)
    &&& post.output() == pre.output() + (if pre.table().contains_key(iri) {
        Seq::empty()
    } else {
        node_line(r, iri)
    })
    &&& post.document() == pre.document()
    &&& post.seed_max() == pre.seed_max()
}

/// The bytes of the IRI that a subject stands for in document `doc`.
pub open spec fn subject_iri(s: Subject, doc: Seq<u8>) -> Seq<u8> {
    match s {
        Subject::IriRef(i) => encode_utf8(i@),
        Subject::BNode(k) => blank_iri(doc, encode_utf8(k@)),
    }
}

/// The bytes of a predicate's IRI.
pub open spec fn predicate_iri(p: Predicate) -> Seq<u8> {
    match p {
        Predicate::IriRef(i) => encode_utf8(i@),
    }
}

fn bytes_eq(a: &[u8], b: &[u8]) -> (r: bool)
    ensures
        r == (a@ == b@),
{
    if a.len() != b.len() {
        return false;
    }
    let mut i: usize = 0;
    while i < a.len()
        invariant
            a@.len() == b@.len(),
            i <= a@.len(),
            forall|j: int| 0 <= j < i ==> a@[j] == b@[j],
        decreases a@.len() - i,
    {
        if a[i] != b[i] {
            return false;
        }
        i += 1;
    }
    assert(a@ =~= b@);
    true
}

fn append_bytes(out: &mut Vec<u8>, b: &[u8])
    ensures
        final(out)@ == old(out)@ + b@,
{
    let ghost start = out@;
    let mut i: usize = 0;
    while i < b.len()
        invariant
            i <= b@.len(),
            out@ == start + b@.subrange(0, i as int),
        decreases b@.len() - i,
    {
        out.push(b[i]);
        assert(b@.subrange(0, i + 1) =~= b@.subrange(0, i as int).push(b@[i as int]));
        i += 1;
    }
    assert(b@.subrange(0, b@.len() as int) =~= b@);
}

fn is_blank(b: &[u8]) -> (r: bool)
    ensures
        r == is_blank_iri(b@),
{
    if b.len() < 8 {
        return false;
    }
    let r = b[0] == 98 && b[1] == 108 && b[2] == 97 && b[3] == 110 && b[4] == 107 && b[5] == 58
        && b[6] == 47 && b[7] == 47;
    proof {
        if r {
            assert(b@.subrange(0, 8) =~= blank_prefix());
        } else {
            if b@.subrange(0, 8) == blank_prefix() {
                assert(b@.subrange(0, 8)[1] == 108u8);
                assert(b@.subrange(0, 8)[2] == 97u8);
                assert(b@.subrange(0, 8)[3] == 110u8);
                assert(b@.subrange(0, 8)[4] == 107u8);
                assert(b@.subrange(0, 8)[5] == 58u8);
                assert(b@.subrange(0, 8)[6] == 47u8);
                assert(b@.subrange(0, 8)[7] == 47u8);
            }
        }
    }
    r
}

impl NodeIndex {
    /// The mapping from IRI bytes to identifiers.
    pub closed spec fn table(&self) -> Map<Seq<u8>, int> {
        self.table@
    }

    /// The largest identifier allocated or seeded.
    pub closed spec fn max_id(&self) -> int {
        self.max as int
    }

    /// The maximum of the snapshot the index was seeded from.
    pub closed spec fn seed_max(&self) -> int {
        self.seed_max@
    }

    /// The nodes-stream bytes not yet taken.
    pub closed spec fn output(&self) -> Seq<u8> {
        self.out@
    }

    /// The name of the source document that scopes blank nodes.
    pub closed spec fn document(&self) -> Seq<u8> {
        self.name@
    }

    /// Keys are distinct and mapped by the table to their identifiers; seeded
    /// identifiers lie in `1..=seed_max` and are no blank nodes; the others
    /// run from `seed_max + 1` up to the maximum in order of allocation.
    pub closed spec fn wf(&self) -> bool {
        &&& self.keys@.len() == self.ids@.len()
        &&& 0 <= self.seed_len@ <= self.keys@.len()
        &&& 0 <= self.seed_max@ <= self.max
        &&& self.max == self.seed_max@ + (self.keys@.len() - self.seed_len@)
        &&& forall|i: int|
            0 <= i < self.keys@.len() ==> self.table@.contains_key(#[trigger] self.keys@[i]@)
                && self.table@[self.keys@[i]@] == self.ids@[i]
        &&& forall|i: int, j: int|
            0 <= i < j < self.keys@.len() ==> #[trigger] self.keys@[i]@ != #[trigger] self.keys@[j]@
        &&& forall|k: Seq<u8>|
            #[trigger] self.table@.contains_key(k) ==> exists|i: int|
                0 <= i < self.keys@.len() && self.keys@[i]@ == k
        &&& forall|i: int|
            0 <= i < self.seed_len@ ==> 1 <= #[trigger] self.ids@[i] <= self.seed_max@
                && !is_blank_iri(self.keys@[i]@)
        &&& forall|i: int|
            self.seed_len@ <= i < self.keys@.len() ==> #[trigger] self.ids@[i] == self.seed_max@
                + 1 + (i - self.seed_len@)
        &&& self.buckets_wf()
    }

    /// Each key's position is listed under its hash, and every listed
    /// position is a key's.
    closed spec fn buckets_wf(&self) -> bool {
        &&& forall|i: int|
            0 <= i < self.keys@.len() ==> self.buckets@.contains_key(iri_hash(#[trigger] self.keys@[i]@))
                && exists|m: int|
                0 <= m < self.buckets@[iri_hash(self.keys@[i]@)]@.len()
                    && self.buckets@[iri_hash(self.keys@[i]@)]@[m] as int == i
        &&& forall|h: u64, j: int|
            self.buckets@.contains_key(h) && 0 <= j < self.buckets@[h]@.len() ==> (
            #[trigger] self.buckets@[h]@[j]) < self.keys@.len()
    }

    proof fn lemma_buckets_frame(&self, other: &NodeIndex)
        requires
            self.buckets_wf(),
            self.keys@ == other.keys@,
            self.buckets@ == other.buckets@,
        ensures
            other.buckets_wf(),
    {
        assert forall|i: int| 0 <= i < other.keys@.len() implies other.buckets@.contains_key(
            iri_hash(#[trigger] other.keys@[i]@),
        ) && exists|m: int|
            0 <= m < other.buckets@[iri_hash(other.keys@[i]@)]@.len()
                && other.buckets@[iri_hash(other.keys@[i]@)]@[m] as int == i by {
            assert(self.keys@[i] == other.keys@[i]);
            let hi = iri_hash(self.keys@[i]@);
            assert(self.buckets@.contains_key(hi));
            let m = choose|m: int| 0 <= m < self.buckets@[hi]@.len() && self.buckets@[hi]@[m] as int == i;
            assert(0 <= m < other.buckets@[hi]@.len() && other.buckets@[hi]@[m] as int == i);
        }
    }

    fn append_key(&mut self, key: Vec<u8>, id: i64)
        requires
            old(self).buckets_wf(),
        ensures
            final(self).buckets_wf(),
            final(self).keys@ == old(self).keys@.push(key),
            final(self).ids@ == old(self).ids@.push(id),
            final(self).max == old(self).max,
            final(self).out == old(self).out,
            final(self).name == old(self).name,
            final(self).table == old(self).table,
            final(self).seed_max == old(self).seed_max,
            final(self).seed_len == old(self).seed_len,
    {
        let ghost pre = *self;
        let idx = self.keys.len();
        let h = hash_bytes(key.as_slice());
        let mut bucket = match self.buckets.remove(&h) {
            Some(v) => v,
            None => Vec::new(),
        };
        let ghost old_bucket = bucket@;
        bucket.push(idx);
        self.buckets.insert(h, bucket);
        self.keys.push(key);
        self.ids.push(id);
        proof {
            assert(pre.buckets@.contains_key(h) ==> old_bucket == pre.buckets@[h]@);
            assert forall|i: int| 0 <= i < self.keys@.len() implies self.buckets@.contains_key(
                iri_hash(#[trigger] self.keys@[i]@),
            ) && exists|m: int|
                0 <= m < self.buckets@[iri_hash(self.keys@[i]@)]@.len()
                    && self.buckets@[iri_hash(self.keys@[i]@)]@[m] as int == i by {
                if i < pre.keys@.len() {
                    assert(self.keys@[i] == pre.keys@[i]);
                    let hi = iri_hash(pre.keys@[i]@);
                    assert(pre.buckets@.contains_key(hi));
                    let m = choose|m: int| 0 <= m < pre.buckets@[hi]@.len() && pre.buckets@[hi]@[m] as int == i;
                    if hi == h {
                        assert(self.buckets@[h]@[m] == old_bucket[m]);
                    } else {
                        assert(self.buckets@[hi] == pre.buckets@[hi]);
                    }
                    assert(0 <= m < self.buckets@[hi]@.len() && self.buckets@[hi]@[m] as int == i);
                } else {
                    assert(self.keys@[i] == key);
                    let m = old_bucket.len() as int;
                    assert(self.buckets@[h]@[m] == idx);
                    assert(0 <= m < self.buckets@[h]@.len() && self.buckets@[h]@[m] as int == i);
                }
            }
            assert forall|h2: u64, j: int| self.buckets@.contains_key(h2) && 0 <= j
                < self.buckets@[h2]@.len() implies (#[trigger] self.buckets@[h2]@[j])
                < self.keys@.len() by {
                if h2 == h {
                    if j < old_bucket.len() {
                        assert(self.buckets@[h]@[j] == pre.buckets@[h]@[j]);
                    }
                } else {
                    assert(self.buckets@[h2] == pre.buckets@[h2]);
                }
            }
        }
    }

    /// An empty index for blank nodes of document `name`.
    pub fn create(name: &str) -> (r: NodeIndex)
        ensures
            r.wf(),
            r.table() == Map::<Seq<u8>, int>::empty(),
            r.max_id() == 0,
            r.seed_max() == 0,
            r.output() == Seq::<u8>::empty(),
            r.document() == encode_utf8(name@),
    {
        let mut n: Vec<u8> = Vec::new();
        append_bytes(&mut n, name.as_bytes());
        NodeIndex {
            keys: Vec::new(),
            ids: Vec::new(),
            max: 0,
            out: Vec::new(),
            name: n,
            buckets: HashMap::new(),
            table: Ghost(Map::empty()),
            seed_max: Ghost(0),
            seed_len: Ghost(0),
        }
    }

    fn find(&self, iri: &[u8]) -> (r: Option<usize>)
        requires
            self.wf(),
        ensures
            match r {
                Some(i) => i < self.keys@.len() && self.keys@[i as int]@ == iri@,
                None => forall|i: int| 0 <= i < self.keys@.len() ==> self.keys@[i]@ != iri@,
            },
    {
        let h = hash_bytes(iri);
        match self.buckets.get(&h) {
            None => {
                proof {
                    assert forall|i: int| 0 <= i < self.keys@.len() implies self.keys@[i]@
                        != iri@ by {
                        if self.keys@[i]@ == iri@ {
                            assert(self.buckets@.contains_key(iri_hash(self.keys@[i]@)));
                        }
                    }
                }
                None
            },
            Some(b) => {
                let mut j: usize = 0;
                while j < b.len()
                    invariant
                        self.wf(),
                        self.buckets@.contains_key(h),
                        h == iri_hash(iri@),
                        b@ == self.buckets@[h]@,
                        j <= b@.len(),
                        forall|m: int| 0 <= m < j ==> self.keys@[#[trigger] b@[m] as int]@ != iri@,
                    decreases b@.len() - j,
                {
                    let k = b[j];
                    assert(self.buckets@[h]@[j as int] < self.keys@.len());
                    if bytes_eq(self.keys[k].as_slice(), iri) {
                        return Some(k);
                    }
                    j += 1;
                }
                proof {
                    assert forall|i: int| 0 <= i < self.keys@.len() implies self.keys@[i]@
                        != iri@ by {
                        if self.keys@[i]@ == iri@ {
                            let m = choose|m: int| 0 <= m < b@.len() && b@[m] as int == i;
                            assert(self.keys@[b@[m] as int]@ != iri@);
                        }
                    }
                }
                None
            },
        }
    }

    /// Installs a persisted snapshot: `max` becomes the allocation floor and
    /// `seed` the known IRIs, whose identifiers are never written again.
    pub fn load(&mut self, max: i64, seed: &Vec<(Vec<u8>, i64)>) -> (r: Result<(), SeedError>)
        requires
            old(self).wf(),
            old(self).table() == Map::<Seq<u8>, int>::empty(),
            old(self).max_id() == 0,
        ensures
            max < 0 ==> r == Err::<(), SeedError>(SeedError::NegativeMax),
            max >= 0 ==> (r is Ok <==> forall|i: int|
                0 <= i < seed@.len() ==> seed_entry_ok(max as int, #[trigger] seed@[i])),
            match r {
                Err(SeedError::InvalidEntry(i)) => {
                    &&& max >= 0
                    &&& i < seed@.len()
                    &&& !seed_entry_ok(max as int, seed@[i as int])
                    &&& forall|j: int| 0 <= j < i ==> seed_entry_ok(max as int, #[trigger] seed@[j])
                },
                _ => true,
            },
            r is Ok ==> {
                &&& final(self).wf()
                &&& final(self).table() == seed_map(seed@)
                &&& final(self).max_id() == max
                &&& final(self).seed_max() == max
                &&& final(self).output() == old(self).output()
                &&& final(self).document() == old(self).document()
            },
            r is Err ==> *final(self) == *old(self),
    {
        if max < 0 {
            return Err(SeedError::NegativeMax);
        }
        let mut i: usize = 0;
        while i < seed.len()
            invariant
                i <= seed@.len(),
                max >= 0,
                forall|j: int| 0 <= j < i ==> seed_entry_ok(max as int, #[trigger] seed@[j]),
            decreases seed@.len() - i,
        {
            if seed[i].1 < 1 || seed[i].1 > max || is_blank(seed[i].0.as_slice()) {
                return Err(SeedError::InvalidEntry(i));
            }
            i += 1;
        }
        proof {
            if self.keys@.len() > 0 {
                assert(self.table@.contains_key(self.keys@[0]@));
            }
        }
        self.max = max;
        self.seed_max = Ghost(max as int);
        let mut i: usize = 0;
        while i < seed.len()
            invariant
                i <= seed@.len(),
                forall|j: int| 0 <= j < seed@.len() ==> seed_entry_ok(max as int, #[trigger] seed@[j]),
                self.wf(),
                self.max == max,
                self.seed_max@ == max,
                self.seed_len@ == self.keys@.len(),
                self.table@ == seed_map(seed@.subrange(0, i as int)),
                self.out@ == old(self).out@,
                self.name@ == old(self).name@,
            decreases seed@.len() - i,
        {
            let id = seed[i].1;
            let ghost k = seed@[i as int].0@;
            let ghost pre = *self;
            assert(seed_entry_ok(max as int, seed@[i as int]));
            match self.find(seed[i].0.as_slice()) {
                Some(j) => {
                    self.ids.set(j, id);
                    self.table = Ghost(self.table@.insert(k, id as int));
                    proof {
                        pre.lemma_buckets_frame(self);
                        assert forall|a: int| 0 <= a < self.keys@.len() implies self.table@.contains_key(
                            #[trigger] self.keys@[a]@,
                        ) && self.table@[self.keys@[a]@] == self.ids@[a] by {
                            if a != j {
                                assert(pre.table@.contains_key(pre.keys@[a]@));
                                if a < j {
                                    assert(pre.keys@[a]@ != pre.keys@[j as int]@);
                                } else {
                                    assert(pre.keys@[j as int]@ != pre.keys@[a]@);
                                }
                            }
                        }
                        assert forall|k2: Seq<u8>| #[trigger] self.table@.contains_key(k2) implies exists|
                            a: int,
                        | 0 <= a < self.keys@.len() && self.keys@[a]@ == k2 by {
                            assert(self.keys@ == pre.keys@);
                            if k2 != k {
                                assert(pre.table@.contains_key(k2));
                                let a = choose|a: int| 0 <= a < pre.keys@.len() && pre.keys@[a]@ == k2;
                                assert(self.keys@[a]@ == k2);
                            } else {
                                assert(self.keys@[j as int]@ == k2);
                            }
                        }
                    }
                },
                None => {
                    let mut key: Vec<u8> = Vec::new();
                    append_bytes(&mut key, seed[i].0.as_slice());
                    assert(key@ =~= k);
                    self.append_key(key, id);
                    let ghost mid = *self;
                    self.table = Ghost(self.table@.insert(k, id as int));
                    self.seed_len = Ghost(self.seed_len@ + 1);
                    proof {
                        mid.lemma_buckets_frame(self);
                        assert forall|a: int| 0 <= a < self.keys@.len() implies self.table@.contains_key(
                            #[trigger] self.keys@[a]@,
                        ) && self.table@[self.keys@[a]@] == self.ids@[a] by {
                            if a < pre.keys@.len() {
                                assert(self.keys@[a] == pre.keys@[a]);
                                assert(pre.table@.contains_key(pre.keys@[a]@));
                            }
                        }
                        assert forall|a: int, b: int| 0 <= a < b < self.keys@.len() implies #[trigger] self.keys@[a]@
                            != #[trigger] self.keys@[b]@ by {
                            assert(self.keys@[a] == pre.keys@[a]);
                            if b < pre.keys@.len() {
                                assert(self.keys@[b] == pre.keys@[b]);
                            }
                        }
                        assert forall|k2: Seq<u8>| #[trigger] self.table@.contains_key(k2) implies exists|
                            a: int,
                        | 0 <= a < self.keys@.len() && self.keys@[a]@ == k2 by {
                            if k2 == k {
                                assert(self.keys@[pre.keys@.len() as int]@ == k2);
                            } else {
                                assert(pre.table@.contains_key(k2));
                                let a = choose|a: int| 0 <= a < pre.keys@.len() && pre.keys@[a]@ == k2;
                                assert(self.keys@[a] == pre.keys@[a]);
                            }
                        }
                        assert forall|a: int| 0 <= a < self.seed_len@ implies 1 <= #[trigger] self.ids@[a]
                            <= self.seed_max@ && !is_blank_iri(self.keys@[a]@) by {
                            if a < pre.keys@.len() {
                                assert(self.keys@[a] == pre.keys@[a]);
                                assert(self.ids@[a] == pre.ids@[a]);
                            }
                        }
                    }
                },
            }
            proof {
                let s2 = seed@.subrange(0, i + 1);
                assert(s2.drop_last() =~= seed@.subrange(0, i as int));
            }
            i += 1;
        }
        assert(seed@.subrange(0, seed@.len() as int) =~= seed@);
        Ok(())
    }

    /// Every identifier in the mapping is positive and at most the maximum.
    pub proof fn lemma_ids_in_range(&self)
        requires
            self.wf(),
        ensures
            forall|k: Seq<u8>|
                #[trigger] self.table().contains_key(k) ==> 1 <= self.table()[k] <= self.max_id(),
    {
        assert forall|k: Seq<u8>| #[trigger] self.table().contains_key(k) implies 1
            <= self.table()[k] <= self.max_id() by {
            let i = choose|i: int| 0 <= i < self.keys@.len() && self.keys@[i]@ == k;
            assert(self.table@[self.keys@[i]@] == self.ids@[i]);
        }
    }

    fn resolve(&mut self, iri: &[u8]) -> (r: i64)
        requires
            old(self).wf(),
            old(self).max_id() < i64::MAX,
        ensures
            resolves(*old(self), *final(self), iri@, r as int),
    {
        match self.find(iri) {
            Some(i) => {
                let id = self.ids[i];
                assert(self.table@[self.keys@[i as int]@] == self.ids@[i as int]);
                id
            },
            None => {
                assert(!self.table@.contains_key(iri@)) by {
                    if self.table@.contains_key(iri@) {
                        let i = choose|i: int| 0 <= i < self.keys@.len() && self.keys@[i]@ == iri@;
                        assert(self.keys@[i]@ != iri@);
                    }
                };
                let id = self.max + 1;
                let mut key: Vec<u8> = Vec::new();
                append_bytes(&mut key, iri);
                assert(key@ =~= iri@);
                let ghost pre = *self;
                self.append_key(key, id);
                let ghost mid = *self;
                self.max = id;
                self.table = Ghost(self.table@.insert(iri@, id as int));
                write_decimal(&mut self.out, id);
                self.out.push(9);
                write_pgencoded(&mut self.out, iri);
                self.out.push(10);
                proof {
                    mid.lemma_buckets_frame(self);
                    assert(self.out@ =~= pre.out@ + node_line(id as int, iri@));
                    assert forall|i: int| 0 <= i < self.keys@.len() implies self.table@.contains_key(
                        #[trigger] self.keys@[i]@,
                    ) && self.table@[self.keys@[i]@] == self.ids@[i] by {
                        if i < pre.keys@.len() {
                            assert(self.keys@[i] == pre.keys@[i]);
                            assert(pre.table@.contains_key(pre.keys@[i]@));
                        }
                    }
                    assert forall|k: Seq<u8>| #[trigger] self.table@.contains_key(k) implies exists|
                        i: int,
                    | 0 <= i < self.keys@.len() && self.keys@[i]@ == k by {
                        if k == iri@ {
                            assert(self.keys@[pre.keys@.len() as int]@ == k);
                        } else {
                            assert(pre.table@.contains_key(k));
                            let i = choose|i: int| 0 <= i < pre.keys@.len() && pre.keys@[i]@ == k;
                            assert(self.keys@[i] == pre.keys@[i]);
                        }
                    }
                    assert forall|i: int, j: int| 0 <= i < j < self.keys@.len() implies #[trigger] self.keys@[i]@
                        != #[trigger] self.keys@[j]@ by {
                        if j < pre.keys@.len() {
                            assert(self.keys@[i] == pre.keys@[i]);
                            assert(self.keys@[j] == pre.keys@[j]);
                        } else {
                            assert(self.keys@[i] == pre.keys@[i]);
                        }
                    }
                    assert forall|i: int| 0 <= i < self.seed_len@ implies 1 <= #[trigger] self.ids@[i]
                        <= self.seed_max@ && !is_blank_iri(self.keys@[i]@) by {
                        assert(self.ids@[i] == pre.ids@[i]);
                        assert(self.keys@[i] == pre.keys@[i]);
                    }
                    assert forall|i: int| self.seed_len@ <= i < self.keys@.len() implies #[trigger] self.ids@[i]
                        == self.seed_max@ + 1 + (i - self.seed_len@) by {
                        if i < pre.keys@.len() {
                            assert(self.ids@[i] == pre.ids@[i]);
                        }
                    }
                }
                id
            },
        }
    }

    /// The identifier of `iri`, allocated and written to the nodes stream
    /// on first sight.
    pub fn node_id(&mut self, iri: &str) -> (r: i64)
        requires
            old(self).wf(),
            old(self).max_id() < i64::MAX,
        ensures
            resolves(*old(self), *final(self), encode_utf8(iri@), r as int),
    {
        self.resolve(iri.as_bytes())
    }

    /// The identifier of blank node `key` of the current document.
    pub fn blank_id(&mut self, key: &str) -> (r: i64)
        requires
            old(self).wf(),
            old(self).max_id() < i64::MAX,
        ensures
            resolves(
                *old(self),
                *final(self),
                blank_iri(old(self).document(), encode_utf8(key@)),
                r as int,
            ),
    {
        let mut iri: Vec<u8> = Vec::new();
        iri.push(98);
        iri.push(108);
        iri.push(97);
        iri.push(110);
        iri.push(107);
        iri.push(58);
        iri.push(47);
        iri.push(47);
        append_bytes(&mut iri, self.name.as_slice());
        iri.push(47);
        append_bytes(&mut iri, key.as_bytes());
        assert(iri@ =~= blank_iri(self.name@, encode_utf8(key@)));
        self.resolve(iri.as_slice())
    }

    /// The identifier of a statement's subject.
    pub fn subj_id(&mut self, sub: &Subject) -> (r: i64)
        requires
            old(self).wf(),
            old(self).max_id() < i64::MAX,
        ensures
            resolves(*old(self), *final(self), subject_iri(*sub, old(self).document()), r as int),
    {
        match sub {
            Subject::IriRef(iri) => self.node_id(iri.as_str()),
            Subject::BNode(key) => self.blank_id(key.as_str()),
        }
    }

    /// The identifier of a statement's predicate.
    pub fn pred_id(&mut self, pred: &Predicate) -> (r: i64)
        requires
            old(self).wf(),
            old(self).max_id() < i64::MAX,
        ensures
            resolves(*old(self), *final(self), predicate_iri(*pred), r as int),
    {
        match pred {
            Predicate::IriRef(iri) => self.node_id(iri.as_str()),
        }
    }

    /// Hands out the buffered nodes-stream bytes, leaving the buffer empty.
    pub fn take_output(&mut self) -> (r: Vec<u8>)
        requires
            old(self).wf(),
        ensures
            r@ == old(self).output(),
            final(self).wf(),
            final(self).output() == Seq::<u8>::empty(),
            final(self).table() == old(self).table(),
            final(self).max_id() == old(self).max_id(),
            final(self).seed_max() == old(self).seed_max(),
            final(self).document() == old(self).document(),
    {
        let ghost pre = *self;
        let mut r: Vec<u8> = Vec::new();
        std::mem::swap(&mut r, &mut self.out);
        proof {
            pre.lemma_buckets_frame(self);
        }
        r
    }

    /// Makes `name` the document that scopes blank nodes from now on.
    pub fn set_document(&mut self, name: &str)
        requires
            old(self).wf(),
        ensures
            final(self).wf(),
            final(self).document() == encode_utf8(name@),
            final(self).table() == old(self).table(),
            final(self).max_id() == old(self).max_id(),
            final(self).seed_max() == old(self).seed_max(),
            final(self).output() == old(self).output(),
    {
        let mut n: Vec<u8> = Vec::new();
        append_bytes(&mut n, name.as_bytes());
        let ghost pre = *self;
        self.name = n;
        proof {
            pre.lemma_buckets_frame(self);
        }
    }

    /// The largest identifier allocated or seeded.
    pub fn max(&self) -> (r: i64)
        ensures
            r as int == self.max_id(),
    {
        self.max
    }
}

proof fn lemma_run_keeps(table: Map<Seq<u8>, int>, max: int, iris: Seq<Seq<u8>>, a: nat, b: nat)
    requires
        a <= b,
    ensures
        forall|k: Seq<u8>|
            #[trigger] run(table, max, iris, a).0.contains_key(k) ==> run(table, max, iris, b).0.contains_key(k)
                && run(table, max, iris, b).0[k] == run(table, max, iris, a).0[k],
        run(table, max, iris, a).1 <= run(table, max, iris, b).1,
    decreases b,
{
    if a < b {
        lemma_run_keeps(table, max, iris, a, (b - 1) as nat);
    }
}

proof fn lemma_run_records(table: Map<Seq<u8>, int>, max: int, iris: Seq<Seq<u8>>, j: int)
    requires
        0 <= j,
    ensures
        run(table, max, iris, (j + 1) as nat).0.contains_key(iris[j]),
        run(table, max, iris, (j + 1) as nat).0[iris[j]] == id_at(table, max, iris, j),
        is_new_at(table, max, iris, j) ==> run(table, max, iris, (j + 1) as nat).1 == id_at(
            table,
            max,
            iris,
            j,
        ) && id_at(table, max, iris, j) == run(table, max, iris, j as nat).1 + 1,
        !is_new_at(table, max, iris, j) ==> run(table, max, iris, (j + 1) as nat).1 == run(
            table,
            max,
            iris,
            j as nat,
        ).1,
{
    assert(((j + 1) as nat - 1) as nat == j as nat);
}

proof fn lemma_run_max_unchanged(
    table: Map<Seq<u8>, int>,
    max: int,
    iris: Seq<Seq<u8>>,
    a: int,
    b: int,
)
    requires
        0 <= a <= b,
        forall|i: int| a <= i < b ==> !#[trigger] is_new_at(table, max, iris, i),
    ensures
        run(table, max, iris, b as nat).1 == run(table, max, iris, a as nat).1,
    decreases b - a,
{
    if a < b {
        lemma_run_max_unchanged(table, max, iris, a, b - 1);
        lemma_run_records(table, max, iris, b - 1);
    }
}

/// One resolution keeps every earlier mapping, maps the IRI to the identifier
/// returned, and allocates only for a new IRI, one above the old maximum.
/// Chained over the calls of a run: an IRI keeps its identifier, and new IRIs
/// get `max + 1`, `max + 2`, ... in the order they are first met.
pub proof fn lemma_resolution_step(pre: NodeIndex, post: NodeIndex, iri: Seq<u8>, r: int)
    requires
        resolves(pre, post, iri, r),
    ensures
        post.table().contains_key(iri),
        post.table()[iri] == r,
        forall|k: Seq<u8>|
            #[trigger] pre.table().contains_key(k) ==> post.table().contains_key(k)
                && post.table()[k] == pre.table()[k],
        pre.table().contains_key(iri) ==> post.max_id() == pre.max_id() && r == pre.table()[iri],
        !pre.table().contains_key(iri) ==> r == pre.max_id() + 1 && post.max_id() == r,
{
}

/// Resolving the same IRI twice in one run gives the same identifier, however
/// many other IRIs are resolved in between.
pub proof fn lemma_resolve_stable(
    table: Map<Seq<u8>, int>,
    max: int,
    iris: Seq<Seq<u8>>,
    j: int,
    k: int,
)
    requires
        0 <= j < k < iris.len(),
        iris[j] == iris[k],
    ensures
        id_at(table, max, iris, j) == id_at(table, max, iris, k),
{
    lemma_run_records(table, max, iris, j);
    lemma_run_keeps(table, max, iris, (j + 1) as nat, k as nat);
}

/// A newly met IRI gets the current maximum plus one, above every earlier
/// identifier; later new IRIs get strictly larger identifiers.
pub proof fn lemma_allocation_order(
    table: Map<Seq<u8>, int>,
    max: int,
    iris: Seq<Seq<u8>>,
    j: int,
    k: int,
)
    requires
        0 <= j < k < iris.len(),
        is_new_at(table, max, iris, j),
        is_new_at(table, max, iris, k),
    ensures
        id_at(table, max, iris, j) == run(table, max, iris, j as nat).1 + 1,
        max < id_at(table, max, iris, j) < id_at(table, max, iris, k),
{
    lemma_run_records(table, max, iris, j);
    lemma_run_records(table, max, iris, k);
    lemma_run_keeps(table, max, iris, 0, j as nat);
    lemma_run_keeps(table, max, iris, (j + 1) as nat, k as nat);
}

/// The first new IRI of a run gets `max + 1`, and each later new IRI gets one
/// more than the new IRI before it: allocation leaves no gaps.
pub proof fn lemma_allocation_from_seed(
    table: Map<Seq<u8>, int>,
    max: int,
    iris: Seq<Seq<u8>>,
    j: int,
    k: int,
)
    requires
        0 <= j < k < iris.len(),
        is_new_at(table, max, iris, j),
        is_new_at(table, max, iris, k),
        forall|i: int| j < i < k ==> !#[trigger] is_new_at(table, max, iris, i),
    ensures
        (forall|i: int| 0 <= i < j ==> !#[trigger] is_new_at(table, max, iris, i)) ==> id_at(
            table,
            max,
            iris,
            j,
        ) == max + 1,
        id_at(table, max, iris, k) == id_at(table, max, iris, j) + 1,
{
    lemma_run_records(table, max, iris, j);
    lemma_run_records(table, max, iris, k);
    lemma_run_max_unchanged(table, max, iris, j + 1, k);
    if forall|i: int| 0 <= i < j ==> !#[trigger] is_new_at(table, max, iris, i) {
        lemma_run_max_unchanged(table, max, iris, 0, j);
    }
}

impl NodeIndex {
    /// The same blank-node key under two different documents stands for two
    /// different nodes.
    pub proof fn lemma_blank_scoped(&self, d1: Seq<u8>, d2: Seq<u8>, key: Seq<u8>)
        requires
            self.wf(),
            d1 != d2,
            self.table().contains_key(blank_iri(d1, key)),
            self.table().contains_key(blank_iri(d2, key)),
        ensures
            self.table()[blank_iri(d1, key)] != self.table()[blank_iri(d2, key)],
    {
        let b1 = blank_iri(d1, key);
        let b2 = blank_iri(d2, key);
        if d1.len() == d2.len() {
            assert(b1.subrange(8, 8 + d1.len() as int) =~= d1);
            assert(b2.subrange(8, 8 + d2.len() as int) =~= d2);
        }
        assert(b1 != b2);
        assert(b1.subrange(0, 8) =~= blank_prefix());
        assert(b2.subrange(0, 8) =~= blank_prefix());
        let i = choose|i: int| 0 <= i < self.keys@.len() && self.keys@[i]@ == b1;
        let j = choose|j: int| 0 <= j < self.keys@.len() && self.keys@[j]@ == b2;
        assert(self.table@[self.keys@[i]@] == self.ids@[i]);
        assert(self.table@[self.keys@[j]@] == self.ids@[j]);
        if i < self.seed_len@ {
            assert(!is_blank_iri(self.keys@[i]@));
        }
        if j < self.seed_len@ {
            assert(!is_blank_iri(self.keys@[j]@));
        }
    }
}

} // verus!
