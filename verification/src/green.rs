//! The green (immutable, shared) side of the green/red versioning model.
//!
//! A [`GreenPool`] interns line content as [`GreenLine`] values identified by
//! opaque [`GreenLineId`] indices.  The pool is append-only: entries are never
//! removed or modified once inserted, so an id stays valid, and names the same
//! content, for the lifetime of the pool.
use vstd::prelude::*;
use vstd::cell::invcell::InvCell;
use vstd::predicate::Predicate;
use vstd::utf8::encode_utf8;

use std::collections::HashMap;
use std::sync::Arc;

use crate::digest::{crc32_hash, crc32_of, md5_digest, md5_of, sha256_digest, sha256_of};
use crate::text::str_eq;

verus! {

broadcast use vstd::std_specs::hash::group_hash_axioms;

// ── GreenLineId ───────────────────────────────────────────────────────────────

/// Opaque index into a [`GreenPool`].
///
/// `GreenLineId` values are meaningful only within the pool that produced them.
#[derive(Copy, Clone, PartialEq, Eq, Structural, Hash, Debug)]
pub struct GreenLineId(u32);

impl GreenLineId {
    /// The position in its pool that this id names.
    pub closed spec fn value(self) -> nat {
        self.0 as nat
    }

    /// The position in its pool that this id names.
    pub fn index(self) -> (r: usize)
        ensures
            r == self.value(),
    {
        self.0 as usize
    }
}

/// Two ids are equal exactly when they name the same position.
pub broadcast proof fn lemma_id_value_injective(a: GreenLineId, b: GreenLineId)
    ensures
        #[trigger] a.value() == #[trigger] b.value() <==> a == b,
{
}

/// An id's position fits in 32 bits.
pub broadcast proof fn lemma_id_value_bound(a: GreenLineId)
    ensures
        #[trigger] a.value() <= u32::MAX,
{
}

pub broadcast group group_id_facts {
    lemma_id_value_injective,
    lemma_id_value_bound,
}

// ── LineHash ──────────────────────────────────────────────────────────────────

/// What a lazily filled MD5 slot may hold for content with the given bytes:
/// nothing yet, or their digest.
pub struct Md5Slot {
    pub bytes: Seq<u8>,
}

impl Predicate<Option<[u8; 16]>> for Md5Slot {
    open spec fn predicate(&self, v: Option<[u8; 16]>) -> bool {
        v matches Some(d) ==> d@ == md5_of(self.bytes)
    }
}

/// What a lazily filled SHA-256 slot may hold for content with the given bytes:
/// nothing yet, or their digest.
pub struct Sha256Slot {
    pub bytes: Seq<u8>,
}

impl Predicate<Option<[u8; 32]>> for Sha256Slot {
    open spec fn predicate(&self, v: Option<[u8; 32]>) -> bool {
        v matches Some(d) ==> d@ == sha256_of(self.bytes)
    }
}

/// Content hashes for a single interned line.
///
/// `crc32` is computed eagerly at construction time; `md5` and `sha256` are
/// computed on first access and cached, so callers pay only for the digests
/// they actually need.
pub struct LineHash {
    crc32: u32,
    md5: InvCell<Option<[u8; 16]>, Md5Slot>,
    sha256: InvCell<Option<[u8; 32]>, Sha256Slot>,
}

impl LineHash {
    /// The CRC32 held by this value.
    pub closed spec fn crc_value(&self) -> u32 {
        self.crc32
    }

    /// The digest caches are tied to content with the given bytes.
    pub closed spec fn caches_for(&self, bytes: Seq<u8>) -> bool {
        &&& self.md5.predicate() == Md5Slot { bytes }
        &&& self.sha256.predicate() == Sha256Slot { bytes }
    }

    /// These are the hashes of content with the given bytes.
    pub open spec fn wf_for(&self, bytes: Seq<u8>) -> bool {
        &&& self.crc_value() == crc32_of(bytes)
        &&& self.caches_for(bytes)
    }

    /// Hashes for `content`, whose CRC32 has already been computed as `crc32`.
    pub(crate) fn with_crc(content: &str, crc32: u32) -> (r: LineHash)
        requires
            crc32 == crc32_of(encode_utf8(content@)),
        ensures
            r.wf_for(encode_utf8(content@)),
    {
        let ghost bytes = encode_utf8(content@);
        LineHash {
            crc32,
            md5: InvCell::new(None, Ghost(Md5Slot { bytes })),
            sha256: InvCell::new(None, Ghost(Sha256Slot { bytes })),
        }
    }

    /// Hashes for `content`; the CRC32 is computed now.
    pub(crate) fn new(content: &str) -> (r: LineHash)
        ensures
            r.wf_for(encode_utf8(content@)),
    {
        let crc32 = crc32_hash(content.as_bytes());
        LineHash::with_crc(content, crc32)
    }

    /// Returns the CRC32 of the line content.  Always available without
    /// additional computation.
    pub fn crc32(&self) -> (r: u32)
        ensures
            r == self.crc_value(),
    {
        self.crc32
    }

    /// The MD5 digest of `content`, from the cache or computed (and cached) now.
    pub(crate) fn md5_with_content(&self, content: &str) -> (r: [u8; 16])
        requires
            self.caches_for(encode_utf8(content@)),
        ensures
            r@ == md5_of(encode_utf8(content@)),
    {
        if let Some(v) = self.md5.get() {
            return v;
        }
        let digest = md5_digest(content.as_bytes());
        self.md5.set(Some(digest));
        digest
    }

    /// The SHA-256 digest of `content`, from the cache or computed (and cached)
    /// now.
    pub(crate) fn sha256_with_content(&self, content: &str) -> (r: [u8; 32])
        requires
            self.caches_for(encode_utf8(content@)),
        ensures
            r@ == sha256_of(encode_utf8(content@)),
    {
        if let Some(v) = self.sha256.get() {
            return v;
        }
        let digest = sha256_digest(content.as_bytes());
        self.sha256.set(Some(digest));
        digest
    }

    /// A copy holding the same CRC32 and whatever digests are cached now.
    fn duplicate(&self) -> (r: LineHash)
        ensures
            r.crc_value() == self.crc_value(),
            forall|b: Seq<u8>| self.caches_for(b) ==> r.caches_for(b),
    {
        let m = self.md5.get();
        let s = self.sha256.get();
        LineHash {
            crc32: self.crc32,
            md5: InvCell::new(m, Ghost(self.md5.predicate())),
            sha256: InvCell::new(s, Ghost(self.sha256.predicate())),
        }
    }
}

// ── GreenLine ─────────────────────────────────────────────────────────────────

/// Calls `Arc::clone`.  Trusted: the new handle points to the same string.
#[verifier::external_body]
fn share_text(a: &Arc<String>) -> (r: Arc<String>)
    ensures
        r@ == a@,
{
    Arc::clone(a)
}

/// An immutable, interned line of text together with its content hashes.
pub struct GreenLine {
    content: Arc<String>,
    hash: LineHash,
}

impl View for GreenLine {
    type V = Seq<char>;

    /// The line's content.
    closed spec fn view(&self) -> Seq<char> {
        self.content@
    }
}

/// The UTF-8 bytes of a line's content: what its hashes are computed over.
pub open spec fn utf8_of(text: Seq<char>) -> Seq<u8> {
    encode_utf8(text)
}

impl GreenLine {
    /// The hashes belong to the content.
    pub closed spec fn wf(&self) -> bool {
        self.hash.wf_for(utf8_of(self.content@))
    }

    /// Creates a new `GreenLine`, computing the CRC32 hash eagerly.
    pub fn new(s: &str) -> (r: GreenLine)
        ensures
            r@ == s@,
            r.wf(),
    {
        let content = Arc::new(s.to_string());
        let hash = LineHash::new(s);
        GreenLine { content, hash }
    }

    fn with_crc(s: &str, crc32: u32) -> (r: GreenLine)
        requires
            crc32 == crc32_of(utf8_of(s@)),
        ensures
            r@ == s@,
            r.wf(),
    {
        let content = Arc::new(s.to_string());
        let hash = LineHash::with_crc(s, crc32);
        GreenLine { content, hash }
    }

    /// Returns the line content as a `&str`.
    pub fn content(&self) -> (r: &str)
        ensures
            r@ == self@,
    {
        self.content.as_str()
    }

    /// Returns a shared handle to the interned content; no bytes are copied.
    pub fn content_arc(&self) -> (r: Arc<String>)
        ensures
            r@ == self@,
    {
        share_text(&self.content)
    }

    /// Returns an owned copy of the content.
    pub fn content_string(&self) -> (r: String)
        ensures
            r@ == self@,
    {
        self.content.as_str().to_string()
    }

    /// Returns the content hashes of this line.
    pub fn hashes(&self) -> (r: &LineHash)
        requires
            self.wf(),
        ensures
            r.wf_for(utf8_of(self@)),
    {
        &self.hash
    }

    /// Returns the CRC32 of this line's content.
    pub fn crc32(&self) -> (r: u32)
        requires
            self.wf(),
        ensures
            r == crc32_of(utf8_of(self@)),
    {
        self.hash.crc32()
    }

    /// Returns the MD5 digest, computing and caching it on first call.
    pub fn md5(&self) -> (r: [u8; 16])
        requires
            self.wf(),
        ensures
            r@ == md5_of(utf8_of(self@)),
    {
        self.hash.md5_with_content(self.content.as_str())
    }

    /// Returns the SHA-256 digest, computing and caching it on first call.
    pub fn sha256(&self) -> (r: [u8; 32])
        requires
            self.wf(),
        ensures
            r@ == sha256_of(utf8_of(self@)),
    {
        self.hash.sha256_with_content(self.content.as_str())
    }

    /// A second handle on the same content, with the same hashes.
    fn duplicate(&self) -> (r: GreenLine)
        requires
            self.wf(),
        ensures
            r@ == self@,
            r.wf(),
    {
        GreenLine { content: share_text(&self.content), hash: self.hash.duplicate() }
    }
}

// ── GreenPool ─────────────────────────────────────────────────────────────────

/// The position of `s` in a pool whose contents are `p`.
pub open spec fn position_of(p: Seq<Seq<char>>, s: Seq<char>) -> int {
    choose|i: int| 0 <= i < p.len() && p[i] == s
}

/// What interning `s` does to a pool whose contents are `p`: the pool after
/// the call, and the position of the returned id.  Content already present is
/// found again; new content is appended.
pub open spec fn intern_result(p: Seq<Seq<char>>, s: Seq<char>) -> (Seq<Seq<char>>, int) {
    if p.contains(s) {
        (p, position_of(p, s))
    } else {
        (p.push(s), p.len() as int)
    }
}

/// Append-only interned store of [`GreenLine`] values.
///
/// Interning the same content twice returns the same [`GreenLineId`].  The
/// pool never removes entries; `GreenLineId` values remain stable for the
/// lifetime of the pool.  The look-up index maps the CRC32 of each content to
/// the ids of the lines with that checksum.
pub struct GreenPool {
    lines: Vec<GreenLine>,
    index: HashMap<u32, Vec<GreenLineId>>,
}

impl View for GreenPool {
    type V = Seq<Seq<char>>;

    /// The contents of the pool, in id order.
    closed spec fn view(&self) -> Seq<Seq<char>> {
        self.lines@.map_values(|l: GreenLine| l@)
    }
}

impl GreenPool {
    /// The CRC32 of the content at position `i`.
    spec fn crc_at(&self, i: int) -> u32 {
        crc32_of(utf8_of(self.lines@[i]@))
    }

    /// Well-formed: every line carries its own hashes, no content occurs
    /// twice, ids fit in 32 bits, and the index lists, under each checksum,
    /// exactly the lines with that checksum.
    pub closed spec fn wf(&self) -> bool {
        &&& self.lines@.len() <= u32::MAX
        &&& forall|i: int| 0 <= i < self.lines@.len() ==> (#[trigger] self.lines@[i]).wf()
        &&& forall|i: int, j: int|
            0 <= i < self.lines@.len() && 0 <= j < self.lines@.len() && i != j
                ==> #[trigger] self.lines@[i]@ != #[trigger] self.lines@[j]@
        &&& forall|k: u32, j: int|
            #![trigger self.index@[k]@[j]]
            self.index@.contains_key(k) && 0 <= j < self.index@[k]@.len() ==> {
                let id = self.index@[k]@[j];
                &&& id.value() < self.lines@.len()
                &&& self.crc_at(id.value() as int) == k
            }
        &&& forall|i: int|
            0 <= i < self.lines@.len() ==> {
                &&& self.index@.contains_key(#[trigger] self.crc_at(i))
                &&& exists|j: int|
                    0 <= j < self.index@[self.crc_at(i)]@.len()
                        && #[trigger] self.index@[self.crc_at(i)]@[j].value() == i
            }
    }

    proof fn lemma_view(&self)
        ensures
            self@.len() == self.lines@.len(),
            forall|i: int| 0 <= i < self.lines@.len() ==> #[trigger] self@[i] == self.lines@[i]@,
    {
    }

    /// No content occurs twice in a well-formed pool.
    pub proof fn lemma_no_duplicates(&self)
        requires
            self.wf(),
        ensures
            self@.no_duplicates(),
    {
        self.lemma_view();
        assert forall|i: int, j: int| 0 <= i < self@.len() && 0 <= j < self@.len() && i != j
            implies self@[i] != self@[j] by {
            assert(self.lines@[i]@ != self.lines@[j]@);
        }
    }

    /// Creates a new, empty `GreenPool`.
    pub fn new() -> (r: GreenPool)
        ensures
            r.wf(),
            r@ == Seq::<Seq<char>>::empty(),
    {
        let r = GreenPool { lines: Vec::new(), index: HashMap::new() };
        assert(r@ =~= Seq::<Seq<char>>::empty());
        r
    }

    /// Interns `s`, returning the existing `GreenLineId` if the content has
    /// been seen before, or appending a new `GreenLine` and returning its id.
    pub fn intern(&mut self, s: &str) -> (r: GreenLineId)
        requires
            old(self).wf(),
            old(self)@.len() < u32::MAX,
        ensures
            final(self).wf(),
            (final(self)@, r.value() as int) == intern_result(old(self)@, s@),
    {
        proof {
            self.lemma_view();
        }
        let crc = crc32_hash(s.as_bytes());
        let ghost bytes = utf8_of(s@);
        match self.index.get(&crc) {
            Some(bucket) => {
                let n = bucket.len();
                let mut j: usize = 0;
                while j < n
                    invariant
                        self.wf(),
                        self.index@.contains_key(crc),
                        bucket@ == self.index@[crc]@,
                        n == bucket@.len(),
                        j <= n,
                        forall|q: int|
                            0 <= q < j ==> self.lines@[(#[trigger] bucket@[q]).value() as int]@
                                != s@,
                    decreases n - j,
                {
                    let id = bucket[j];
                    assert(id == self.index@[crc]@[j as int]);
                    let line = &self.lines[id.index()];
                    if str_eq(line.content(), s) {
                        proof {
                            self.lemma_view();
                            assert(self@[id.value() as int] == s@);
                            assert(self@.contains(s@));
                            let c = position_of(self@, s@);
                            assert(self@[c] == s@);
                            assert(self.lines@[c]@ == self.lines@[id.value() as int]@);
                        }
                        return id;
                    }
                    j = j + 1;
                }
                proof {
                    assert forall|i: int| 0 <= i < self.lines@.len() implies self.lines@[i]@
                        != s@ by {
                        if self.lines@[i]@ == s@ {
                            assert(self.crc_at(i) == crc);
                            let q = choose|q: int|
                                0 <= q < self.index@[self.crc_at(i)]@.len()
                                    && #[trigger] self.index@[self.crc_at(i)]@[q].value() == i;
                            assert(bucket@[q].value() == i);
                        }
                    }
                }
            },
            None => {
                proof {
                    assert forall|i: int| 0 <= i < self.lines@.len() implies self.lines@[i]@
                        != s@ by {
                        if self.lines@[i]@ == s@ {
                            assert(self.crc_at(i) == crc);
                        }
                    }
                }
            },
        }
        proof {
            self.lemma_view();
            assert(!self@.contains(s@));
        }
        let pos = self.lines.len();
        let id = GreenLineId(pos as u32);
        let line = GreenLine::with_crc(s, crc);
        let ghost old_pool = *self;
        self.lines.push(line);
        let mut b = match self.index.remove(&crc) {
            Some(b) => b,
            None => Vec::new(),
        };
        let ghost old_bucket = b@;
        b.push(id);
        self.index.insert(crc, b);
        proof {
            self.lemma_view();
            old_pool.lemma_view();
            assert(self@ =~= old_pool@.push(s@));
            assert(self.lines@[pos as int] == line);
            assert forall|i: int| 0 <= i < self.lines@.len() implies (
            #[trigger] self.lines@[i]).wf() by {
                if i < pos {
                    assert(self.lines@[i] == old_pool.lines@[i]);
                }
            }
            assert forall|k: u32, j: int|
                #![trigger self.index@[k]@[j]]
                self.index@.contains_key(k) && 0 <= j < self.index@[k]@.len() implies {
                let id2 = self.index@[k]@[j];
                &&& id2.value() < self.lines@.len()
                &&& self.crc_at(id2.value() as int) == k
            } by {
                let id2 = self.index@[k]@[j];
                if k == crc {
                    if j < old_bucket.len() {
                        assert(id2 == old_pool.index@[k]@[j]);
                        assert(self.lines@[id2.value() as int] == old_pool.lines@[id2.value()
                            as int]);
                    }
                } else {
                    assert(id2 == old_pool.index@[k]@[j]);
                    assert(self.lines@[id2.value() as int] == old_pool.lines@[id2.value()
                        as int]);
                }
            }
            assert forall|i: int| 0 <= i < self.lines@.len() implies {
                &&& self.index@.contains_key(#[trigger] self.crc_at(i))
                &&& exists|j: int|
                    0 <= j < self.index@[self.crc_at(i)]@.len()
                        && #[trigger] self.index@[self.crc_at(i)]@[j].value() == i
            } by {
                if i == pos {
                    assert(self.crc_at(i) == crc);
                    assert(self.index@[crc]@[old_bucket.len() as int] == id);
                } else {
                    assert(self.lines@[i] == old_pool.lines@[i]);
                    assert(self.crc_at(i) == old_pool.crc_at(i));
                    let k = old_pool.crc_at(i);
                    let j = choose|j: int|
                        0 <= j < old_pool.index@[k]@.len()
                            && #[trigger] old_pool.index@[k]@[j].value() == i;
                    if k == crc {
                        assert(self.index@[k]@[j] == old_pool.index@[k]@[j]);
                    } else {
                        assert(self.index@[k] == old_pool.index@[k]);
                    }
                }
            }
        }
        id
    }

    /// Returns the `GreenLine` at the given id.
    pub fn get(&self, id: GreenLineId) -> (r: &GreenLine)
        requires
            self.wf(),
            id.value() < self@.len(),
        ensures
            r@ == self@[id.value() as int],
            r.wf(),
    {
        proof {
            self.lemma_view();
        }
        &self.lines[id.index()]
    }

    /// Returns the number of distinct lines currently in the pool.
    pub fn len(&self) -> (r: usize)
        ensures
            r == self@.len(),
    {
        proof {
            self.lemma_view();
        }
        self.lines.len()
    }

    /// Returns `true` if the pool contains no lines.
    pub fn is_empty(&self) -> (r: bool)
        ensures
            r == (self@.len() == 0),
    {
        proof {
            self.lemma_view();
        }
        self.lines.len() == 0
    }

    /// A pool with the same contents, under the same ids, whose lines share
    /// their content with this one.
    pub(crate) fn snapshot(&self) -> (r: GreenPool)
        requires
            self.wf(),
        ensures
            r.wf(),
            r@ == self@,
    {
        let n = self.lines.len();
        let mut lines: Vec<GreenLine> = Vec::new();
        let mut i: usize = 0;
        while i < n
            invariant
                self.wf(),
                n == self.lines@.len(),
                i <= n,
                lines@.len() == i,
                forall|q: int| 0 <= q < i ==> (#[trigger] lines@[q])@ == self.lines@[q]@,
                forall|q: int| 0 <= q < i ==> (#[trigger] lines@[q]).wf(),
            decreases n - i,
        {
            let l = self.lines[i].duplicate();
            lines.push(l);
            i = i + 1;
        }
        let r = GreenPool { lines, index: self.index.clone() };
        proof {
            r.lemma_view();
            self.lemma_view();
            assert(r@ =~= self@);
            assert forall|i: int| 0 <= i < r.lines@.len() implies r.crc_at(i) == self.crc_at(i) by {
            }
        }
        r
    }
}

impl Default for GreenPool {
    fn default() -> (r: GreenPool)
        ensures
            r.wf(),
            r@ == Seq::<Seq<char>>::empty(),
    {
        GreenPool::new()
    }
}

// ── Laws ─────────────────────────────────────────────────────────────────────

/// What interning gives: a pool that extends the old one, and a position in
/// it that holds the interned content.
pub proof fn lemma_intern_result(p: Seq<Seq<char>>, s: Seq<char>)
    ensures
        intern_result(p, s).0.len() >= p.len(),
        intern_result(p, s).0.subrange(0, p.len() as int) == p,
        0 <= intern_result(p, s).1 < intern_result(p, s).0.len(),
        intern_result(p, s).0[intern_result(p, s).1] == s,
        intern_result(p, s).0.len() <= p.len() + 1,
{
    let (q, i) = intern_result(p, s);
    assert(q.subrange(0, p.len() as int) =~= p);
    if p.contains(s) {
        assert(q[i] == s);
    }
}

/// Law: interning content a second time returns the same id and leaves the
/// pool as the first call left it.
pub proof fn law_intern_idempotent(p: Seq<Seq<char>>, s: Seq<char>)
    requires
        p.no_duplicates(),
    ensures
        intern_result(intern_result(p, s).0, s) == intern_result(p, s),
{
    let (q, i) = intern_result(p, s);
    assert(q.contains(s)) by {
        if !p.contains(s) {
            assert(q[p.len() as int] == s);
        }
    }
    let j = position_of(q, s);
    assert(q[j] == s);
    if p.contains(s) {
        assert(q[i] == s);
    } else {
        assert(q[i] == s);
        assert forall|a: int, b: int| 0 <= a < q.len() && 0 <= b < q.len() && a != b implies q[a]
            != q[b] by {
            if a < p.len() && b < p.len() {
            } else if a < p.len() {
                assert(p[a] == q[a]);
            } else {
                assert(p[b] == q[b]);
            }
        }
    }
}

/// Law: interning only ever appends.  The pool before the call is a prefix of
/// the pool after it, the returned id names `s`, and distinct contents get
/// distinct ids.
pub proof fn law_intern_append_only(p: Seq<Seq<char>>, s: Seq<char>, t: Seq<char>)
    requires
        p.no_duplicates(),
        s != t,
    ensures
        intern_result(p, s).0.len() >= p.len(),
        intern_result(p, s).0.subrange(0, p.len() as int) == p,
        0 <= intern_result(p, s).1 < intern_result(p, s).0.len(),
        intern_result(p, s).0[intern_result(p, s).1] == s,
        intern_result(intern_result(p, s).0, t).1 != intern_result(p, s).1,
{
    let (q, i) = intern_result(p, s);
    assert(q.subrange(0, p.len() as int) =~= p);
    if p.contains(s) {
        assert(q[i] == s);
    }
    let (r, k) = intern_result(q, t);
    if q.contains(t) {
        assert(q[k] == t);
        assert(q[i] == s);
    }
}

} // verus!
