//! Bytes under paths.
use vstd::prelude::*;
use crate::converge::backend_error::BackendError;
use crate::ordmap::{
    erase, lemma_erase_lookup, lemma_erase_sorted, lemma_lookup_index, lemma_lookup_sorted,
    lemma_put_lookup, lemma_put_sorted, lookup, put, sorted, StrMap,
};
use crate::text;
use crate::time::{self, Timestamp};

verus! {

/// What is known of bytes without reading them.
#[derive(Debug, PartialEq, Eq)]
pub struct BlobMetadata {
    pub path: String,
    /// How many bytes there are.
    pub size: u64,
    pub content_type: String,
    pub etag: String,
    pub last_modified: Timestamp,
}

/// What a [`BlobMetadata`] holds.
#[verifier::ext_equal]
pub struct MetadataV {
    pub path: Seq<char>,
    pub size: u64,
    pub content_type: Seq<char>,
    pub etag: Seq<char>,
    pub last_modified: Timestamp,
}

impl View for BlobMetadata {
    type V = MetadataV;

    open spec fn view(&self) -> MetadataV {
        MetadataV {
            path: self.path@,
            size: self.size,
            content_type: self.content_type@,
            etag: self.etag@,
            last_modified: self.last_modified,
        }
    }
}

impl Clone for BlobMetadata {
    fn clone(&self) -> (r: Self)
        ensures
            r@ == self@,
    {
        BlobMetadata {
            path: self.path.clone(),
            size: self.size,
            content_type: self.content_type.clone(),
            etag: self.etag.clone(),
            last_modified: self.last_modified,
        }
    }
}

/// Metadata without a content type and a tag.
pub open spec fn plain_metadata(path: Seq<char>, size: u64, last_modified: Timestamp) -> MetadataV {
    MetadataV { path, size, content_type: Seq::empty(), etag: Seq::empty(), last_modified }
}

impl BlobMetadata {
    pub fn new(path: &str, size: u64, last_modified: Timestamp) -> (r: Self)
        ensures
            r@ == plain_metadata(path@, size, last_modified),
    {
        BlobMetadata {
            path: path.to_owned(),
            size,
            content_type: String::new(),
            etag: String::new(),
            last_modified,
        }
    }

    pub fn with_content_type(self, ct: &str) -> (r: Self)
        ensures
            r@ == (MetadataV { content_type: ct@, ..self@ }),
    {
        let mut r = self;
        r.content_type = ct.to_owned();
        r
    }

    pub fn with_etag(self, etag: &str) -> (r: Self)
        ensures
            r@ == (MetadataV { etag: etag@, ..self@ }),
    {
        let mut r = self;
        r.etag = etag.to_owned();
        r
    }
}

/// What can go wrong in a store.
#[derive(Debug, PartialEq, Eq)]
pub enum BlobStoreError {
    NotFound { path: String },
    PermissionDenied { op: &'static str, path: String, detail: String },
    /// Trying again may help.
    Transient { op: &'static str, path: String, detail: String },
    Permanent { op: &'static str, path: String, detail: String },
}

/// The name of an error.
pub open spec fn blob_error_kind(e: BlobStoreError) -> Seq<char> {
    match e {
        BlobStoreError::NotFound { .. } => "not_found"@,
        BlobStoreError::PermissionDenied { .. } => "permission_denied"@,
        BlobStoreError::Transient { .. } => "transient"@,
        BlobStoreError::Permanent { .. } => "permanent"@,
    }
}

/// An error about an operation on a path, in words.
pub open spec fn op_error_text(
    what: Seq<char>,
    op: Seq<char>,
    path: Seq<char>,
    detail: Seq<char>,
) -> Seq<char> {
    what + " for "@ + text::str_debug(op) + " on "@ + text::str_debug(path) + ": "@ + detail
}

/// An error in words.
pub open spec fn blob_error_text(e: BlobStoreError) -> Seq<char> {
    match e {
        BlobStoreError::NotFound { path } => "blob not found at "@ + text::str_debug(path@),
        BlobStoreError::PermissionDenied { op, path, detail } => op_error_text(
            "permission denied"@,
            op@,
            path@,
            detail@,
        ),
        BlobStoreError::Transient { op, path, detail } => op_error_text(
            "transient backend error"@,
            op@,
            path@,
            detail@,
        ),
        BlobStoreError::Permanent { op, path, detail } => op_error_text(
            "permanent backend error"@,
            op@,
            path@,
            detail@,
        ),
    }
}

fn op_error_message(what: &str, op: &str, path: &str, detail: &str) -> (r: String)
    ensures
        r@ == op_error_text(what@, op@, path@, detail@),
{
    let a = text::join4(what, " for ", text::debug_text(op).as_str(), " on ");
    text::join4(a.as_str(), text::debug_text(path).as_str(), ": ", detail)
}

impl BlobStoreError {
    /// Whether trying again may help.
    pub fn is_retryable(&self) -> (r: bool)
        ensures
            r == (self is Transient),
    {
        match self {
            BlobStoreError::Transient { .. } => true,
            _ => false,
        }
    }

    /// The name of the error.
    pub fn kind(&self) -> (r: &'static str)
        ensures
            r@ == blob_error_kind(*self),
    {
        match self {
            BlobStoreError::NotFound { .. } => "not_found",
            BlobStoreError::PermissionDenied { .. } => "permission_denied",
            BlobStoreError::Transient { .. } => "transient",
            BlobStoreError::Permanent { .. } => "permanent",
        }
    }

    /// The error in words.
    pub fn message(&self) -> (r: String)
        ensures
            r@ == blob_error_text(*self),
    {
        match self {
            BlobStoreError::NotFound { path } => text::join2(
                "blob not found at ",
                text::debug_text(path.as_str()).as_str(),
            ),
            BlobStoreError::PermissionDenied { op, path, detail } => op_error_message(
                "permission denied",
                op,
                path.as_str(),
                detail.as_str(),
            ),
            BlobStoreError::Transient { op, path, detail } => op_error_message(
                "transient backend error",
                op,
                path.as_str(),
                detail.as_str(),
            ),
            BlobStoreError::Permanent { op, path, detail } => op_error_message(
                "permanent backend error",
                op,
                path.as_str(),
                detail.as_str(),
            ),
        }
    }
}

impl BackendError for BlobStoreError {
    open spec fn retryable(&self) -> bool {
        self is Transient
    }

    open spec fn kind_name(&self) -> &'static str {
        match self {
            BlobStoreError::NotFound { .. } => "not_found",
            BlobStoreError::PermissionDenied { .. } => "permission_denied",
            BlobStoreError::Transient { .. } => "transient",
            BlobStoreError::Permanent { .. } => "permanent",
        }
    }

    fn is_retryable(&self) -> (r: bool) {
        BlobStoreError::is_retryable(self)
    }

    fn kind(&self) -> (r: &'static str) {
        BlobStoreError::kind(self)
    }
}

/// Bytes with what is known of them.
#[derive(Debug)]
pub struct Blob {
    pub bytes: Vec<u8>,
    pub meta: BlobMetadata,
}

/// What a [`Blob`] holds.
#[verifier::ext_equal]
pub struct BlobV {
    pub bytes: Seq<u8>,
    pub meta: MetadataV,
}

/// Blobs by path.
pub type Blobs = Seq<(Seq<char>, BlobV)>;

/// The paths that begin with a prefix, by what is known of them, in their
/// order.
pub open spec fn listed_blobs(s: Blobs, prefix: Seq<char>) -> Seq<MetadataV>
    decreases s.len(),
{
    if s.len() == 0 {
        Seq::empty()
    } else {
        let rest = listed_blobs(s.drop_last(), prefix);
        if text::stands_at(s.last().0, prefix, 0) {
            rest.push(s.last().1.meta)
        } else {
            rest
        }
    }
}

/// What is known of bytes is their length, and the path that they are under.
pub open spec fn measured(path: Seq<char>, b: BlobV) -> bool {
    b.meta.size == b.bytes.len() && b.meta.path == path
}

pub open spec fn all_measured(s: Blobs) -> bool {
    forall|i: int| 0 <= i < s.len() ==> measured((#[trigger] s[i]).0, s[i].1)
}

proof fn lemma_put_measured(s: Blobs, path: Seq<char>, b: BlobV)
    requires
        sorted(s),
        all_measured(s),
        measured(path, b),
    ensures
        sorted(put(s, path, b)),
        all_measured(put(s, path, b)),
{
    let r = put(s, path, b);
    lemma_put_sorted(s, path, b);
    assert forall|i: int| 0 <= i < r.len() implies measured((#[trigger] r[i]).0, r[i].1) by {
        lemma_lookup_sorted(r, i);
        lemma_put_lookup(s, path, b, r[i].0);
        if r[i].0 != path {
            let j = lemma_lookup_index(s, r[i].0);
            assert(measured(s[j].0, s[j].1));
        }
    }
}

proof fn lemma_erase_measured(s: Blobs, path: Seq<char>)
    requires
        sorted(s),
        all_measured(s),
    ensures
        sorted(erase(s, path)),
        all_measured(erase(s, path)),
{
    let r = erase(s, path);
    lemma_erase_sorted(s, path);
    assert forall|i: int| 0 <= i < r.len() implies measured((#[trigger] r[i]).0, r[i].1) by {
        lemma_lookup_sorted(r, i);
        lemma_erase_lookup(s, path, r[i].0);
        let j = lemma_lookup_index(s, r[i].0);
        assert(measured(s[j].0, s[j].1));
    }
}

/// A store in memory.
#[derive(Debug)]
pub struct InMemoryBlobStore {
    entries: StrMap<Blob>,
}

/// The error for a path with nothing under it.
pub open spec fn not_found(e: BlobStoreError, path: Seq<char>) -> bool {
    e matches BlobStoreError::NotFound { path: p } && p@ == path
}

impl InMemoryBlobStore {
    /// What is stored.
    pub closed spec fn blobs(&self) -> Blobs {
        crate::ordmap::map_vals(
            self.entries@,
            |b: Blob| BlobV { bytes: b.bytes@, meta: b.meta@ },
        )
    }

    /// The paths are in order, and what is known of the bytes under each is
    /// their length and their path.
    pub open spec fn wf(&self) -> bool {
        sorted(self.blobs()) && all_measured(self.blobs())
    }

    /// Nothing stored.
    pub fn new() -> (r: Self)
        ensures
            r.blobs() == Seq::<(Seq<char>, BlobV)>::empty(),
            r.wf(),
    {
        let r = InMemoryBlobStore { entries: StrMap::new() };
        proof {
            assert(r.blobs() =~= Seq::<(Seq<char>, BlobV)>::empty());
        }
        r
    }

    /// The name of the backend.
    pub fn backend(&self) -> (r: &'static str)
        ensures
            r@ == "memory"@,
    {
        "memory"
    }

    pub fn len(&self) -> (r: usize)
        ensures
            r == self.blobs().len(),
    {
        self.entries.len()
    }

    pub fn is_empty(&self) -> (r: bool)
        ensures
            r == (self.blobs().len() == 0),
    {
        self.entries.is_empty()
    }

    /// The bytes under a path.
    pub fn get(&self, path: &str) -> (r: Result<Vec<u8>, BlobStoreError>)
        ensures
            match r {
                Ok(b) => lookup(self.blobs(), path@) matches Some(x) && x.bytes == b@,
                Err(e) => lookup(self.blobs(), path@) is None && not_found(e, path@),
            },
    {
        proof {
            crate::ordmap::lemma_map_vals_lookup(
                self.entries@,
                |b: Blob| BlobV { bytes: b.bytes@, meta: b.meta@ },
                path@,
            );
        }
        match self.entries.get(path) {
            Some(b) => {
                let out = b.bytes.clone();
                proof {
                    assert(out@ =~= b.bytes@);
                }
                Ok(out)
            },
            None => Err(BlobStoreError::NotFound { path: path.to_owned() }),
        }
    }

    /// Store bytes under a path at a given time; what was there is replaced.
    pub fn put_at(&mut self, path: &str, bytes: Vec<u8>, now: Timestamp) -> (r: Result<
        BlobMetadata,
        BlobStoreError,
    >)
        ensures
            r matches Ok(m) && m@ == plain_metadata(path@, bytes@.len() as u64, now),
            final(self).blobs() == put(
                old(self).blobs(),
                path@,
                BlobV { bytes: bytes@, meta: plain_metadata(path@, bytes@.len() as u64, now) },
            ),
            old(self).wf() ==> final(self).wf(),
    {
        let meta = BlobMetadata::new(path, bytes.len() as u64, now);
        let blob = Blob { bytes, meta: meta.clone() };
        proof {
            if self.wf() {
                lemma_put_measured(
                    self.blobs(),
                    path@,
                    BlobV { bytes: blob.bytes@, meta: blob.meta@ },
                );
            }
            crate::ordmap::lemma_map_vals_put(
                self.entries@,
                |b: Blob| BlobV { bytes: b.bytes@, meta: b.meta@ },
                path@,
                blob,
            );
        }
        self.entries.insert(path.to_owned(), blob);
        Ok(meta)
    }

    /// Store bytes under a path; what was there is replaced.
    pub fn put(&mut self, path: &str, bytes: Vec<u8>) -> (r: Result<BlobMetadata, BlobStoreError>)
        ensures
            r matches Ok(m) && m@ == plain_metadata(path@, bytes@.len() as u64, m.last_modified)
                && final(self).blobs() == put(old(self).blobs(), path@, BlobV { bytes: bytes@, meta: m@ }),
            old(self).wf() ==> final(self).wf(),
    {
        self.put_at(path, bytes, time::now())
    }

    /// What is known of the paths that begin with a prefix.
    pub fn list(&self, prefix: &str) -> (r: Result<Vec<BlobMetadata>, BlobStoreError>)
        ensures
            r matches Ok(ms) && metadata_view(ms@) == listed_blobs(self.blobs(), prefix@),
    {
        let ghost all = self.blobs();
        let mut out: Vec<BlobMetadata> = Vec::new();
        let mut i: usize = 0;
        proof {
            assert(all.take(0) =~= Seq::empty());
            assert(metadata_view(out@) =~= Seq::empty());
        }
        while i < self.entries.entries.len()
            invariant
                i <= self.entries.entries@.len(),
                all == self.blobs(),
                metadata_view(out@) == listed_blobs(all.take(i as int), prefix@),
            decreases self.entries.entries.len() - i,
        {
            let e = &self.entries.entries[i];
            proof {
                assert(all.take(i + 1).drop_last() =~= all.take(i as int));
                assert(all.take(i + 1).last().0 == e.0@);
                assert(all.take(i + 1).last().1.meta == e.1.meta@);
            }
            if text::starts_with(e.0.as_str(), prefix) {
                let ghost before = metadata_view(out@);
                let m = e.1.meta.clone();
                out.push(m);
                proof {
                    assert(metadata_view(out@) =~= before.push(m@));
                }
            }
            i += 1;
        }
        proof {
            assert(all.take(all.len() as int) =~= all);
        }
        Ok(out)
    }

    /// Remove what is under a path.
    pub fn delete(&mut self, path: &str) -> (r: Result<(), BlobStoreError>)
        ensures
            match r {
                Ok(_) => lookup(old(self).blobs(), path@) is Some,
                Err(e) => lookup(old(self).blobs(), path@) is None && not_found(e, path@),
            },
            final(self).blobs() == erase(old(self).blobs(), path@),
            old(self).wf() ==> final(self).wf(),
    {
        proof {
            if self.wf() {
                lemma_erase_measured(self.blobs(), path@);
            }
            crate::ordmap::lemma_map_vals_lookup(
                self.entries@,
                |b: Blob| BlobV { bytes: b.bytes@, meta: b.meta@ },
                path@,
            );
            crate::ordmap::lemma_map_vals_erase(
                self.entries@,
                |b: Blob| BlobV { bytes: b.bytes@, meta: b.meta@ },
                path@,
            );
        }
        match self.entries.remove(path) {
            Some(_) => Ok(()),
            None => Err(BlobStoreError::NotFound { path: path.to_owned() }),
        }
    }

    /// What is known of the bytes under a path.
    pub fn head(&self, path: &str) -> (r: Result<BlobMetadata, BlobStoreError>)
        ensures
            match r {
                Ok(m) => lookup(self.blobs(), path@) matches Some(x) && x.meta == m@,
                Err(e) => lookup(self.blobs(), path@) is None && not_found(e, path@),
            },
    {
        proof {
            crate::ordmap::lemma_map_vals_lookup(
                self.entries@,
                |b: Blob| BlobV { bytes: b.bytes@, meta: b.meta@ },
                path@,
            );
        }
        match self.entries.get(path) {
            Some(b) => Ok(b.meta.clone()),
            None => Err(BlobStoreError::NotFound { path: path.to_owned() }),
        }
    }
}

pub open spec fn metadata_view(ms: Seq<BlobMetadata>) -> Seq<MetadataV> {
    Seq::new(ms.len(), |i: int| ms[i]@)
}

/// What was put is what is got, and its size is the number of its bytes; the
/// other paths are left alone.
pub proof fn law_put_then_get(s: Blobs, path: Seq<char>, b: BlobV, other: Seq<char>)
    requires
        sorted(s),
    ensures
        lookup(put(s, path, b), path) == Some(b),
        other != path ==> lookup(put(s, path, b), other) == lookup(s, other),
{
    lemma_put_lookup(s, path, b, path);
    lemma_put_lookup(s, path, b, other);
}

/// What was deleted is not found; the other paths are left alone.
pub proof fn law_delete_then_get(s: Blobs, path: Seq<char>, other: Seq<char>)
    requires
        sorted(s),
    ensures
        lookup(erase(s, path), path) is None,
        other != path ==> lookup(erase(s, path), other) == lookup(s, other),
{
    lemma_erase_lookup(s, path, path);
    lemma_erase_lookup(s, path, other);
}

/// What is known of the bytes under a path tells how many there are, without
/// reading them.
pub proof fn law_head_tells_length(s: Blobs, path: Seq<char>)
    requires
        all_measured(s),
        lookup(s, path) is Some,
    ensures
        lookup(s, path)->Some_0.meta.size == lookup(s, path)->Some_0.bytes.len(),
        lookup(s, path)->Some_0.meta.path == path,
{
    let i = lemma_lookup_index(s, path);
    assert(measured(s[i].0, s[i].1));
}

/// A listing holds exactly what is known of the paths with the prefix.
pub proof fn law_listing_is_complete(s: Blobs, prefix: Seq<char>, m: MetadataV)
    ensures
        listed_blobs(s, prefix).contains(m) <==> exists|i: int|
            0 <= i < s.len() && text::stands_at((#[trigger] s[i]).0, prefix, 0) && s[i].1.meta == m,
    decreases s.len(),
{
    let l = listed_blobs(s, prefix);
    if s.len() > 0 {
        let t = s.drop_last();
        law_listing_is_complete(t, prefix, m);
        let lt = listed_blobs(t, prefix);
        if lt.contains(m) {
            let j = choose|j: int| 0 <= j < lt.len() && lt[j] == m;
            assert(l[j] == m);
            let i = choose|i: int|
                0 <= i < t.len() && text::stands_at((#[trigger] t[i]).0, prefix, 0) && t[i].1.meta == m;
            assert(s[i] == t[i]);
        }
        if text::stands_at(s.last().0, prefix, 0) && s.last().1.meta == m {
            assert(l[l.len() - 1] == m);
            assert(s[s.len() - 1] == s.last());
        }
        if l.contains(m) && !lt.contains(m) {
            let j = choose|j: int| 0 <= j < l.len() && l[j] == m;
            if j < lt.len() {
                assert(lt[j] == m);
            }
        }
        if exists|i: int|
            0 <= i < s.len() && text::stands_at((#[trigger] s[i]).0, prefix, 0) && s[i].1.meta == m {
            let i = choose|i: int|
                0 <= i < s.len() && text::stands_at((#[trigger] s[i]).0, prefix, 0) && s[i].1.meta == m;
            if i < t.len() {
                assert(t[i] == s[i]);
            }
        }
    }
}

/// What is listed is what begins with the prefix, in the order of the paths.
pub proof fn law_listing_keeps_order(s: Blobs, prefix: Seq<char>)
    ensures
        listed_blobs(s, prefix) == s.filter(
            |e: (Seq<char>, BlobV)|
                e.0.len() >= prefix.len() && e.0.take(prefix.len() as int) == prefix,
        ).map_values(|e: (Seq<char>, BlobV)| e.1.meta),
    decreases s.len(),
{
    let f = |e: (Seq<char>, BlobV)|
        e.0.len() >= prefix.len() && e.0.take(prefix.len() as int) == prefix;
    let g = |e: (Seq<char>, BlobV)| e.1.meta;
    reveal(Seq::filter);
    if s.len() == 0 {
        assert(s.filter(f).map_values(g) =~= Seq::<MetadataV>::empty());
    } else {
        law_listing_keeps_order(s.drop_last(), prefix);
        let rest = s.drop_last().filter(f);
        assert(s.last().0.len() >= prefix.len() ==> s.last().0.take(prefix.len() as int)
            =~= s.last().0.subrange(0, prefix.len() as int));
        assert(rest.push(s.last()).map_values(g) =~= rest.map_values(g).push(g(s.last())));
    }
}

/// A blob is measured by its bytes and filed under its own path.
pub proof fn law_blobs_are_measured(path: Seq<char>, b: BlobV)
    ensures
        measured(path, b) <==> b.meta.size == b.bytes.len() && b.meta.path == path,
        measured(
            path,
            BlobV { meta: MetadataV { size: b.meta.size, path, ..b.meta }, ..b },
        ) <==> b.meta.size == b.bytes.len(),
{
}

/// Only what may pass by itself is worth another try.
pub proof fn law_transient_errors_are_retried(e: BlobStoreError)
    ensures
        e.retryable() <==> e is Transient,
{
}

} // verus!
