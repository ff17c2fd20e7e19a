//! Contents that are known by their digest.
use vstd::prelude::*;
use vstd::string::*;
use crate::converge::refspec::RefSpec;
use crate::digest::is_hex;
use crate::text;
use crate::time::{Span, Timestamp};

verus! {

/// How a digest is computed.
#[derive(Clone, Copy, Debug, PartialEq, Eq, Structural)]
pub enum DigestAlgo {
    Blake3,
    Sha256,
    Sha512,
}

impl Default for DigestAlgo {
    fn default() -> (r: Self)
        ensures
            r == DigestAlgo::Blake3,
    {
        DigestAlgo::Blake3
    }
}

/// How many hexadecimal digits a digest has.
pub open spec fn digest_len(a: DigestAlgo) -> usize {
    match a {
        DigestAlgo::Blake3 | DigestAlgo::Sha256 => 64,
        DigestAlgo::Sha512 => 128,
    }
}

/// The name of an algorithm.
pub open spec fn algo_name(a: DigestAlgo) -> Seq<char> {
    match a {
        DigestAlgo::Blake3 => "blake3"@,
        DigestAlgo::Sha256 => "sha256"@,
        DigestAlgo::Sha512 => "sha512"@,
    }
}

/// An algorithm as its constructor is written.
pub open spec fn algo_debug(a: DigestAlgo) -> Seq<char> {
    match a {
        DigestAlgo::Blake3 => "Blake3"@,
        DigestAlgo::Sha256 => "Sha256"@,
        DigestAlgo::Sha512 => "Sha512"@,
    }
}

impl DigestAlgo {
    /// How many hexadecimal digits a digest has.
    pub fn hex_len(self) -> (r: usize)
        ensures
            r == digest_len(self),
    {
        match self {
            DigestAlgo::Blake3 | DigestAlgo::Sha256 => 64,
            DigestAlgo::Sha512 => 128,
        }
    }

    /// The name of the algorithm.
    pub fn name(self) -> (r: &'static str)
        ensures
            r@ == algo_name(self),
    {
        match self {
            DigestAlgo::Blake3 => "blake3",
            DigestAlgo::Sha256 => "sha256",
            DigestAlgo::Sha512 => "sha512",
        }
    }
}

/// A digest in hexadecimal.
#[derive(Clone, Debug, PartialEq, Eq)]
pub struct ArtifactDigest {
    pub algo: DigestAlgo,
    pub hex: String,
}

/// What an [`ArtifactDigest`] holds.
#[verifier::ext_equal]
pub struct DigestV {
    pub algo: DigestAlgo,
    pub hex: Seq<char>,
}

impl View for ArtifactDigest {
    type V = DigestV;

    open spec fn view(&self) -> DigestV {
        DigestV { algo: self.algo, hex: self.hex@ }
    }
}

/// Why a text is no digest.
#[derive(Debug, PartialEq, Eq)]
pub enum DigestError {
    WrongLength { algo: DigestAlgo, expected: usize, got: usize },
    NotLowercaseHex(String),
}

/// Every character is a lower-case hexadecimal digit.
pub open spec fn all_hex(s: Seq<char>) -> bool {
    forall|i: int| 0 <= i < s.len() ==> is_hex(#[trigger] s[i])
}

/// `<algorithm>:<digits>`.
pub open spec fn oci_text(d: DigestV) -> Seq<char> {
    algo_name(d.algo) + ":"@ + d.hex
}

impl ArtifactDigest {
    /// A digest from its digits: there must be as many bytes as the algorithm
    /// has digits, which is looked at first, and all must be lower-case
    /// hexadecimal digits.
    pub fn new(algo: DigestAlgo, hex: &str) -> (r: Result<Self, DigestError>)
        ensures
            match r {
                Ok(d) => d@ == (DigestV { algo, hex: hex@ }) && hex.spec_bytes().len() == digest_len(algo)
                    && all_hex(hex@),
                Err(DigestError::WrongLength { algo: a, expected, got }) => a == algo && expected
                    == digest_len(algo) && got == hex.spec_bytes().len() && got != expected,
                Err(DigestError::NotLowercaseHex(s)) => s@ == hex@ && hex.spec_bytes().len()
                    == digest_len(algo) && !all_hex(hex@),
            },
    {
        let got: usize = hex.as_bytes().len();
        if got != algo.hex_len() {
            return Err(DigestError::WrongLength { algo, expected: algo.hex_len(), got });
        }
        let v = text::chars_of(hex);
        let mut i: usize = 0;
        while i < v.len()
            invariant
                i <= v@.len(),
                v@ == hex@,
                hex.spec_bytes().len() == digest_len(algo),
                forall|j: int| 0 <= j < i ==> is_hex(#[trigger] v@[j]),
            decreases v.len() - i,
        {
            let c = v[i];
            if !(('0' <= c && c <= '9') || ('a' <= c && c <= 'f')) {
                proof {
                    assert(!is_hex(hex@[i as int]));
                }
                return Err(DigestError::NotLowercaseHex(hex.to_owned()));
            }
            i += 1;
        }
        Ok(ArtifactDigest { algo, hex: hex.to_owned() })
    }

    /// A digest whose digits are known to be good.
    pub fn unchecked(algo: DigestAlgo, hex: &str) -> (r: Self)
        ensures
            r@ == (DigestV { algo, hex: hex@ }),
    {
        ArtifactDigest { algo, hex: hex.to_owned() }
    }

    /// `<algorithm>:<digits>`.
    pub fn to_oci_form(&self) -> (r: String)
        ensures
            r@ == oci_text(self@),
    {
        text::join3(self.algo.name(), ":", self.hex.as_str())
    }

    /// Whether two digests are the same.
    pub fn same_as(&self, other: &ArtifactDigest) -> (r: bool)
        ensures
            r == (self@ == other@),
    {
        self.algo == other.algo && text::same(self.hex.as_str(), other.hex.as_str())
    }
}

impl DigestError {
    /// What the error says.
    pub open spec fn said(&self) -> Seq<char> {
        match self {
            DigestError::WrongLength { algo, expected, got } => "digest hex has wrong length for "@
                + algo_debug(*algo) + ": expected "@ + text::decimal(*expected as nat) + ", got "@
                + text::decimal(*got as nat),
            DigestError::NotLowercaseHex(s) => "digest hex must be lowercase 0-9/a-f; got "@
                + text::str_debug(s@),
        }
    }

    /// The error in words.
    pub fn message(&self) -> (r: String)
        ensures
            r@ == self.said(),
    {
        match self {
            DigestError::WrongLength { algo, expected, got } => {
                let name = match algo {
                    DigestAlgo::Blake3 => "Blake3",
                    DigestAlgo::Sha256 => "Sha256",
                    DigestAlgo::Sha512 => "Sha512",
                };
                let a = text::join4(
                    "digest hex has wrong length for ",
                    name,
                    ": expected ",
                    text::decimal_text(*expected).as_str(),
                );
                text::join3(a.as_str(), ", got ", text::decimal_text(*got).as_str())
            },
            DigestError::NotLowercaseHex(s) => text::join2(
                "digest hex must be lowercase 0-9/a-f; got ",
                text::debug_text(s.as_str()).as_str(),
            ),
        }
    }
}

/// Where an artifact comes from.
#[derive(Clone, Debug, PartialEq, Eq)]
pub struct Provenance {
    pub source_url: String,
    pub ref_spec: RefSpec,
    /// What the reference stood for when it was looked up.
    pub resolved_revision: String,
    pub fetched_at: Timestamp,
}

impl Provenance {
    pub fn new(source_url: &str, ref_spec: RefSpec, resolved_revision: &str, fetched_at: Timestamp) -> (r:
        Self)
        ensures
            r.source_url@ == source_url@,
            r.ref_spec == ref_spec,
            r.resolved_revision@ == resolved_revision@,
            r.fetched_at == fetched_at,
    {
        Provenance {
            source_url: source_url.to_owned(),
            ref_spec,
            resolved_revision: resolved_revision.to_owned(),
            fetched_at,
        }
    }
}

/// Contents with their digest and where they come from.
#[derive(Clone, Debug, PartialEq, Eq)]
pub struct Artifact<T> {
    pub digest: ArtifactDigest,
    pub provenance: Provenance,
    pub payload: T,
}

/// What was fetched is not from the future and not older than the limit. A
/// limit of more milliseconds than 63 bits can hold is no limit.
pub open spec fn fresh(fetched: Timestamp, limit: Span, now: Timestamp) -> bool {
    fetched.total() <= now.total() && (limit.total() > i64::MAX * 1_000_000 || now.total()
        - fetched.total() <= limit.total())
}

impl<T> Artifact<T> {
    pub fn new(digest: ArtifactDigest, provenance: Provenance, payload: T) -> (r: Self)
        ensures
            r == (Artifact { digest, provenance, payload }),
    {
        Artifact { digest, provenance, payload }
    }

    /// Whether the artifact is recent enough; see [`fresh`].
    pub fn is_fresh(&self, age_limit: Span, now: Timestamp) -> (r: bool)
        ensures
            r == fresh(self.provenance.fetched_at, age_limit, now),
    {
        let fetched: i128 = self.provenance.fetched_at.total_nanos();
        let present: i128 = now.total_nanos();
        if fetched > present {
            return false;
        }
        let limit: i128 = age_limit.total_nanos();
        if limit > i64::MAX as i128 * 1_000_000 {
            return true;
        }
        present - fetched <= limit
    }

    /// Whether two artifacts have the same contents, wherever they come from.
    pub fn content_eq<U>(&self, other: &Artifact<U>) -> (r: bool)
        ensures
            r == (self.digest@ == other.digest@),
    {
        self.digest.same_as(&other.digest)
    }
}

/// What is fresh stays fresh under a longer limit and was fresh at an earlier
/// time, as long as it had been fetched by then.
pub proof fn law_fresh_is_monotone(fetched: Timestamp, a: Span, b: Span, now: Timestamp, earlier: Timestamp)
    requires
        fresh(fetched, a, now),
        a.total() <= b.total(),
        fetched.total() <= earlier.total() <= now.total(),
    ensures
        fresh(fetched, b, now),
        fresh(fetched, a, earlier),
{
}

/// An artifact is fresh from the moment it was fetched until its time is up,
/// that moment included; before it was fetched it is not.
pub proof fn law_fresh_until_its_time_is_up(fetched: Timestamp, limit: Span, now: Timestamp)
    ensures
        now.total() < fetched.total() ==> !fresh(fetched, limit, now),
        limit.total() <= i64::MAX * 1_000_000 ==> (fresh(fetched, limit, now) <==> fetched.total()
            <= now.total() <= fetched.total() + limit.total()),
        limit.total() > i64::MAX * 1_000_000 && fetched.total() <= now.total() ==> fresh(
            fetched,
            limit,
            now,
        ),
{
}

/// A digest in hexadecimal has two characters for each byte.
pub proof fn law_digest_lengths()
    ensures
        digest_len(DigestAlgo::Blake3) == 2 * 32,
        digest_len(DigestAlgo::Sha256) == 2 * 32,
        digest_len(DigestAlgo::Sha512) == 2 * 64,
{
}

/// A digest in words is cut at its colon into the algorithm and the digits.
pub proof fn law_digests_in_words(d: DigestV)
    ensures
        text::cut(oci_text(d), ':') == Some((algo_name(d.algo), d.hex)),
{
    reveal_strlit(":");
    reveal_strlit("blake3");
    reveal_strlit("sha256");
    reveal_strlit("sha512");
    let a = algo_name(d.algo);
    assert(":"@ =~= seq![':']);
    assert(!a.contains(':'));
    text::law_cut_at_the_first(a, ':', d.hex);
}

} // verus!
