//! References into a repository, a registry or a store.
use vstd::prelude::*;
use crate::text;
use crate::text::cut;

verus! {

/// A reference: what it tracks, and the name of that.
#[derive(Debug, PartialEq, Eq)]
pub enum RefSpec {
    Branch(String),
    Tag(String),
    /// The latest tag in a range of versions.
    Semver(String),
    Commit(String),
    Name(String),
    Digest(String),
}

/// What a [`RefSpec`] holds.
#[verifier::ext_equal]
pub enum RefSpecV {
    Branch(Seq<char>),
    Tag(Seq<char>),
    Semver(Seq<char>),
    Commit(Seq<char>),
    Name(Seq<char>),
    Digest(Seq<char>),
}

impl View for RefSpec {
    type V = RefSpecV;

    open spec fn view(&self) -> RefSpecV {
        match self {
            RefSpec::Branch(s) => RefSpecV::Branch(s@),
            RefSpec::Tag(s) => RefSpecV::Tag(s@),
            RefSpec::Semver(s) => RefSpecV::Semver(s@),
            RefSpec::Commit(s) => RefSpecV::Commit(s@),
            RefSpec::Name(s) => RefSpecV::Name(s@),
            RefSpec::Digest(s) => RefSpecV::Digest(s@),
        }
    }
}

impl RefSpecV {
    /// The name that is tracked.
    pub open spec fn value(self) -> Seq<char> {
        match self {
            RefSpecV::Branch(s) => s,
            RefSpecV::Tag(s) => s,
            RefSpecV::Semver(s) => s,
            RefSpecV::Commit(s) => s,
            RefSpecV::Name(s) => s,
            RefSpecV::Digest(s) => s,
        }
    }

    /// What is tracked.
    pub open spec fn kind(self) -> Seq<char> {
        match self {
            RefSpecV::Branch(_) => "branch"@,
            RefSpecV::Tag(_) => "tag"@,
            RefSpecV::Semver(_) => "semver"@,
            RefSpecV::Commit(_) => "commit"@,
            RefSpecV::Name(_) => "name"@,
            RefSpecV::Digest(_) => "digest"@,
        }
    }

    /// `<kind>:<value>`.
    pub open spec fn text(self) -> Seq<char> {
        self.kind() + ":"@ + self.value()
    }

    /// What it names never changes.
    pub open spec fn immutable(self) -> bool {
        self is Commit || self is Digest
    }
}

impl RefSpec {
    /// Whether what it names never changes.
    pub fn is_immutable(&self) -> (r: bool)
        ensures
            r == self@.immutable(),
    {
        match self {
            RefSpec::Commit(_) | RefSpec::Digest(_) => true,
            _ => false,
        }
    }

    /// Whether what it names may change.
    pub fn is_floating(&self) -> (r: bool)
        ensures
            r == !self@.immutable(),
    {
        match self {
            RefSpec::Branch(_) | RefSpec::Semver(_) | RefSpec::Tag(_) | RefSpec::Name(_) => true,
            _ => false,
        }
    }

    /// The name that is tracked.
    pub fn value(&self) -> (r: &str)
        ensures
            r@ == self@.value(),
    {
        match self {
            RefSpec::Branch(s) => s.as_str(),
            RefSpec::Tag(s) => s.as_str(),
            RefSpec::Semver(s) => s.as_str(),
            RefSpec::Commit(s) => s.as_str(),
            RefSpec::Name(s) => s.as_str(),
            RefSpec::Digest(s) => s.as_str(),
        }
    }

    /// What is tracked.
    pub fn kind(&self) -> (r: &'static str)
        ensures
            r@ == self@.kind(),
    {
        match self {
            RefSpec::Branch(_) => "branch",
            RefSpec::Tag(_) => "tag",
            RefSpec::Semver(_) => "semver",
            RefSpec::Commit(_) => "commit",
            RefSpec::Name(_) => "name",
            RefSpec::Digest(_) => "digest",
        }
    }

    /// `<kind>:<value>`.
    pub fn text(&self) -> (r: String)
        ensures
            r@ == self@.text(),
    {
        text::join3(self.kind(), ":", self.value())
    }
}

impl Clone for RefSpec {
    fn clone(&self) -> (r: Self)
        ensures
            r@ == self@,
    {
        match self {
            RefSpec::Branch(s) => RefSpec::Branch(s.clone()),
            RefSpec::Tag(s) => RefSpec::Tag(s.clone()),
            RefSpec::Semver(s) => RefSpec::Semver(s.clone()),
            RefSpec::Commit(s) => RefSpec::Commit(s.clone()),
            RefSpec::Name(s) => RefSpec::Name(s.clone()),
            RefSpec::Digest(s) => RefSpec::Digest(s.clone()),
        }
    }
}

/// Why a text is no reference.
#[derive(Debug, PartialEq, Eq)]
pub enum RefSpecParseError {
    MissingSeparator(String),
    UnknownKind { kind: String, full: String },
    EmptyValue(String),
}

/// What a [`RefSpecParseError`] says.
#[verifier::ext_equal]
pub enum ParseErrorV {
    MissingSeparator(Seq<char>),
    UnknownKind { kind: Seq<char>, full: Seq<char> },
    EmptyValue(Seq<char>),
}

impl View for RefSpecParseError {
    type V = ParseErrorV;

    open spec fn view(&self) -> ParseErrorV {
        match self {
            RefSpecParseError::MissingSeparator(s) => ParseErrorV::MissingSeparator(s@),
            RefSpecParseError::UnknownKind { kind, full } => ParseErrorV::UnknownKind {
                kind: kind@,
                full: full@,
            },
            RefSpecParseError::EmptyValue(s) => ParseErrorV::EmptyValue(s@),
        }
    }
}

/// A parse error in words.
pub open spec fn parse_error_text(e: ParseErrorV) -> Seq<char> {
    match e {
        ParseErrorV::MissingSeparator(s) => "ref string missing 'kind:value' separator: "@
            + text::str_debug(s),
        ParseErrorV::UnknownKind { kind, full } => "unknown ref kind "@ + text::str_debug(kind) + " in "@
            + text::str_debug(full) + "; expected one of branch/tag/semver/commit/name/digest"@,
        ParseErrorV::EmptyValue(s) => "ref value cannot be empty in "@ + text::str_debug(s),
    }
}

impl RefSpecParseError {
    /// The error in words.
    pub fn message(&self) -> (r: String)
        ensures
            r@ == parse_error_text(self@),
    {
        match self {
            RefSpecParseError::MissingSeparator(s) => text::join2(
                "ref string missing 'kind:value' separator: ",
                text::debug_text(s.as_str()).as_str(),
            ),
            RefSpecParseError::UnknownKind { kind, full } => {
                let a = text::join4(
                    "unknown ref kind ",
                    text::debug_text(kind.as_str()).as_str(),
                    " in ",
                    text::debug_text(full.as_str()).as_str(),
                );
                text::join2(
                    a.as_str(),
                    "; expected one of branch/tag/semver/commit/name/digest",
                )
            },
            RefSpecParseError::EmptyValue(s) => text::join2(
                "ref value cannot be empty in ",
                text::debug_text(s.as_str()).as_str(),
            ),
        }
    }
}

/// The reference that a text of the form `<kind>:<value>` stands for. A
/// missing separator is reported before an empty value, and that before an
/// unknown kind.
pub open spec fn parsed(s: Seq<char>) -> Result<RefSpecV, ParseErrorV> {
    match cut(s, ':') {
        None => Err(ParseErrorV::MissingSeparator(s)),
        Some((kind, value)) => if value.len() == 0 {
            Err(ParseErrorV::EmptyValue(s))
        } else if kind == "branch"@ {
            Ok(RefSpecV::Branch(value))
        } else if kind == "tag"@ {
            Ok(RefSpecV::Tag(value))
        } else if kind == "semver"@ {
            Ok(RefSpecV::Semver(value))
        } else if kind == "commit"@ {
            Ok(RefSpecV::Commit(value))
        } else if kind == "name"@ {
            Ok(RefSpecV::Name(value))
        } else if kind == "digest"@ {
            Ok(RefSpecV::Digest(value))
        } else {
            Err(ParseErrorV::UnknownKind { kind, full: s })
        },
    }
}

impl RefSpec {
    /// Read `<kind>:<value>`; see [`parsed`].
    pub fn parse(s: &str) -> (r: Result<RefSpec, RefSpecParseError>)
        ensures
            match r {
                Ok(x) => parsed(s@) == Ok::<RefSpecV, ParseErrorV>(x@),
                Err(e) => parsed(s@) == Err::<RefSpecV, ParseErrorV>(e@),
            },
    {
        match text::split_once(s, ':') {
            None => Err(RefSpecParseError::MissingSeparator(s.to_owned())),
            Some((kind, value)) => {
                if text::is_empty(value.as_str()) {
                    return Err(RefSpecParseError::EmptyValue(s.to_owned()));
                }
                if text::same(kind.as_str(), "branch") {
                    Ok(RefSpec::Branch(value))
                } else if text::same(kind.as_str(), "tag") {
                    Ok(RefSpec::Tag(value))
                } else if text::same(kind.as_str(), "semver") {
                    Ok(RefSpec::Semver(value))
                } else if text::same(kind.as_str(), "commit") {
                    Ok(RefSpec::Commit(value))
                } else if text::same(kind.as_str(), "name") {
                    Ok(RefSpec::Name(value))
                } else if text::same(kind.as_str(), "digest") {
                    Ok(RefSpec::Digest(value))
                } else {
                    Err(RefSpecParseError::UnknownKind { kind, full: s.to_owned() })
                }
            },
        }
    }
}

impl std::str::FromStr for RefSpec {
    type Err = RefSpecParseError;

    /// Read `<kind>:<value>`; see [`parsed`].
    fn from_str(s: &str) -> (r: Result<Self, RefSpecParseError>)
        ensures
            match r {
                Ok(x) => parsed(s@) == Ok::<RefSpecV, ParseErrorV>(x@),
                Err(e) => parsed(s@) == Err::<RefSpecV, ParseErrorV>(e@),
            },
    {
        RefSpec::parse(s)
    }
}

/// A reference whose value is not empty comes back from its text.
pub proof fn law_text_parses_back(r: RefSpecV)
    requires
        r.value().len() > 0,
    ensures
        parsed(r.text()) == Ok::<RefSpecV, ParseErrorV>(r),
{
    reveal_strlit("branch");
    reveal_strlit("tag");
    reveal_strlit("semver");
    reveal_strlit("commit");
    reveal_strlit("name");
    reveal_strlit("digest");
    reveal_strlit(":");
    let k = r.kind();
    let s = r.text();
    assert forall|j: int| 0 <= j < k.len() implies s[j] != ':' by {
        assert(s[j] == k[j]);
    }
    assert(s[k.len() as int] == ':');
    text::lemma_first_at(s, ':', k.len() as int);
    assert(s.take(k.len() as int) =~= k);
    assert(s.skip(k.len() as int + 1) =~= r.value());
    assert("branch"@[0] == 'b' && "semver"@[0] == 's' && "commit"@[0] == 'c' && "digest"@[0] == 'd'
        && "tag"@[0] == 't' && "name"@[0] == 'n');
}

/// A reference that was read has the text that it was read from.
pub proof fn law_parsed_text_is_the_text(s: Seq<char>)
    ensures
        match parsed(s) {
            Ok(r) => r.text() == s && r.value().len() > 0,
            Err(_) => true,
        },
{
    if parsed(s) is Ok {
        let i = text::first_at(s, ':');
        text::lemma_first_at_is(s, ':');
        reveal_strlit(":");
        assert(s.take(i) + ":"@ + s.skip(i + 1) =~= s);
    }
}

/// A reference is either immutable or floating.
pub proof fn law_immutable_or_floating(r: RefSpecV)
    ensures
        r.immutable() <==> !(r is Branch || r is Semver || r is Tag || r is Name),
{
}

/// A text is cut at its first colon into kind and value. Without a colon it
/// is refused, with nothing behind it too, and with a kind that is none of the
/// six too.
pub proof fn law_what_is_refused(kind: Seq<char>, value: Seq<char>)
    requires
        !kind.contains(':'),
    ensures
        parsed(kind) == Err::<RefSpecV, ParseErrorV>(ParseErrorV::MissingSeparator(kind)),
        value.len() == 0 ==> parsed(kind + seq![':'] + value) == Err::<RefSpecV, ParseErrorV>(
            ParseErrorV::EmptyValue(kind + seq![':'] + value),
        ),
        value.len() > 0 && kind != "branch"@ && kind != "tag"@ && kind != "semver"@ && kind
            != "commit"@ && kind != "name"@ && kind != "digest"@ ==> parsed(
            kind + seq![':'] + value,
        ) == Err::<RefSpecV, ParseErrorV>(
            ParseErrorV::UnknownKind { kind, full: kind + seq![':'] + value },
        ),
        value.len() > 0 && parsed(kind + seq![':'] + value) is Ok ==> parsed(
            kind + seq![':'] + value,
        )->Ok_0.value() == value && parsed(kind + seq![':'] + value)->Ok_0.kind() == kind,
{
    text::law_cut_at_the_first(kind, ':', value);
}

} // verus!
