//! URL canonicalization: strict parsing, fragment and path normalization,
//! and validation of the fragment's JSON-Pointer escape grammar.

use std::cell::Cell;
use url::Url;
use vstd::prelude::*;

verus! {

use RawUrlFailure::{Parse, Violation};

/// The structural parse failures that strict URL parsing can report.
#[derive(Clone, Copy, Debug, PartialEq, Eq, Structural)]
pub enum ParseErrorKind {
    EmptyHost,
    IdnaError,
    InvalidPort,
    InvalidIpv4Address,
    InvalidIpv6Address,
    InvalidDomainCharacter,
    RelativeUrlWithoutBase,
    RelativeUrlWithCannotBeABaseBase,
    SetHostOnCannotBeABaseUrl,
    Overflow,
    /// A failure added to the parser after this library was written.
    Other,
}

/// The syntax anomalies that strict URL parsing can report even on inputs
/// it would otherwise accept leniently.
#[derive(Clone, Copy, Debug, PartialEq, Eq, Structural)]
pub enum SyntaxViolationKind {
    Backslash,
    C0SpaceIgnored,
    EmbeddedCredentials,
    ExpectedDoubleSlash,
    ExpectedFileDoubleSlash,
    FileWithHostAndWindowsDrive,
    NonUrlCodePoint,
    NullInFragment,
    PercentDecode,
    TabOrNewlineIgnored,
    UnencodedAtSign,
    /// An anomaly added to the parser after this library was written.
    Other,
}

/// Why a raw URL string was rejected by canonicalization.
#[derive(Clone, Debug, PartialEq)]
pub enum UrlError {
    /// The parser rejected the input outright.
    ParseError(ParseErrorKind),
    /// The parser reported a syntax anomaly; the first one reported wins.
    SyntaxViolation(SyntaxViolationKind),
    /// Fragment addressing failed: during canonicalization the payload is
    /// the offending one- or two-character escape substring; during
    /// extraction it names the fragment and the document's JSON text.
    JsonFragmentError(String),
}

/// The components of a successfully parsed URL, as the parser reports them,
/// before any normalization.
pub struct RawUrlParts {
    pub scheme: String,
    pub has_authority: bool,
    pub authority: String,
    pub path: String,
    pub query: Option<String>,
    pub fragment: Option<String>,
}

/// Mathematical image of [`RawUrlParts`].
pub struct UrlPartsView {
    pub scheme: Seq<char>,
    pub has_authority: bool,
    pub authority: Seq<char>,
    pub path: Seq<char>,
    pub query: Option<Seq<char>>,
    pub fragment: Option<Seq<char>>,
}

impl View for RawUrlParts {
    type V = UrlPartsView;

    open spec fn view(&self) -> UrlPartsView {
        UrlPartsView {
            scheme: self.scheme@,
            has_authority: self.has_authority,
            authority: self.authority@,
            path: self.path@,
            query: match self.query {
                Some(q) => Some(q@),
                None => None,
            },
            fragment: match self.fragment {
                Some(f) => Some(f@),
                None => None,
            },
        }
    }
}

/// How strict parsing can fail, already classified into the library's kinds.
#[derive(Clone, Copy, Debug, PartialEq, Eq, Structural)]
pub enum RawUrlFailure {
    Parse(ParseErrorKind),
    Violation(SyntaxViolationKind),
}

/// What strict parsing of a URL string yields, at the specification level.
pub enum UrlParseView {
    /// The parser accepted the input and reported these components.
    Parts(UrlPartsView),
    /// The parser rejected the input with this kind of failure.
    ParseFailure(ParseErrorKind),
    /// The parser reported a syntax anomaly of this kind.
    ViolationFailure(SyntaxViolationKind),
}

/// The outcome of strict URL parsing as a function of the input string alone:
/// the parser is deterministic, so the same string always parses the same way.
pub uninterp spec fn url_parse(s: Seq<char>) -> UrlParseView;

#[verifier::external_type_specification]
#[verifier::external_body]
pub struct ExUrlParseError(url::ParseError);

#[verifier::external_type_specification]
#[verifier::external_body]
pub struct ExUrlSyntaxViolation(url::SyntaxViolation);

/// Relies on `url::Url::parse` through `Url::options` with a
/// syntax-violation callback: parsing is deterministic over the input
/// string; the components are reported by `scheme`, `has_authority`,
/// `authority`, `path`, `query` and `fragment`; a structural failure is
/// reported as a parse failure and the first syntax violation, if any, is
/// kept, each classified into the library's kind of the same name by the
/// helpers below.
#[verifier::external_body]
fn parse_url_components(raw: &str) -> (r: Result<RawUrlParts, RawUrlFailure>)
    ensures
        match r {
            Ok(p) => url_parse(raw@) == UrlParseView::Parts(p@),
            Err(RawUrlFailure::Parse(k)) => url_parse(raw@) == UrlParseView::ParseFailure(k),
            Err(RawUrlFailure::Violation(k)) => url_parse(raw@) == UrlParseView::ViolationFailure(
                k,
            ),
        },
{
    let first = Cell::new(None);
    let report = |v| first.set(first.get().or(Some(v)));
    match (Url::options().syntax_violation_callback(Some(&report)).parse(raw), first.get()) {
        (Err(e), _) => Err(Parse(classify_parse_error(e))),
        (Ok(_), Some(v)) => Err(Violation(classify_violation(v))),
        (Ok(u), None) => Ok(RawUrlParts {
            scheme: u.scheme().into(),
            has_authority: u.has_authority(),
            authority: u.authority().into(),
            path: u.path().into(),
            query: u.query().map(str::to_string),
            fragment: u.fragment().map(str::to_string),
        }),
    }
}

/// Relies on `url::ParseError`: tells its variants apart, mapping each to
/// the library's kind of the same name.
#[verifier::external_body]
fn classify_parse_error(e: url::ParseError) -> ParseErrorKind {
    match e {
        url::ParseError::EmptyHost => ParseErrorKind::EmptyHost,
        url::ParseError::IdnaError => ParseErrorKind::IdnaError,
        url::ParseError::InvalidPort => ParseErrorKind::InvalidPort,
        url::ParseError::InvalidIpv4Address => ParseErrorKind::InvalidIpv4Address,
        url::ParseError::InvalidIpv6Address => ParseErrorKind::InvalidIpv6Address,
        url::ParseError::InvalidDomainCharacter => ParseErrorKind::InvalidDomainCharacter,
        url::ParseError::RelativeUrlWithoutBase => ParseErrorKind::RelativeUrlWithoutBase,
        url::ParseError::RelativeUrlWithCannotBeABaseBase => ParseErrorKind::RelativeUrlWithCannotBeABaseBase,
        url::ParseError::SetHostOnCannotBeABaseUrl => ParseErrorKind::SetHostOnCannotBeABaseUrl,
        url::ParseError::Overflow => ParseErrorKind::Overflow,
        _ => ParseErrorKind::Other,
    }
}

/// Relies on `url::SyntaxViolation`: tells its variants apart, mapping each
/// to the library's kind of the same name.
#[verifier::external_body]
fn classify_violation(v: url::SyntaxViolation) -> SyntaxViolationKind {
    match v {
        url::SyntaxViolation::Backslash => SyntaxViolationKind::Backslash,
        url::SyntaxViolation::C0SpaceIgnored => SyntaxViolationKind::C0SpaceIgnored,
        url::SyntaxViolation::EmbeddedCredentials => SyntaxViolationKind::EmbeddedCredentials,
        url::SyntaxViolation::ExpectedDoubleSlash => SyntaxViolationKind::ExpectedDoubleSlash,
        url::SyntaxViolation::ExpectedFileDoubleSlash => SyntaxViolationKind::ExpectedFileDoubleSlash,
        url::SyntaxViolation::FileWithHostAndWindowsDrive => SyntaxViolationKind::FileWithHostAndWindowsDrive,
        url::SyntaxViolation::NonUrlCodePoint => SyntaxViolationKind::NonUrlCodePoint,
        url::SyntaxViolation::NullInFragment => SyntaxViolationKind::NullInFragment,
        url::SyntaxViolation::PercentDecode => SyntaxViolationKind::PercentDecode,
        url::SyntaxViolation::TabOrNewlineIgnored => SyntaxViolationKind::TabOrNewlineIgnored,
        url::SyntaxViolation::UnencodedAtSign => SyntaxViolationKind::UnencodedAtSign,
        _ => SyntaxViolationKind::Other,
    }
}

/// The fragment with every trailing `/` removed.
pub open spec fn strip_trailing_slashes(s: Seq<char>) -> Seq<char>
    decreases s.len(),
{
    if s.len() > 0 && s[s.len() - 1] == '/' {
        strip_trailing_slashes(s.drop_last())
    } else {
        s
    }
}

/// The canonical form of a parser-reported fragment: trailing `/` stripped;
/// empty becomes `/`; a missing leading `/` is prepended.
pub open spec fn normal_fragment(f: Option<Seq<char>>) -> Seq<char> {
    let raw = match f {
        Some(s) => s,
        None => Seq::<char>::empty(),
    };
    let stripped = strip_trailing_slashes(raw);
    if stripped.len() == 0 {
        seq!['/']
    } else if stripped[0] == '/' {
        stripped
    } else {
        seq!['/'] + stripped
    }
}

/// The canonical form of a parser-reported path: empty becomes `/`.
pub open spec fn normal_path(p: Seq<char>) -> Seq<char> {
    if p.len() == 0 {
        seq!['/']
    } else {
        p
    }
}

/// The first offending escape substring at or after position `i`: a `~` must
/// be followed by `0` or `1`; a `~` with any other follower yields that
/// two-character substring, a trailing `~` yields `~` alone.
pub open spec fn fragment_escape_error_from(f: Seq<char>, i: int) -> Option<Seq<char>>
    decreases f.len() - i,
{
    if i < 0 || i >= f.len() {
        None
    } else if f[i] == '~' {
        if i + 1 >= f.len() {
            Some(f.subrange(i, i + 1))
        } else if f[i + 1] == '0' || f[i + 1] == '1' {
            fragment_escape_error_from(f, i + 2)
        } else {
            Some(f.subrange(i, i + 2))
        }
    } else {
        fragment_escape_error_from(f, i + 1)
    }
}

/// The first offending escape substring of a fragment, if any.
pub open spec fn fragment_escape_error(f: Seq<char>) -> Option<Seq<char>> {
    fragment_escape_error_from(f, 0)
}

proof fn lemma_strip_is_take(s: Seq<char>, k: int)
    requires
        0 <= k <= s.len(),
        forall|j: int| k <= j < s.len() ==> s[j] == '/',
        k == 0 || s[k - 1] != '/',
    ensures
        strip_trailing_slashes(s) == s.subrange(0, k),
    decreases s.len(),
{
    if s.len() == 0 {
        assert(s =~= s.subrange(0, 0));
    } else if s[s.len() - 1] == '/' {
        assert(k < s.len());
        lemma_strip_is_take(s.drop_last(), k);
        assert(s.drop_last().subrange(0, k) =~= s.subrange(0, k));
    } else {
        assert(k == s.len());
        assert(s =~= s.subrange(0, k));
    }
}

proof fn lemma_strip_no_trailing_slash(s: Seq<char>)
    ensures
        strip_trailing_slashes(s).len() > 0 ==> strip_trailing_slashes(s)[strip_trailing_slashes(
            s,
        ).len() - 1] != '/',
        strip_trailing_slashes(s).len() <= s.len(),
        strip_trailing_slashes(s) == s.subrange(0, strip_trailing_slashes(s).len() as int),
    decreases s.len(),
{
    if s.len() > 0 && s[s.len() - 1] == '/' {
        lemma_strip_no_trailing_slash(s.drop_last());
        assert(s.drop_last().subrange(0, strip_trailing_slashes(s).len() as int) =~= s.subrange(
            0,
            strip_trailing_slashes(s).len() as int,
        ));
    } else {
        assert(s =~= s.subrange(0, s.len() as int));
    }
}

/// A canonicalized URL: resource identity (scheme, authority, path) plus a
/// normalized fragment that always starts with `/` (`/` alone addresses the
/// whole document).
#[derive(Debug, Clone, PartialEq, Eq, Hash)]
pub struct CanonicalUrl {
    pub scheme: String,
    pub has_authority: bool,
    pub authority: String,
    pub path: String,
    pub query: Option<String>,
    pub fragment: String,
}

/// Mathematical image of [`CanonicalUrl`].
pub struct CanonicalUrlView {
    pub scheme: Seq<char>,
    pub has_authority: bool,
    pub authority: Seq<char>,
    pub path: Seq<char>,
    pub query: Option<Seq<char>>,
    pub fragment: Seq<char>,
}

impl View for CanonicalUrl {
    type V = CanonicalUrlView;

    open spec fn view(&self) -> CanonicalUrlView {
        CanonicalUrlView {
            scheme: self.scheme@,
            has_authority: self.has_authority,
            authority: self.authority@,
            path: self.path@,
            query: match self.query {
                Some(q) => Some(q@),
                None => None,
            },
            fragment: self.fragment@,
        }
    }
}

impl CanonicalUrlView {
    /// What canonicalization guarantees of every URL it produces.
    pub open spec fn wf(self) -> bool {
        &&& self.fragment.len() >= 1
        &&& self.fragment[0] == '/'
        &&& (self.fragment.len() == 1 || self.fragment[self.fragment.len() - 1] != '/')
        &&& fragment_escape_error(self.fragment) is None
        &&& self.path.len() >= 1
    }

    /// The textual form: `scheme:[//authority]path[?query]#fragment`.
    pub open spec fn to_seq(self) -> Seq<char> {
        self.scheme + (if self.has_authority {
            seq![':', '/', '/'] + self.authority
        } else {
            seq![':']
        }) + self.path + (match self.query {
            Some(q) => seq!['?'] + q,
            None => Seq::<char>::empty(),
        }) + seq!['#'] + self.fragment
    }

    /// The same URL addressing the whole document: the cache key.
    pub open spec fn resource_key_spec(self) -> CanonicalUrlView {
        CanonicalUrlView { fragment: seq!['/'], ..self }
    }

    /// `true` when the fragment addresses the whole document.
    pub open spec fn is_resource_key(self) -> bool {
        self.fragment == seq!['/']
    }
}

/// Normalizing parsed components either yields a canonical URL or reports
/// the fragment's first offending escape substring.
pub open spec fn normalize_parts(p: UrlPartsView) -> Result<CanonicalUrlView, Seq<char>> {
    let frag = normal_fragment(p.fragment);
    match fragment_escape_error(frag) {
        Some(bad) => Err(bad),
        None => Ok(
            CanonicalUrlView {
                scheme: p.scheme,
                has_authority: p.has_authority,
                authority: p.authority,
                path: normal_path(p.path),
                query: p.query,
                fragment: frag,
            },
        ),
    }
}

/// What canonicalizing a raw URL string yields, at the specification level.
pub enum CanonicalOutcome {
    Canonical(CanonicalUrlView),
    BadParse(ParseErrorKind),
    BadSyntax(SyntaxViolationKind),
    BadFragment(Seq<char>),
}

/// Canonicalization as a function of the raw string alone.
pub open spec fn canonicalize_spec(s: Seq<char>) -> CanonicalOutcome {
    match url_parse(s) {
        UrlParseView::Parts(p) => match normalize_parts(p) {
            Ok(c) => CanonicalOutcome::Canonical(c),
            Err(bad) => CanonicalOutcome::BadFragment(bad),
        },
        UrlParseView::ParseFailure(k) => CanonicalOutcome::BadParse(k),
        UrlParseView::ViolationFailure(k) => CanonicalOutcome::BadSyntax(k),
    }
}

fn normalize_fragment(f: &Option<String>) -> (r: String)
    ensures
        r@ == normal_fragment(f.deep_view()),
{
    let s: &str = match f {
        Some(x) => x.as_str(),
        None => "",
    };
    proof {
        reveal_strlit("");
        assert(""@ =~= Seq::<char>::empty());
    }
    let n = s.unicode_len();
    let mut k = n;
    while k > 0 && s.get_char(k - 1) == '/'
        invariant
            k <= n,
            n == s@.len(),
            forall|j: int| k <= j < n ==> s@[j] == '/',
        decreases k,
    {
        k = k - 1;
    }
    proof {
        lemma_strip_is_take(s@, k as int);
    }
    let stripped = s.substring_char(0, k);
    if k == 0 {
        let r = String::from_str("/");
        proof {
            reveal_strlit("/");
            assert(r@ =~= seq!['/']);
        }
        r
    } else if stripped.get_char(0) == '/' {
        String::from_str(stripped)
    } else {
        let mut out = String::from_str("/");
        out.append(stripped);
        proof {
            reveal_strlit("/");
            assert(out@ =~= seq!['/'] + stripped@);
        }
        out
    }
}

fn find_escape_error(f: &str) -> (r: Option<String>)
    ensures
        match r {
            Some(b) => fragment_escape_error(f@) == Some(b@),
            None => fragment_escape_error(f@) is None,
        },
{
    let n = f.unicode_len();
    let mut i: usize = 0;
    while i < n
        invariant
            i <= n,
            n == f@.len(),
            fragment_escape_error(f@) == fragment_escape_error_from(f@, i as int),
        decreases n - i,
    {
        let c = f.get_char(i);
        if c == '~' {
            if i + 1 >= n {
                return Some(String::from_str(f.substring_char(i, i + 1)));
            }
            let d = f.get_char(i + 1);
            if d == '0' || d == '1' {
                i = i + 2;
            } else {
                return Some(String::from_str(f.substring_char(i, i + 2)));
            }
        } else {
            i = i + 1;
        }
    }
    None
}

proof fn lemma_normal_fragment_wf(f: Option<Seq<char>>)
    ensures
        normal_fragment(f).len() >= 1,
        normal_fragment(f)[0] == '/',
        normal_fragment(f).len() == 1 || normal_fragment(f)[normal_fragment(f).len() - 1] != '/',
{
    let raw = match f {
        Some(s) => s,
        None => Seq::<char>::empty(),
    };
    lemma_strip_no_trailing_slash(raw);
}

/// Canonicalizing a raw string that parses yields a well-formed canonical URL.
pub proof fn lemma_normalize_parts_wf(p: UrlPartsView)
    ensures
        normalize_parts(p) matches Ok(c) ==> c.wf(),
{
    lemma_normal_fragment_wf(p.fragment);
}

/// Canonicalize a raw URL string: parse it strictly, normalize the fragment
/// (trailing `/` stripped, empty becomes `/`, leading `/` ensured) and the
/// path (empty becomes `/`), and validate the fragment's escape grammar.
pub fn canonicalize(raw: &str) -> (r: Result<CanonicalUrl, UrlError>)
    ensures
        match r {
            Ok(c) => canonicalize_spec(raw@) == CanonicalOutcome::Canonical(c@) && c@.wf(),
            Err(UrlError::ParseError(k)) => canonicalize_spec(raw@) == CanonicalOutcome::BadParse(
                k,
            ),
            Err(UrlError::SyntaxViolation(k)) => canonicalize_spec(raw@)
                == CanonicalOutcome::BadSyntax(k),
            Err(UrlError::JsonFragmentError(b)) => canonicalize_spec(raw@)
                == CanonicalOutcome::BadFragment(b@),
        },
{
    match parse_url_components(raw) {
        Err(RawUrlFailure::Parse(k)) => Err(UrlError::ParseError(k)),
        Err(RawUrlFailure::Violation(k)) => Err(UrlError::SyntaxViolation(k)),
        Ok(parts) => {
            let frag = normalize_fragment(&parts.fragment);
            match find_escape_error(frag.as_str()) {
                Some(bad) => Err(UrlError::JsonFragmentError(bad)),
                None => {
                    proof {
                        lemma_normalize_parts_wf(parts@);
                    }
                    let path = if parts.path.as_str().is_empty() {
                        let p = String::from_str("/");
                        proof {
                            reveal_strlit("/");
                            assert(p@ =~= seq!['/']);
                        }
                        p
                    } else {
                        parts.path
                    };
                    Ok(
                        CanonicalUrl {
                            scheme: parts.scheme,
                            has_authority: parts.has_authority,
                            authority: parts.authority,
                            path,
                            query: parts.query,
                            fragment: frag,
                        },
                    )
                },
            }
        },
    }
}

impl CanonicalUrl {
    /// The same URL with the fragment forced to `/`: the cache key, so that
    /// caching is keyed on resource identity, not on the requested fragment.
    pub fn resource_key(&self) -> (r: CanonicalUrl)
        ensures
            r@ == self@.resource_key_spec(),
            r@.is_resource_key(),
            self@.wf() ==> r@.wf(),
    {
        let r = CanonicalUrl {
            scheme: self.scheme.clone(),
            has_authority: self.has_authority,
            authority: self.authority.clone(),
            path: self.path.clone(),
            query: match &self.query {
                Some(q) => Some(q.clone()),
                None => None,
            },
            fragment: String::from_str("/"),
        };
        proof {
            reveal_strlit("/");
            assert(r@.fragment =~= seq!['/']);
            assert(fragment_escape_error_from(r@.fragment, 1) is None);
            assert(fragment_escape_error(r@.fragment) is None);
        }
        r
    }

    /// The textual form `scheme:[//authority]path#fragment`.
    pub fn as_string(&self) -> (r: String)
        ensures
            r@ == self@.to_seq(),
    {
        let mut out = self.scheme.clone();
        if self.has_authority {
            out.append("://");
            out.append(self.authority.as_str());
        } else {
            out.append(":");
        }
        out.append(self.path.as_str());
        if let Some(q) = &self.query {
            out.append("?");
            out.append(q.as_str());
        }
        out.append("#");
        out.append(self.fragment.as_str());
        proof {
            reveal_strlit("://");
            reveal_strlit(":");
            reveal_strlit("?");
            reveal_strlit("#");
            assert(out@ =~= self@.to_seq());
        }
        out
    }

    /// The canonical fragment, always starting with `/`.
    pub fn fragment(&self) -> (r: &str)
        ensures
            r@ == self@.fragment,
    {
        self.fragment.as_str()
    }
}

/// Law: canonicalization is idempotent. The components of a canonical URL
/// normalize to themselves, so a second canonicalization — whose strict
/// parse reports exactly the canonical components — yields the same value.
pub proof fn lemma_normalize_idempotent(c: CanonicalUrlView)
    requires
        c.wf(),
    ensures
        normalize_parts(
            UrlPartsView {
                scheme: c.scheme,
                has_authority: c.has_authority,
                authority: c.authority,
                path: c.path,
                query: c.query,
                fragment: Some(c.fragment),
            },
        ) == Ok::<CanonicalUrlView, Seq<char>>(c),
{
    if c.fragment.len() == 1 {
        assert(c.fragment =~= seq!['/']);
        assert(c.fragment.drop_last() =~= Seq::<char>::empty());
        assert(strip_trailing_slashes(Seq::<char>::empty()) =~= Seq::<char>::empty());
        assert(strip_trailing_slashes(c.fragment) =~= Seq::<char>::empty());
        assert(normal_fragment(Some(c.fragment)) == seq!['/']);
    } else {
        assert(c.fragment[c.fragment.len() - 1] != '/');
        assert(strip_trailing_slashes(c.fragment) == c.fragment);
    }
}

/// Law: canonicalization is idempotent end to end. For any well-formed
/// canonical URL, whenever the strict parse of its textual form reports
/// exactly its components — which is the parser's serialize/parse round
/// trip — canonicalizing that textual form yields the same canonical URL.
pub proof fn lemma_canonicalize_idempotent(c: CanonicalUrlView)
    requires
        c.wf(),
    ensures
        url_parse(c.to_seq()) == UrlParseView::Parts(
            UrlPartsView {
                scheme: c.scheme,
                has_authority: c.has_authority,
                authority: c.authority,
                path: c.path,
                query: c.query,
                fragment: Some(c.fragment),
            },
        ) ==> canonicalize_spec(c.to_seq()) == CanonicalOutcome::Canonical(c),
{
    lemma_normalize_idempotent(c);
}

proof fn lemma_escape_error_from_facts(f: Seq<char>, i: int)
    requires
        0 <= i <= f.len(),
    ensures
        (fragment_escape_error_from(f, i) is None) <==> (forall|j: int|
            i <= j < f.len() && #[trigger] f[j] == '~' ==> j + 1 < f.len()
                && (f[j + 1] == '0' || f[j + 1] == '1')),
        fragment_escape_error_from(f, i) matches Some(b) ==> 1 <= b.len() <= 2 && b[0] == '~',
    decreases f.len() - i,
{
    if i < f.len() {
        if f[i] == '~' {
            if i + 1 < f.len() && (f[i + 1] == '0' || f[i + 1] == '1') {
                lemma_escape_error_from_facts(f, i + 2);
            }
        } else {
            lemma_escape_error_from_facts(f, i + 1);
        }
    }
}

/// Law: escape validation accepts a fragment exactly when every `~` in it
/// is immediately followed by `0` or `1`; and an invalid escape is reported
/// as the offending substring itself — one or two characters, starting with
/// `~`.
pub proof fn lemma_escape_error_characterization(f: Seq<char>)
    ensures
        (fragment_escape_error(f) is None) <==> (forall|j: int|
            0 <= j < f.len() && #[trigger] f[j] == '~' ==> j + 1 < f.len()
                && (f[j + 1] == '0' || f[j + 1] == '1')),
        fragment_escape_error(f) matches Some(b) ==> 1 <= b.len() <= 2 && b[0] == '~',
{
    lemma_escape_error_from_facts(f, 0);
}

/// Law: the cache key ignores the fragment — two canonical URLs that agree
/// on scheme, authority, path and query have the same resource key, and
/// taking the resource key twice changes nothing.
pub proof fn lemma_resource_key_ignores_fragment(a: CanonicalUrlView, b: CanonicalUrlView)
    requires
        a.scheme == b.scheme,
        a.has_authority == b.has_authority,
        a.authority == b.authority,
        a.path == b.path,
        a.query == b.query,
    ensures
        a.resource_key_spec() == b.resource_key_spec(),
        a.resource_key_spec().resource_key_spec() == a.resource_key_spec(),
{
}

} // verus!
