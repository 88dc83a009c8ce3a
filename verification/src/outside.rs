//! The calls this library makes into other crates and into parts of std that
//! have no specification of their own. Each item states what its contract
//! claims of the called code; nothing here is proved.

use std::fmt::Write;

use vstd::prelude::*;

verus! {

/// The Levenshtein edit distance between two character sequences: the least
/// number of single-character insertions, deletions and substitutions that
/// turn `a` into `b`.
pub open spec fn edit_distance(a: Seq<char>, b: Seq<char>) -> nat
    decreases a.len() + b.len(),
{
    if a.len() == 0 {
        b.len()
    } else if b.len() == 0 {
        a.len()
    } else {
        let substitute = edit_distance(a.drop_last(), b.drop_last()) + if a.last() == b.last() {
            0nat
        } else {
            1nat
        };
        let delete = edit_distance(a.drop_last(), b) + 1;
        let insert = edit_distance(a, b.drop_last()) + 1;
        if substitute <= delete && substitute <= insert {
            substitute
        } else if delete <= insert {
            delete
        } else {
            insert
        }
    }
}

/// Calls `levenshtein::levenshtein`, which computes the Levenshtein
/// distance over the characters (not the bytes) of its arguments; the
/// contract claims that its result is that distance.
#[verifier::external_body]
pub(crate) fn levenshtein_distance(a: &str, b: &str) -> (r: usize)
    ensures
        r == edit_distance(a@, b@),
{
    levenshtein::levenshtein(a, b)
}

/// The smallest nanosecond count since the Unix epoch that this library
/// hands to `jiff::Timestamp::from_nanosecond`; every value from here to
/// `MAX_TIMESTAMP_NANOS` is inside jiff's timestamp range.
pub const MIN_TIMESTAMP_NANOS: i128 = -377705023201_000_000_000i128;

/// The largest such nanosecond count.
pub const MAX_TIMESTAMP_NANOS: i128 = 253402207200_000_000_000i128;

/// The minutes field of the span `jiff`'s `Timestamp - Timestamp` yields
/// for two instants: always zero, since that subtraction measures the
/// difference in seconds at most (its largest unit is the second).
pub open spec fn span_minutes(later: i128, earlier: i128) -> i64 {
    0
}

/// Calls `jiff`'s `Timestamp - Timestamp` on the two instants and reads the
/// minutes field of the resulting span with `Span::get_minutes`. `jiff`
/// documents that this subtraction uses the default configuration, with
/// seconds as the largest unit and no rounding, so the minutes field is
/// zero; the conversions from nanoseconds cannot fail inside the required
/// range.
#[verifier::external_body]
pub(crate) fn timestamp_minutes_between(later: i128, earlier: i128) -> (r: i64)
    requires
        MIN_TIMESTAMP_NANOS <= later <= MAX_TIMESTAMP_NANOS,
        MIN_TIMESTAMP_NANOS <= earlier <= MAX_TIMESTAMP_NANOS,
    ensures
        r == span_minutes(later, earlier),
{
    let later = jiff::Timestamp::from_nanosecond(later).unwrap();
    let earlier = jiff::Timestamp::from_nanosecond(earlier).unwrap();
    (later - earlier).get_minutes()
}

/// The text `jiff`'s friendly `SpanPrinter`, with the human-time
/// designators, prints for the span `Timestamp - Timestamp` from `then` to
/// `now` (both in nanoseconds since the Unix epoch).
pub uninterp spec fn human_time_between(now: i128, then: i128) -> Seq<char>;

/// Prints the span from `then` to `now` with `jiff`'s friendly printer and
/// its human-time designators. The contract names the text; the
/// conversions from nanoseconds cannot fail inside the required range, and
/// neither can `Timestamp - Timestamp` or printing to a `String`.
#[verifier::external_body]
pub(crate) fn human_time_text(now: i128, then: i128) -> (r: String)
    requires
        MIN_TIMESTAMP_NANOS <= now <= MAX_TIMESTAMP_NANOS,
        MIN_TIMESTAMP_NANOS <= then <= MAX_TIMESTAMP_NANOS,
    ensures
        r@ == human_time_between(now, then),
{
    let now = jiff::Timestamp::from_nanosecond(now).unwrap();
    let then = jiff::Timestamp::from_nanosecond(then).unwrap();
    let printer = jiff::fmt::friendly::SpanPrinter::new().designator(jiff::fmt::friendly::Designator::HumanTime);
    printer.span_to_string(&(now - then))
}

/// What `jiff::Timestamp::strftime` writes for the instant (in nanoseconds
/// since the Unix epoch, rendered in UTC) and the format; `None` when the
/// format cannot be rendered.
pub uninterp spec fn strftime_text(t: i128, format: Seq<char>) -> Option<Seq<char>>;

/// Renders an instant with `jiff::Timestamp::strftime`; a rendering error
/// gives `None`. The contract names the result.
#[verifier::external_body]
pub(crate) fn format_instant(t: i128, format: &str) -> (r: Option<String>)
    requires
        MIN_TIMESTAMP_NANOS <= t <= MAX_TIMESTAMP_NANOS,
    ensures
        match r {
            Some(text) => strftime_text(t, format@) == Some(text@),
            None => strftime_text(t, format@) is None,
        },
{
    let ts = jiff::Timestamp::from_nanosecond(t).unwrap();
    let mut out = String::new();
    match write!(out, "{}", ts.strftime(format)) {
        Ok(()) => Some(out),
        Err(_) => None,
    }
}

/// The primary language subtag of the tag as `language_tags::LanguageTag`
/// parses it; `None` when it refuses the tag.
pub uninterp spec fn primary_language_of(tag: Seq<char>) -> Option<Seq<char>>;

/// Parses a language tag with `language_tags::LanguageTag::parse` and
/// returns its primary language subtag; the parse error is dropped. The
/// contract names the result.
#[verifier::external_body]
pub(crate) fn primary_language(tag: &str) -> (r: Option<String>)
    ensures
        match r {
            Some(l) => primary_language_of(tag@) == Some(l@),
            None => primary_language_of(tag@) is None,
        },
{
    match language_tags::LanguageTag::parse(tag) {
        Ok(t) => Some(t.primary_language().to_owned()),
        Err(_) => None,
    }
}

/// The text `humansize::format_size` gives for a number of bytes with its
/// `DECIMAL` options (powers of 1000, "kB", "MB", ...).
pub uninterp spec fn decimal_size(bytes: u64) -> Seq<char>;

/// Calls `humansize::format_size` with `humansize::DECIMAL`; the contract
/// names the result.
#[verifier::external_body]
pub(crate) fn format_decimal_size(bytes: u64) -> (r: String)
    ensures
        r@ == decimal_size(bytes),
{
    humansize::format_size(bytes, humansize::DECIMAL)
}

#[verifier::external_type_specification]
#[verifier::external_body]
pub struct ExJsonValue(serde_json::Value);

/// Whether `serde_json::from_slice` into a `serde_json::Value` accepts the
/// bytes as one JSON document.
pub uninterp spec fn json_accepts(bytes: Seq<u8>) -> bool;

/// The text of the error `serde_json::from_slice` reports for bytes it
/// refuses.
pub uninterp spec fn json_error_text(bytes: Seq<u8>) -> Seq<char>;

/// Calls `serde_json::from_slice` to parse the bytes into a
/// `serde_json::Value`; the parse depends on the bytes alone. The contract
/// names when it succeeds and the text of its error; the parsed value, an
/// opaque outside type, is not described.
#[verifier::external_body]
pub fn parse_json(bytes: &[u8]) -> (r: Result<serde_json::Value, String>)
    ensures
        r is Ok <==> json_accepts(bytes@),
        r matches Err(e) ==> e@ == json_error_text(bytes@),
{
    match serde_json::from_slice::<serde_json::Value>(bytes) {
        Ok(v) => Ok(v),
        Err(e) => Err(e.to_string()),
    }
}

#[verifier::external_type_specification]
#[verifier::external_body]
pub struct ExSemverVersion(semver::Version);

/// Whether `semver::Version::parse` accepts the text.
pub uninterp spec fn semver_accepts(text: Seq<char>) -> bool;

/// The text of the error `semver::Version::parse` reports for the text
/// (as its `Display` renders it).
pub uninterp spec fn semver_error_text(text: Seq<char>) -> Seq<char>;

/// Whether the version parsed from `a` orders before the one parsed from `b`
/// under `semver::Version`'s order (major, minor, patch, pre-release, then
/// build metadata).
pub uninterp spec fn semver_precedes(a: Seq<char>, b: Seq<char>) -> bool;

/// Calls `semver::Version::parse`; the error is rendered with `Display`.
/// The contract names whether the text is accepted and the error's text.
#[verifier::external_body]
fn parse_semver(text: &str) -> (r: Result<semver::Version, String>)
    ensures
        r is Ok <==> semver_accepts(text@),
        r matches Err(m) ==> m@ == semver_error_text(text@),
{
    match semver::Version::parse(text) {
        Ok(v) => Ok(v),
        Err(e) => Err(e.to_string()),
    }
}

/// A semantic version together with the text it was parsed from; only
/// `ReleaseVersion::parse` makes one.
pub struct ReleaseVersion {
    text: String,
    version: semver::Version,
}

impl ReleaseVersion {
    /// The text the version was parsed from.
    pub closed spec fn spec_text(&self) -> Seq<char> {
        self.text@
    }

    /// Parses a semantic version such as "0.1.40".
    pub fn parse(text: &str) -> (r: Result<ReleaseVersion, String>)
        ensures
            r is Ok <==> semver_accepts(text@),
            match r {
                Ok(v) => v.spec_text() == text@,
                Err(m) => m@ == semver_error_text(text@),
            },
    {
        match parse_semver(text) {
            Ok(version) => Ok(ReleaseVersion { text: text.to_owned(), version }),
            Err(m) => Err(m),
        }
    }

    /// The text the version was parsed from.
    pub fn text(&self) -> (r: &str)
        ensures
            r@ == self.spec_text(),
    {
        self.text.as_str()
    }
}

/// Compares the two versions with `semver::Version`'s `<`. The contract
/// claims the result is the order of the versions parsed from the two texts,
/// which holds because each `ReleaseVersion` holds the version parsed from
/// its own text.
#[verifier::external_body]
pub(crate) fn release_precedes(a: &ReleaseVersion, b: &ReleaseVersion) -> (r: bool)
    ensures
        r == semver_precedes(a.spec_text(), b.spec_text()),
{
    a.version < b.version
}

/// The lower-case form of a text, as `str::to_lowercase` gives it (full
/// Unicode case mapping, independent of any locale).
pub uninterp spec fn lowercase(s: Seq<char>) -> Seq<char>;

/// Calls `str::to_lowercase`; the contract names its result.
#[verifier::external_body]
pub(crate) fn to_lowercase(s: &str) -> (r: String)
    ensures
        r@ == lowercase(s@),
{
    s.to_lowercase()
}

/// The upper-case form of a text, as `str::to_uppercase` gives it (full
/// Unicode case mapping, independent of any locale).
pub uninterp spec fn uppercase(s: Seq<char>) -> Seq<char>;

/// Calls `str::to_uppercase`; the contract names its result.
#[verifier::external_body]
pub(crate) fn to_uppercase(s: &str) -> (r: String)
    ensures
        r@ == uppercase(s@),
{
    s.to_uppercase()
}

/// The text of `s` with its HTML character references decoded by
/// `escaper::decode_html`; `None` when it reports an error.
pub uninterp spec fn html_decoded(s: Seq<char>) -> Option<Seq<char>>;

/// Calls `escaper::decode_html`; the error value is dropped. The contract
/// names the result.
#[verifier::external_body]
pub(crate) fn decode_html_text(s: &str) -> (r: Option<String>)
    ensures
        match r {
            Some(d) => html_decoded(s@) == Some(d@),
            None => html_decoded(s@) is None,
        },
{
    match escaper::decode_html(s) {
        Ok(d) => Some(d),
        Err(_) => None,
    }
}

/// The ASCII transliteration `unidecode::unidecode` gives for a text.
pub uninterp spec fn transliterated(s: Seq<char>) -> Seq<char>;

/// Calls `unidecode::unidecode`; the contract names the result.
#[verifier::external_body]
pub(crate) fn transliterate(s: &str) -> (r: String)
    ensures
        r@ == transliterated(s@),
{
    unidecode::unidecode(s)
}

#[verifier::external_type_specification]
#[verifier::external_body]
pub struct ExGlobPattern(glob::Pattern);

/// Whether `glob::Pattern::new` accepts the pattern.
pub uninterp spec fn glob_valid(pattern: Seq<char>) -> bool;

/// Whether the pattern, compiled by `glob::Pattern::new`, matches the path
/// under `glob::Pattern::matches_path` with the default options.
pub uninterp spec fn glob_matches(pattern: Seq<char>, path: Seq<char>) -> bool;

/// Calls `glob::Pattern::new`; the contract names whether it accepts the
/// pattern.
#[verifier::external_body]
fn compile_glob(pattern: &str) -> (r: Option<glob::Pattern>)
    ensures
        r is Some <==> glob_valid(pattern@),
{
    match glob::Pattern::new(pattern) {
        Ok(p) => Some(p),
        Err(_) => None,
    }
}

/// A glob pattern together with the text it was compiled from; only
/// `GlobFilter::compile` makes one.
pub struct GlobFilter {
    text: String,
    pattern: glob::Pattern,
}

impl GlobFilter {
    pub closed spec fn spec_text(&self) -> Seq<char> {
        self.text@
    }

    /// Compiles a glob pattern; `None` when `glob` refuses it.
    pub fn compile(text: &str) -> (r: Option<GlobFilter>)
        ensures
            r is Some <==> glob_valid(text@),
            r matches Some(g) ==> g.spec_text() == text@,
    {
        match compile_glob(text) {
            Some(pattern) => Some(GlobFilter { text: text.to_owned(), pattern }),
            None => None,
        }
    }
}

/// Calls `glob::Pattern::matches_path` on the path. The contract claims the
/// result is whether the pattern compiled from the filter's text matches the
/// path, which holds because each `GlobFilter` holds the pattern compiled
/// from its own text.
#[verifier::external_body]
pub(crate) fn glob_match(g: &GlobFilter, path: &str) -> (r: bool)
    ensures
        r == glob_matches(g.spec_text(), path@),
{
    g.pattern.matches_path(std::path::Path::new(path))
}

} // verus!
