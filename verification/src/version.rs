//! Versions and version ranges.

use vstd::prelude::*;
use crate::error::{outcome, Error};
use crate::text::{
    all_digits, debug_text, debugged, digits_value, glue, is_digit, lemma_last_piece,
    parse_unsigned, pieces, split, texts, unsigned,
};

verus! {

/// A version: three numbers, and the texts of its prerelease and build parts.
#[derive(Debug)]
pub struct Version {
    pub major: u64,
    pub minor: u64,
    pub patch: u64,
    pub pre: String,
    pub build: String,
}

/// A version, as a model.
pub struct VersionView {
    pub major: u64,
    pub minor: u64,
    pub patch: u64,
    pub pre: Seq<char>,
    pub build: Seq<char>,
}

impl View for Version {
    type V = VersionView;

    open spec fn view(&self) -> VersionView {
        VersionView {
            major: self.major,
            minor: self.minor,
            patch: self.patch,
            pre: self.pre@,
            build: self.build@,
        }
    }
}

/// What `semver::Version::parse` reads in a text, or its message.
pub uninterp spec fn parsed_version(text: Seq<char>) -> Result<VersionView, Seq<char>>;

/// `semver::Version::parse`: the version written in the text, or the message of
/// its error. What either is follows from the text alone.
#[verifier::external_body]
fn parse_version(text: &str) -> (r: Result<Version, String>)
    ensures
        match r {
            Ok(v) => parsed_version(text@) == Ok::<VersionView, Seq<char>>(v@),
            Err(e) => parsed_version(text@) == Err::<VersionView, Seq<char>>(e@),
        },
{
    match semver::Version::parse(text) {
        Ok(v) => Ok(
            Version {
                major: v.major,
                minor: v.minor,
                patch: v.patch,
                pre: v.pre.as_str().to_string(),
                build: v.build.as_str().to_string(),
            },
        ),
        Err(e) => Err(e.to_string()),
    }
}

/// Whether `semver::VersionReq::parse` reads a range in a text, or its message.
pub uninterp spec fn parsed_range(text: Seq<char>) -> Result<(), Seq<char>>;

/// `semver::VersionReq::parse`: whether the text is a version range, or the
/// message of the error. What it is follows from the text alone.
#[verifier::external_body]
pub(crate) fn parse_range(text: &str) -> (r: Result<(), String>)
    ensures
        match r {
            Ok(_) => parsed_range(text@) == Ok::<(), Seq<char>>(()),
            Err(e) => parsed_range(text@) == Err::<(), Seq<char>>(e@),
        },
{
    match semver::VersionReq::parse(text) {
        Ok(_) => Ok(()),
        Err(e) => Err(e.to_string()),
    }
}

/// Whether `semver::VersionReq::matches` holds of a range and a version.
pub uninterp spec fn admitted(
    range: Seq<char>,
    major: u64,
    minor: u64,
    patch: u64,
    pre: Seq<char>,
) -> bool;

/// `semver::VersionReq::matches` on the range written in a text and the version
/// of three numbers and a prerelease text: whether the range admits the
/// version. The build part has no say. What it is follows from the arguments
/// alone. A text that is no prerelease counts as none.
#[verifier::external_body]
fn range_admits(range: &str, major: u64, minor: u64, patch: u64, pre: &str) -> (r: bool)
    requires
        parsed_range(range@) is Ok,
    ensures
        r == admitted(range@, major, minor, patch, pre@),
{
    let version = semver::Version {
        major,
        minor,
        patch,
        pre: semver::Prerelease::new(pre).unwrap_or_default(),
        build: semver::BuildMetadata::EMPTY,
    };
    semver::VersionReq::parse(range).is_ok_and(|req| req.matches(&version))
}

/// The range admits the version.
pub open spec fn admits(range: Seq<char>, v: VersionView) -> bool {
    admitted(range, v.major, v.minor, v.patch, v.pre)
}

/// Whether a range admits a version.
pub fn matches_range(range: &str, version: &Version) -> (r: bool)
    requires
        parsed_range(range@) is Ok,
    ensures
        r == admits(range@, version@),
{
    range_admits(range, version.major, version.minor, version.patch, version.pre.as_str())
}

// -------------------------------------------------------- driver versions

/// Every piece is an unsigned number of 64 bits.
pub open spec fn all_numbers(between: Seq<Seq<char>>) -> bool {
    forall|i: int|
        0 <= i < between.len() ==> unsigned(#[trigger] between[i], u64::MAX as nat) is Some
}

pub open spec fn plain(major: nat, minor: nat, patch: nat) -> VersionView {
    VersionView {
        major: major as u64,
        minor: minor as u64,
        patch: patch as u64,
        pre: Seq::empty(),
        build: Seq::empty(),
    }
}

/// The version that a vendor's driver version stands for: two or three numbers,
/// leading zeros allowed, a missing third one zero; else what is written.
pub open spec fn driver_version_of(raw: Seq<char>) -> Result<VersionView, Seq<Seq<char>>> {
    let between = pieces(raw, '.');
    let max = u64::MAX as nat;
    if all_numbers(between) && between.len() == 2 {
        Ok(plain(unsigned(between[0], max)->0, unsigned(between[1], max)->0, 0))
    } else if all_numbers(between) && between.len() == 3 {
        Ok(
            plain(
                unsigned(between[0], max)->0,
                unsigned(between[1], max)->0,
                unsigned(between[2], max)->0,
            ),
        )
    } else {
        match parsed_version(raw) {
            Ok(v) => Ok(v),
            Err(cause) => Err(seq!["unknown driver version "@ + debugged(raw), cause]),
        }
    }
}

/// The numbers between dots, if each piece is one.
fn numbers(raw: &str) -> (r: Option<Vec<u64>>)
    ensures
        r is Some <==> all_numbers(pieces(raw@, '.')),
        r is Some ==> r->0@.len() == pieces(raw@, '.').len() && forall|i: int|
            0 <= i < r->0@.len() ==> #[trigger] r->0@[i] == unsigned(
                pieces(raw@, '.')[i],
                u64::MAX as nat,
            )->0,
{
    let between = split(raw, '.');
    let mut out: Vec<u64> = Vec::new();
    let mut i: usize = 0;
    while i < between.len()
        invariant
            texts(between@) == pieces(raw@, '.'),
            i <= between@.len(),
            out@.len() == i,
            forall|k: int|
                0 <= k < i ==> unsigned(#[trigger] pieces(raw@, '.')[k], u64::MAX as nat) is Some,
            forall|k: int|
                0 <= k < i ==> #[trigger] out@[k] == unsigned(
                    pieces(raw@, '.')[k],
                    u64::MAX as nat,
                )->0,
        decreases between.len() - i,
    {
        assert(texts(between@)[i as int] == between@[i as int]@);
        match parse_unsigned(between[i].as_str(), u64::MAX) {
            Some(n) => {
                out.push(n);
            },
            None => {
                assert(!all_numbers(pieces(raw@, '.')));
                return None;
            },
        }
        i += 1;
    }
    Some(out)
}

/// The version that a vendor's driver version stands for.
pub fn driver_version(raw: &str) -> (r: Result<Version, Error>)
    ensures
        outcome(r) == driver_version_of(raw@),
{
    match numbers(raw) {
        Some(n) => {
            if n.len() == 2 {
                let v = Version {
                    major: n[0],
                    minor: n[1],
                    patch: 0,
                    pre: String::new(),
                    build: String::new(),
                };
                return Ok(v);
            }
            if n.len() == 3 {
                let v = Version {
                    major: n[0],
                    minor: n[1],
                    patch: n[2],
                    pre: String::new(),
                    build: String::new(),
                };
                return Ok(v);
            }
        },
        None => {},
    }
    match parse_version(raw) {
        Ok(v) => Ok(v),
        Err(cause) => {
            let e = Error::of(cause).context(
                glue("unknown driver version ", debug_text(raw).as_str()).as_str(),
            );
            assert(e@ =~= driver_version_of(raw@)->Err_0);
            Err(e)
        },
    }
}

// ----------------------------------------------------------------- laws

/// A number of 64 bits in decimal digits, with or without leading zeros.
pub open spec fn numeral(s: Seq<char>) -> bool {
    s.len() > 0 && all_digits(s) && digits_value(s) <= u64::MAX
}

proof fn lemma_numeral(s: Seq<char>)
    requires
        numeral(s),
    ensures
        unsigned(s, u64::MAX as nat) == Some(digits_value(s)),
        !s.contains('.'),
{
    assert(is_digit(s[0]));
    if s.contains('.') {
        let i = choose|i: int| 0 <= i < s.len() && s[i] == '.';
        assert(is_digit(s[i]));
    }
}

/// A driver version of two numbers gains a third one that is zero, and leading zeros do not
/// count.
pub proof fn law_driver_versions_are_normalized(
    major: Seq<char>,
    minor: Seq<char>,
    patch: Seq<char>,
)
    requires
        numeral(major),
        numeral(minor),
        numeral(patch),
    ensures
        driver_version_of(major + seq!['.'] + minor) == Ok::<VersionView, Seq<Seq<char>>>(
            plain(digits_value(major), digits_value(minor), 0),
        ),
        driver_version_of(major + seq!['.'] + minor + seq!['.'] + patch) == Ok::<
            VersionView,
            Seq<Seq<char>>,
        >(plain(digits_value(major), digits_value(minor), digits_value(patch))),
{
    lemma_numeral(major);
    lemma_numeral(minor);
    lemma_numeral(patch);
    let two = major + seq!['.'] + minor;
    lemma_last_piece(Seq::empty(), '.', major);
    lemma_last_piece(major, '.', minor);
    lemma_last_piece(two, '.', patch);
    assert(pieces(two, '.') =~= seq![major, minor]);
    assert(pieces(two + seq!['.'] + patch, '.') =~= seq![major, minor, patch]);
}

/// A driver version that is not two or three numbers is read as `semver` reads it, and is unknown
/// where that fails.
pub proof fn law_other_driver_versions_are_read_as_they_are(
    raw: Seq<char>,
    text: &str,
    r: Result<Version, Error>,
    range: &str,
    version: &Version,
    admits_it: bool,
)
    requires
        !(pieces(raw, '.').len() == 2 || pieces(raw, '.').len() == 3) || !all_numbers(
            pieces(raw, '.'),
        ),
        call_ensures(driver_version, (text,), r),
        call_ensures(matches_range, (range, version), admits_it),
    ensures
        driver_version_of(raw) is Ok <==> parsed_version(raw) is Ok,
        driver_version_of(raw) matches Ok(v) ==> parsed_version(raw) == Ok::<VersionView, Seq<char>>(
            v,
        ),
        r is Ok <==> driver_version_of(text@) is Ok,
        r matches Ok(v) ==> driver_version_of(text@) == Ok::<VersionView, Seq<Seq<char>>>(v@),
        admits_it <==> admitted(range@, version.major, version.minor, version.patch, version.pre@),
{
}

} // verus!
