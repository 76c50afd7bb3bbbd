use vstd::prelude::*;
use core::cmp::Ordering;

verus! {

/// A semantic version reduced to its three numeric components.
#[derive(Clone, Copy, Debug, PartialEq, Eq, Structural)]
pub struct SemVer {
    pub major: u64,
    pub minor: u64,
    pub patch: u64,
}

/// Strict lexicographic order on (major, minor, patch).
pub open spec fn semver_lt(a: SemVer, b: SemVer) -> bool {
    a.major < b.major || (a.major == b.major && (a.minor < b.minor || (a.minor == b.minor
        && a.patch < b.patch)))
}

/// What semver's version parser accepts, as its three numeric components.
pub uninterp spec fn semver_text(s: Seq<char>) -> Option<(u64, u64, u64)>;

/// Relies on `semver::Version::parse`: the outcome depends on the text alone; the
/// numeric components of an accepted version are kept.
#[verifier::external_body]
pub(crate) fn parse_semver(s: &str) -> (r: Option<SemVer>)
    ensures
        match r {
            Some(v) => semver_text(s@) == Some((v.major, v.minor, v.patch)),
            None => semver_text(s@) is None,
        },
{
    match semver::Version::parse(s) {
        Ok(v) => Some(SemVer { major: v.major, minor: v.minor, patch: v.patch }),
        Err(_) => None,
    }
}

impl SemVer {
    pub fn new(major: u64, minor: u64, patch: u64) -> (r: SemVer)
        ensures
            r.major == major && r.minor == minor && r.patch == patch,
    {
        SemVer { major, minor, patch }
    }

    /// Three-way comparison in the standard total order of versions.
    pub fn compare(&self, other: &SemVer) -> (r: Ordering)
        ensures
            (r == Ordering::Less) == semver_lt(*self, *other),
            (r == Ordering::Greater) == semver_lt(*other, *self),
            (r == Ordering::Equal) == (*self == *other),
    {
        if self.major != other.major {
            if self.major < other.major { Ordering::Less } else { Ordering::Greater }
        } else if self.minor != other.minor {
            if self.minor < other.minor { Ordering::Less } else { Ordering::Greater }
        } else if self.patch != other.patch {
            if self.patch < other.patch { Ordering::Less } else { Ordering::Greater }
        } else {
            Ordering::Equal
        }
    }
}

/// The order on versions is transitive.
pub proof fn lemma_semver_lt_transitive(a: SemVer, b: SemVer, c: SemVer)
    requires
        semver_lt(a, b),
        semver_lt(b, c),
    ensures
        semver_lt(a, c),
{
}

/// Any two versions are ordered one way, the other way, or equal.
pub proof fn lemma_semver_lt_total(a: SemVer, b: SemVer)
    ensures
        semver_lt(a, b) || semver_lt(b, a) || a == b,
        !(semver_lt(a, b) && semver_lt(b, a)),
{
}

} // verus!
