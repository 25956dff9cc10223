use vstd::prelude::*;

verus! {

/// An ordered language version. The engine never re-reads version text at
/// parse time: gates are compiled into plain booleans once per target
/// version.
#[derive(Clone, Copy, Debug, PartialEq, Eq, Structural, Hash)]
pub struct Version {
    pub major: u64,
    pub minor: u64,
    pub patch: u64,
}

/// Strict lexicographic order on versions.
pub open spec fn version_lt(a: Version, b: Version) -> bool {
    ||| a.major < b.major
    ||| (a.major == b.major && a.minor < b.minor)
    ||| (a.major == b.major && a.minor == b.minor && a.patch < b.patch)
}

pub open spec fn version_le(a: Version, b: Version) -> bool {
    version_lt(a, b) || a == b
}

/// What the numeric components of a version text parse to, if it is valid.
/// The result depends on the text alone.
pub uninterp spec fn semver_numbers(s: Seq<char>) -> Option<(u64, u64, u64)>;

/// Relies on semver's `Version::parse`: parsing a version text either fails
/// or yields its numeric major, minor and patch components, as a function of
/// the text alone.
#[verifier::external_body]
fn parse_semver(text: &str) -> (r: Option<(u64, u64, u64)>)
    ensures
        r == semver_numbers(text@),
{
    match semver::Version::parse(text) {
        Ok(v) => Some((v.major, v.minor, v.patch)),
        Err(_) => None,
    }
}

impl Version {
    pub fn new(major: u64, minor: u64, patch: u64) -> (r: Version)
        ensures
            r == (Version { major, minor, patch }),
    {
        Version { major, minor, patch }
    }

    /// Reads a version from its text form, if it is valid.
    pub fn parse(text: &str) -> (r: Option<Version>)
        ensures
            r is Some <==> semver_numbers(text@) is Some,
            r matches Some(v) ==> ({
                &&& semver_numbers(text@) matches Some(t)
                &&& v.major == t.0
                &&& v.minor == t.1
                &&& v.patch == t.2
            }),
    {
        match parse_semver(text) {
            Some((major, minor, patch)) => Some(Version { major, minor, patch }),
            None => None,
        }
    }

    pub fn lt(&self, other: &Version) -> (r: bool)
        ensures
            r == version_lt(*self, *other),
    {
        if self.major != other.major {
            self.major < other.major
        } else if self.minor != other.minor {
            self.minor < other.minor
        } else {
            self.patch < other.patch
        }
    }

    pub fn ge(&self, other: &Version) -> (r: bool)
        ensures
            r == version_le(*other, *self),
    {
        !self.lt(other)
    }
}

/// Whether a version gate turns a construct on from some version, or off
/// from some version.
#[derive(Clone, Copy, Debug, PartialEq, Eq, Structural, Hash)]
pub enum VersionQuality {
    Introduced,
    Removed,
}

/// "Introduced at `from`" holds from `from` onward; "removed at `from`"
/// holds before it.
#[derive(Clone, Copy, Debug, PartialEq, Eq, Structural, Hash)]
pub struct VersionQualityRange {
    pub from: Version,
    pub quality: VersionQuality,
}

pub open spec fn range_applies(r: VersionQualityRange, target: Version) -> bool {
    match r.quality {
        VersionQuality::Introduced => version_le(r.from, target),
        VersionQuality::Removed => version_lt(target, r.from),
    }
}

/// A grammar node may carry a conjunction of such predicates; an empty list
/// means unconditionally applicable.
pub open spec fn ranges_apply(rs: Seq<VersionQualityRange>, target: Version) -> bool {
    forall|i: int| 0 <= i < rs.len() ==> range_applies(rs[i], target)
}

impl VersionQualityRange {
    pub fn introduced(from: Version) -> (r: VersionQualityRange)
        ensures
            r == (VersionQualityRange { from, quality: VersionQuality::Introduced }),
    {
        VersionQualityRange { from, quality: VersionQuality::Introduced }
    }

    pub fn removed(from: Version) -> (r: VersionQualityRange)
        ensures
            r == (VersionQualityRange { from, quality: VersionQuality::Removed }),
    {
        VersionQualityRange { from, quality: VersionQuality::Removed }
    }

    pub fn applies(&self, target: &Version) -> (r: bool)
        ensures
            r == range_applies(*self, *target),
    {
        match self.quality {
            VersionQuality::Introduced => target.ge(&self.from),
            VersionQuality::Removed => target.lt(&self.from),
        }
    }
}

/// Evaluates a conjunction of version gates against one target version: the
/// compile-once step that turns gates into plain booleans.
pub fn eval_ranges(rs: &Vec<VersionQualityRange>, target: &Version) -> (r: bool)
    ensures
        r == ranges_apply(rs@, *target),
{
    let mut i: usize = 0;
    while i < rs.len()
        invariant
            i <= rs@.len(),
            forall|j: int| 0 <= j < i ==> range_applies(rs@[j], *target),
        decreases rs@.len() - i,
    {
        if !rs[i].applies(target) {
            return false;
        }
        i = i + 1;
    }
    true
}

/// A closed interval description of when a construct exists, as the grammar
/// definition language writes it.
#[derive(Clone, Copy, Debug, PartialEq, Eq, Structural, Hash)]
pub enum VersionSpecifier {
    Never,
    From { from: Version },
    Till { till: Version },
    Range { from: Version, till: Version },
}

pub open spec fn specifier_applies(s: VersionSpecifier, target: Version) -> bool {
    match s {
        VersionSpecifier::Never => false,
        VersionSpecifier::From { from } => version_le(from, target),
        VersionSpecifier::Till { till } => version_lt(target, till),
        VersionSpecifier::Range { from, till } => version_le(from, target) && version_lt(
            target,
            till,
        ),
    }
}

/// `None` means the construct is not gated at all.
pub open spec fn opt_specifier_applies(s: Option<VersionSpecifier>, target: Version) -> bool {
    match s {
        Option::Some(sp) => specifier_applies(sp, target),
        Option::None => true,
    }
}

impl VersionSpecifier {
    pub fn applies(&self, target: &Version) -> (r: bool)
        ensures
            r == specifier_applies(*self, *target),
    {
        match self {
            VersionSpecifier::Never => false,
            VersionSpecifier::From { from } => target.ge(from),
            VersionSpecifier::Till { till } => target.lt(till),
            VersionSpecifier::Range { from, till } => target.ge(from) && target.lt(till),
        }
    }
}

/// Evaluates an optional gate: an ungated construct is always on.
pub fn eval_opt_specifier(s: &Option<VersionSpecifier>, target: &Version) -> (r: bool)
    ensures
        r == opt_specifier_applies(*s, *target),
{
    match s {
        Some(sp) => sp.applies(target),
        None => true,
    }
}

} // verus!
