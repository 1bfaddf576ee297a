//! The discrete version domain: ordered (major, minor, patch) triples with
//! boundary-aware stepping, and the constraint types declared in manifests.

use vstd::prelude::*;
use vstd::std_specs::cmp::PartialOrdSpec;

verus! {

/// A version: an ordered (major, minor, patch) triple. The order is
/// lexicographic, and the domain is discrete: every version except the
/// maximum has a unique successor, every version except the minimum has a
/// unique predecessor.
#[derive(Clone, Copy, Debug, PartialEq, Eq, Structural, Hash)]
pub struct SemVer {
    pub major: u64,
    pub minor: u64,
    pub patch: u64,
}

/// Why a step through the version domain failed: the domain has a least and
/// a greatest element, and stepping past either is an error.
#[derive(Clone, Copy, Debug, PartialEq, Eq, Structural)]
pub enum VersionStepError {
    NoPredecessor,
    NoSuccessor,
}

/// Number of values of one version component (`u64::MAX + 1`).
pub open spec fn component_base() -> int {
    0x10000000000000000
}

impl SemVer {
    /// The position of this version in the total order of all versions:
    /// the triple read as a three-digit number in base `component_base()`.
    /// Successor and predecessor move this position by exactly one.
    pub open spec fn idx(self) -> int {
        (self.major * component_base() + self.minor) * component_base() + self.patch
    }

    pub open spec fn is_min_spec(self) -> bool {
        self.major == 0 && self.minor == 0 && self.patch == 0
    }

    pub open spec fn is_max_spec(self) -> bool {
        self.major == u64::MAX && self.minor == u64::MAX && self.patch == u64::MAX
    }
}

/// The greatest position in the domain: the index of (MAX, MAX, MAX).
pub open spec fn max_idx() -> int {
    (u64::MAX * component_base() + u64::MAX) * component_base() + u64::MAX
}

/// Strict lexicographic order on (major, minor, patch).
pub open spec fn lex_lt(a: SemVer, b: SemVer) -> bool {
    ||| a.major < b.major
    ||| (a.major == b.major && a.minor < b.minor)
    ||| (a.major == b.major && a.minor == b.minor && a.patch < b.patch)
}

/// Comparing two two-digit numbers in base `b` is the lexicographic
/// comparison of their digit pairs.
proof fn lemma_positional2(h1: int, l1: int, h2: int, l2: int, b: int)
    by (nonlinear_arith)
    requires
        0 <= l1 < b,
        0 <= l2 < b,
    ensures
        h1 * b + l1 < h2 * b + l2 <==> (h1 < h2 || (h1 == h2 && l1 < l2)),
{
}

/// A version's index lies within the domain bounds.
pub proof fn lemma_idx_bounds(a: SemVer)
    by (nonlinear_arith)
    ensures
        0 <= a.idx() <= max_idx(),
{
}

/// The index order is exactly the lexicographic order on the triples.
pub proof fn lemma_idx_lt(a: SemVer, b: SemVer)
    ensures
        a.idx() < b.idx() <==> lex_lt(a, b),
{
    let ah = a.major * component_base() + a.minor;
    let bh = b.major * component_base() + b.minor;
    lemma_positional2(
        a.major as int,
        a.minor as int,
        b.major as int,
        b.minor as int,
        component_base(),
    );
    lemma_positional2(ah, a.patch as int, bh, b.patch as int, component_base());
    lemma_positional2(
        b.major as int,
        b.minor as int,
        a.major as int,
        a.minor as int,
        component_base(),
    );
    assert(ah < bh <==> (a.major < b.major || (a.major == b.major && a.minor < b.minor)));
    assert(ah == bh <==> (a.major == b.major && a.minor == b.minor));
}

/// The index determines the version: equal indices mean equal triples.
pub proof fn lemma_idx_injective(a: SemVer, b: SemVer)
    ensures
        a.idx() == b.idx() ==> a == b,
{
    if a.idx() == b.idx() {
        lemma_idx_lt(a, b);
        lemma_idx_lt(b, a);
        assert(!lex_lt(a, b) && !lex_lt(b, a));
    }
}

/// Only the minimum version has index zero, and only the maximum has the
/// greatest index.
pub proof fn lemma_idx_extremes(a: SemVer)
    ensures
        a.idx() == 0 <==> a.is_min_spec(),
        a.idx() == max_idx() <==> a.is_max_spec(),
{
    let min = SemVer { major: 0, minor: 0, patch: 0 };
    let max = SemVer { major: u64::MAX, minor: u64::MAX, patch: u64::MAX };
    assert(min.idx() == 0);
    assert(max.idx() == max_idx());
    lemma_idx_injective(a, min);
    lemma_idx_injective(a, max);
}

impl SemVer {
    /// The least version of the domain, (0, 0, 0).
    pub fn minimum() -> (r: SemVer)
        ensures
            r == (SemVer { major: 0, minor: 0, patch: 0 }),
            r.idx() == 0,
    {
        SemVer { major: 0, minor: 0, patch: 0 }
    }

    /// The greatest version of the domain, (MAX, MAX, MAX).
    pub fn maximum() -> (r: SemVer)
        ensures
            r == (SemVer { major: u64::MAX, minor: u64::MAX, patch: u64::MAX }),
            r.idx() == max_idx(),
    {
        SemVer { major: u64::MAX, minor: u64::MAX, patch: u64::MAX }
    }

    /// The version directly below this one: the patch is decremented, with
    /// a borrow running through minor and then major. The minimum version
    /// has no predecessor.
    pub fn predecessor(&self) -> (r: Result<SemVer, VersionStepError>)
        ensures
            self.is_min_spec() ==> r == Err::<SemVer, VersionStepError>(
                VersionStepError::NoPredecessor,
            ),
            !self.is_min_spec() ==> (r matches Ok(p) && p.idx() == self.idx() - 1),
    {
        if self.patch != 0 {
            Ok(SemVer { patch: self.patch - 1, ..*self })
        } else if self.minor != 0 {
            Ok(SemVer { patch: u64::MAX, minor: self.minor - 1, major: self.major })
        } else if self.major != 0 {
            Ok(SemVer { patch: u64::MAX, minor: u64::MAX, major: self.major - 1 })
        } else {
            Err(VersionStepError::NoPredecessor)
        }
    }

    /// The version directly above this one: the patch is incremented, with
    /// a carry running through minor and then major. The maximum version
    /// has no successor.
    pub fn successor(&self) -> (r: Result<SemVer, VersionStepError>)
        ensures
            self.is_max_spec() ==> r == Err::<SemVer, VersionStepError>(
                VersionStepError::NoSuccessor,
            ),
            !self.is_max_spec() ==> (r matches Ok(s) && s.idx() == self.idx() + 1),
    {
        if self.patch != u64::MAX {
            Ok(SemVer { patch: self.patch + 1, ..*self })
        } else if self.minor != u64::MAX {
            Ok(SemVer { patch: 0, minor: self.minor + 1, major: self.major })
        } else if self.major != u64::MAX {
            Ok(SemVer { patch: 0, minor: 0, major: self.major + 1 })
        } else {
            Err(VersionStepError::NoSuccessor)
        }
    }
}

/// Stepping down one position and then up one position returns to the
/// very same version, and symmetrically for up then down: a predecessor
/// sits exactly one position below, a successor exactly one above, and
/// positions determine versions.
pub proof fn lemma_step_roundtrip(v: SemVer, stepped: SemVer, back: SemVer)
    requires
        (stepped.idx() == v.idx() - 1 && back.idx() == stepped.idx() + 1) || (stepped.idx()
            == v.idx() + 1 && back.idx() == stepped.idx() - 1),
    ensures
        back == v,
{
    lemma_idx_injective(back, v);
}

impl PartialOrd for SemVer {
    /// Compares major, then minor, then patch.
    fn partial_cmp(&self, other: &SemVer) -> (r: Option<core::cmp::Ordering>) {
        if self.major < other.major {
            Some(core::cmp::Ordering::Less)
        } else if self.major > other.major {
            Some(core::cmp::Ordering::Greater)
        } else if self.minor < other.minor {
            Some(core::cmp::Ordering::Less)
        } else if self.minor > other.minor {
            Some(core::cmp::Ordering::Greater)
        } else if self.patch < other.patch {
            Some(core::cmp::Ordering::Less)
        } else if self.patch > other.patch {
            Some(core::cmp::Ordering::Greater)
        } else {
            Some(core::cmp::Ordering::Equal)
        }
    }
}

impl vstd::std_specs::cmp::PartialOrdSpecImpl for SemVer {
    open spec fn obeys_partial_cmp_spec() -> bool {
        true
    }

    open spec fn partial_cmp_spec(&self, other: &SemVer) -> Option<core::cmp::Ordering> {
        if lex_lt(*self, *other) {
            Some(core::cmp::Ordering::Less)
        } else if lex_lt(*other, *self) {
            Some(core::cmp::Ordering::Greater)
        } else {
            Some(core::cmp::Ordering::Equal)
        }
    }
}

/// Whether `a` sits strictly below `b` in the domain order.
pub fn ver_lt(a: &SemVer, b: &SemVer) -> (r: bool)
    ensures
        r == (a.idx() < b.idx()),
{
    proof {
        lemma_idx_lt(*a, *b);
    }
    if a.major != b.major {
        a.major < b.major
    } else if a.minor != b.minor {
        a.minor < b.minor
    } else {
        a.patch < b.patch
    }
}

/// Whether `a` sits at or below `b` in the domain order.
pub fn ver_le(a: &SemVer, b: &SemVer) -> (r: bool)
    ensures
        r == (a.idx() <= b.idx()),
{
    !ver_lt(b, a)
}

/// One end of a version range: strictly-less (`<`) or less-or-equal (`<=`).
#[derive(Clone, Copy, Debug, PartialEq, Eq, Structural)]
pub enum Relation {
    LTE,
    LT,
}

/// A bounded interval of versions, with each end open or closed according
/// to its relation. Unbounded ranges are not representable.
#[derive(Clone, Copy, Debug, PartialEq, Eq, Structural)]
pub struct VersionRange {
    pub lower: SemVer,
    pub lower_relation: Relation,
    pub higher_relation: Relation,
    pub higher: SemVer,
}

impl VersionRange {
    /// The least domain position admitted by the lower bound.
    pub open spec fn lo_eff(self) -> int {
        match self.lower_relation {
            Relation::LTE => self.lower.idx(),
            Relation::LT => self.lower.idx() + 1,
        }
    }

    /// The greatest domain position admitted by the higher bound.
    pub open spec fn hi_eff(self) -> int {
        match self.higher_relation {
            Relation::LTE => self.higher.idx(),
            Relation::LT => self.higher.idx() - 1,
        }
    }

    /// Whether the domain position `x` lies inside this range.
    pub open spec fn has(self, x: int) -> bool {
        self.lo_eff() <= x <= self.hi_eff()
    }

    /// A range admitting no position at all, as happens when the lower
    /// bound exceeds the higher one.
    pub open spec fn is_empty_spec(self) -> bool {
        self.lo_eff() > self.hi_eff()
    }

    /// Membership of a version, phrased with the bound relations on the
    /// versions themselves.
    pub open spec fn contains_ver(self, v: SemVer) -> bool {
        &&& (match self.lower_relation {
            Relation::LTE => !lex_lt(v, self.lower),
            Relation::LT => lex_lt(self.lower, v),
        })
        &&& (match self.higher_relation {
            Relation::LTE => !lex_lt(self.higher, v),
            Relation::LT => lex_lt(v, self.higher),
        })
    }
}

/// The two readings of range membership agree: a version is admitted by
/// the bound relations exactly when its domain position lies between the
/// effective bounds.
pub proof fn lemma_contains_ver(r: VersionRange, v: SemVer)
    ensures
        r.contains_ver(v) <==> r.has(v.idx()),
{
    lemma_idx_lt(v, r.lower);
    lemma_idx_lt(r.lower, v);
    lemma_idx_lt(r.higher, v);
    lemma_idx_lt(v, r.higher);
}

/// What one manifest declares for one dependency: either an exact version
/// or a range of versions.
#[derive(Clone, Copy, Debug, PartialEq, Eq, Structural)]
pub enum DependencyVersion {
    SpecificVersion(SemVer),
    VersionRange(VersionRange),
}

impl DependencyVersion {
    /// The interval of versions this constraint admits: an exact version
    /// is the closed single-point interval around it.
    pub open spec fn as_range_spec(self) -> VersionRange {
        match self {
            DependencyVersion::SpecificVersion(v) => VersionRange {
                lower: v,
                lower_relation: Relation::LTE,
                higher_relation: Relation::LTE,
                higher: v,
            },
            DependencyVersion::VersionRange(r) => r,
        }
    }

    /// Whether the domain position `x` satisfies this constraint.
    pub open spec fn has(self, x: int) -> bool {
        self.as_range_spec().has(x)
    }

    /// The interval of versions this constraint admits.
    pub fn to_range(&self) -> (r: VersionRange)
        ensures
            r == self.as_range_spec(),
    {
        match self {
            DependencyVersion::SpecificVersion(v) => VersionRange {
                lower: *v,
                lower_relation: Relation::LTE,
                higher_relation: Relation::LTE,
                higher: *v,
            },
            DependencyVersion::VersionRange(r) => *r,
        }
    }
}

impl From<SemVer> for DependencyVersion {
    /// An exact version read as a constraint.
    fn from(ver: SemVer) -> (r: DependencyVersion) {
        DependencyVersion::SpecificVersion(ver)
    }
}

impl vstd::std_specs::convert::FromSpecImpl<SemVer> for DependencyVersion {
    open spec fn obeys_from_spec() -> bool {
        true
    }

    open spec fn from_spec(ver: SemVer) -> DependencyVersion {
        DependencyVersion::SpecificVersion(ver)
    }
}

/// Ordering law: `a` compares less than `b` exactly when the triple
/// (a.major, a.minor, a.patch) is lexicographically less than
/// (b.major, b.minor, b.patch), which in turn is exactly the order of the
/// domain positions.
pub proof fn lemma_version_order(a: SemVer, b: SemVer)
    ensures
        a.partial_cmp_spec(&b) == Some(core::cmp::Ordering::Less) <==> (a.major < b.major || (
        a.major == b.major && a.minor < b.minor) || (a.major == b.major && a.minor == b.minor
            && a.patch < b.patch)),
        a.partial_cmp_spec(&b) == Some(core::cmp::Ordering::Less) <==> a.idx() < b.idx(),
{
    lemma_idx_lt(a, b);
    lemma_idx_lt(b, a);
}

} // verus!
