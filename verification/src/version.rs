//! Versions, comparators and version requirements, with Cargo's matching
//! rules.
use crate::prerelease::{
    copy_bytes, lemma_pre_order_basic, ordering_of, pre_order, valid_pre, Prerelease,
};
use crate::grammar::build_ok;
use core::cmp::Ordering;
use vstd::prelude::*;

verus! {

/// Build metadata such as `build.5`, kept as its ASCII bytes. It never
/// takes part in precedence or matching.
#[derive(Debug, PartialEq, Eq, Hash)]
pub struct BuildMetadata {
    text: Vec<u8>,
}

impl View for BuildMetadata {
    type V = Seq<u8>;

    closed spec fn view(&self) -> Seq<u8> {
        self.text@
    }
}

impl BuildMetadata {
    /// The bytes are empty or dot-separated identifiers.
    #[verifier::type_invariant]
    spec fn text_valid(self) -> bool {
        build_ok(self@)
    }

    /// Empty build metadata.
    pub fn empty() -> (r: BuildMetadata)
        ensures
            r@ == Seq::<u8>::empty(),
    {
        BuildMetadata { text: Vec::new() }
    }

    /// Build metadata with the given text, already checked.
    pub(crate) fn from_bytes(text: Vec<u8>) -> (r: BuildMetadata)
        requires
            build_ok(text@),
        ensures
            r@ == text@,
    {
        BuildMetadata { text }
    }

    /// The text of the build metadata.
    pub fn as_bytes(&self) -> (r: &Vec<u8>)
        ensures
            r@ == self@,
    {
        &self.text
    }

    /// Whether the build metadata is empty.
    pub fn is_empty(&self) -> (r: bool)
        ensures
            r == (self@.len() == 0),
    {
        self.text.len() == 0
    }
}

impl Clone for BuildMetadata {
    fn clone(&self) -> (r: Self)
        ensures
            r@ == self@,
    {
        proof {
            use_type_invariant(self);
        }
        BuildMetadata { text: copy_bytes(&self.text) }
    }
}

/// A version `major.minor.patch[-pre][+build]`.
#[derive(Debug, PartialEq, Eq, Hash)]
pub struct Version {
    pub major: u64,
    pub minor: u64,
    pub patch: u64,
    pub pre: Prerelease,
    pub build: BuildMetadata,
}

impl Clone for Version {
    fn clone(&self) -> (r: Self)
        ensures
            r.major == self.major,
            r.minor == self.minor,
            r.patch == self.patch,
            r.pre@ == self.pre@,
            r.build@ == self.build@,
    {
        Version {
            major: self.major,
            minor: self.minor,
            patch: self.patch,
            pre: self.pre.clone(),
            build: self.build.clone(),
        }
    }
}

/// The operator of a comparator.
#[derive(Clone, Copy, Debug, PartialEq, Eq, Hash, Structural)]
pub enum Op {
    /// `=I.J.K`: exactly this version (missing parts match anything).
    Exact,
    /// `>I.J.K`
    Greater,
    /// `>=I.J.K`
    GreaterEq,
    /// `<I.J.K`
    Less,
    /// `<=I.J.K`
    LessEq,
    /// `~I.J.K`: patch-level changes only.
    Tilde,
    /// `^I.J.K`: changes that do not modify the left-most non-zero part.
    Caret,
    /// `I.*` or `I.J.*`.
    Wildcard,
}

/// One comparator of a version requirement, such as `>=1.2.3-alpha`.
#[derive(Debug, PartialEq, Eq, Hash)]
pub struct Comparator {
    pub op: Op,
    pub major: u64,
    pub minor: Option<u64>,
    /// Patch is only allowed if minor is present.
    pub patch: Option<u64>,
    /// Non-empty pre-release is only allowed if patch is present.
    pub pre: Prerelease,
}

impl Clone for Comparator {
    fn clone(&self) -> (r: Self)
        ensures
            r.op == self.op,
            r.major == self.major,
            r.minor == self.minor,
            r.patch == self.patch,
            r.pre@ == self.pre@,
    {
        Comparator {
            op: self.op,
            major: self.major,
            minor: self.minor,
            patch: self.patch,
            pre: self.pre.clone(),
        }
    }
}

/// A version requirement: the conjunction of its comparators. With no
/// comparator it is `*`, which every ordinary release satisfies.
#[derive(Debug, PartialEq, Eq, Hash)]
pub struct VersionReq {
    pub comparators: Vec<Comparator>,
}

impl Clone for VersionReq {
    fn clone(&self) -> (r: Self)
        ensures
            r.comparators@.len() == self.comparators@.len(),
            forall|i: int|
                0 <= i < self.comparators@.len() ==> same_comparator(
                    #[trigger] r.comparators@[i],
                    self.comparators@[i],
                ),
    {
        let mut comparators: Vec<Comparator> = Vec::new();
        let mut i: usize = 0;
        while i < self.comparators.len()
            invariant
                i <= self.comparators.len(),
                comparators@.len() == i,
                forall|j: int|
                    0 <= j < i ==> same_comparator(
                        #[trigger] comparators@[j],
                        self.comparators@[j],
                    ),
            decreases self.comparators.len() - i,
        {
            comparators.push(self.comparators[i].clone());
            i += 1;
        }
        VersionReq { comparators }
    }
}

/// Two comparators with the same operator, numbers and pre-release.
pub open spec fn same_comparator(a: Comparator, b: Comparator) -> bool {
    &&& a.op == b.op
    &&& a.major == b.major
    &&& a.minor == b.minor
    &&& a.patch == b.patch
    &&& a.pre@ == b.pre@
}

impl Comparator {
    /// A comparator as the parser produces it: a well-formed pre-release,
    /// present only with a patch number, and a patch only with a minor
    /// number.
    pub open spec fn wf(self) -> bool {
        &&& valid_pre(self.pre@)
        &&& (self.pre@.len() > 0 ==> self.patch is Some)
        &&& (self.patch is Some ==> self.minor is Some)
    }
}

impl VersionReq {
    /// Every comparator is well formed.
    pub open spec fn wf(self) -> bool {
        forall|i: int| 0 <= i < self.comparators@.len() ==> (#[trigger] self.comparators@[i]).wf()
    }
}

/// The same version: equal numbers, pre-release and build metadata.
pub open spec fn same_version(a: Version, b: Version) -> bool {
    &&& a.major == b.major
    &&& a.minor == b.minor
    &&& a.patch == b.patch
    &&& a.pre@ == b.pre@
    &&& a.build@ == b.build@
}

impl Version {
    /// A version with a well-formed pre-release.
    pub open spec fn wf(self) -> bool {
        valid_pre(self.pre@)
    }
}

/// Lexicographic order of two `major.minor.patch` triples: -1, 0 or 1.
pub open spec fn triple_order(a: (u64, u64, u64), b: (u64, u64, u64)) -> int {
    if a.0 != b.0 {
        if a.0 < b.0 {
            -1
        } else {
            1
        }
    } else if a.1 != b.1 {
        if a.1 < b.1 {
            -1
        } else {
            1
        }
    } else if a.2 != b.2 {
        if a.2 < b.2 {
            -1
        } else {
            1
        }
    } else {
        0
    }
}

/// The `major.minor.patch` triple of a version.
pub open spec fn triple_of(v: Version) -> (u64, u64, u64) {
    (v.major, v.minor, v.patch)
}

/// SemVer precedence of two versions (build metadata ignored): -1, 0 or 1.
pub open spec fn version_order(a: Version, b: Version) -> int {
    if triple_order(triple_of(a), triple_of(b)) != 0 {
        triple_order(triple_of(a), triple_of(b))
    } else {
        pre_order(a.pre@, b.pre@)
    }
}

/// Whether `a` is at or below `b` in precedence.
pub open spec fn version_le(a: Version, b: Version) -> bool {
    version_order(a, b) <= 0
}

/// `=` and wildcard matching at the version `major.minor.patch-pre`.
pub open spec fn matches_exact_at(c: Comparator, major: u64, minor: u64, patch: u64, pre: Seq<Seq<u8>>) -> bool {
    &&& major == c.major
    &&& (c.minor matches Some(m) ==> minor == m)
    &&& (c.patch matches Some(p) ==> patch == p)
    &&& pre == c.pre@
}

/// `>` matching.
pub open spec fn matches_greater_at(c: Comparator, major: u64, minor: u64, patch: u64, pre: Seq<Seq<u8>>) -> bool {
    if major != c.major {
        major > c.major
    } else {
        match c.minor {
            None => false,
            Some(m) => if minor != m {
                minor > m
            } else {
                match c.patch {
                    None => false,
                    Some(p) => if patch != p {
                        patch > p
                    } else {
                        pre_order(pre, c.pre@) > 0
                    },
                }
            },
        }
    }
}

/// `<` matching.
pub open spec fn matches_less_at(c: Comparator, major: u64, minor: u64, patch: u64, pre: Seq<Seq<u8>>) -> bool {
    if major != c.major {
        major < c.major
    } else {
        match c.minor {
            None => false,
            Some(m) => if minor != m {
                minor < m
            } else {
                match c.patch {
                    None => false,
                    Some(p) => if patch != p {
                        patch < p
                    } else {
                        pre_order(pre, c.pre@) < 0
                    },
                }
            },
        }
    }
}

/// `~` matching.
pub open spec fn matches_tilde_at(c: Comparator, major: u64, minor: u64, patch: u64, pre: Seq<Seq<u8>>) -> bool {
    if major != c.major {
        false
    } else if c.minor is Some && minor != c.minor->0 {
        false
    } else if c.patch is Some && patch != c.patch->0 {
        patch > c.patch->0
    } else {
        pre_order(pre, c.pre@) >= 0
    }
}

/// `^` matching.
pub open spec fn matches_caret_at(c: Comparator, major: u64, minor: u64, patch: u64, pre: Seq<Seq<u8>>) -> bool {
    if major != c.major {
        false
    } else {
        match c.minor {
            None => true,
            Some(m) => match c.patch {
                None => if c.major > 0 {
                    minor >= m
                } else {
                    minor == m
                },
                Some(p) => if c.major > 0 {
                    if minor != m {
                        minor > m
                    } else if patch != p {
                        patch > p
                    } else {
                        pre_order(pre, c.pre@) >= 0
                    }
                } else if m > 0 {
                    if minor != m {
                        false
                    } else if patch != p {
                        patch > p
                    } else {
                        pre_order(pre, c.pre@) >= 0
                    }
                } else if minor != m || patch != p {
                    false
                } else {
                    pre_order(pre, c.pre@) >= 0
                },
            },
        }
    }
}

/// Whether the comparator's operator admits `major.minor.patch-pre`,
/// before pre-release authorization.
pub open spec fn matches_impl_at(c: Comparator, major: u64, minor: u64, patch: u64, pre: Seq<Seq<u8>>) -> bool {
    match c.op {
        Op::Exact | Op::Wildcard => matches_exact_at(c, major, minor, patch, pre),
        Op::Greater => matches_greater_at(c, major, minor, patch, pre),
        Op::GreaterEq => matches_exact_at(c, major, minor, patch, pre) || matches_greater_at(
            c,
            major,
            minor,
            patch,
            pre,
        ),
        Op::Less => matches_less_at(c, major, minor, patch, pre),
        Op::LessEq => matches_exact_at(c, major, minor, patch, pre) || matches_less_at(
            c,
            major,
            minor,
            patch,
            pre,
        ),
        Op::Tilde => matches_tilde_at(c, major, minor, patch, pre),
        Op::Caret => matches_caret_at(c, major, minor, patch, pre),
    }
}

/// A comparator authorizes pre-releases of exactly its own triple, when it
/// carries a pre-release itself.
pub open spec fn pre_compatible_at(c: Comparator, major: u64, minor: u64, patch: u64) -> bool {
    &&& c.major == major
    &&& c.minor == Some(minor)
    &&& c.patch == Some(patch)
    &&& c.pre@.len() > 0
}

/// Cargo's rule for a requirement: every comparator admits the version, and
/// a pre-release version is only accepted when some comparator of the same
/// triple carries a pre-release.
pub open spec fn req_matches_at(r: VersionReq, major: u64, minor: u64, patch: u64, pre: Seq<Seq<u8>>) -> bool {
    &&& forall|i: int|
        0 <= i < r.comparators@.len() ==> matches_impl_at(
            #[trigger] r.comparators@[i],
            major,
            minor,
            patch,
            pre,
        )
    &&& (pre.len() == 0 || req_authorizes(r, major, minor, patch))
}

/// Some comparator of the requirement authorizes pre-releases of
/// `major.minor.patch`.
pub open spec fn req_authorizes(r: VersionReq, major: u64, minor: u64, patch: u64) -> bool {
    exists|i: int|
        0 <= i < r.comparators@.len() && pre_compatible_at(
            #[trigger] r.comparators@[i],
            major,
            minor,
            patch,
        )
}

/// Whether the requirement matches the version.
pub open spec fn req_matches(r: VersionReq, v: Version) -> bool {
    req_matches_at(r, v.major, v.minor, v.patch, v.pre@)
}

/// Whether a single comparator matches the version, authorization included.
pub open spec fn comparator_matches(c: Comparator, v: Version) -> bool {
    &&& matches_impl_at(c, v.major, v.minor, v.patch, v.pre@)
    &&& (v.pre@.len() == 0 || pre_compatible_at(c, v.major, v.minor, v.patch))
}

fn matches_exact(c: &Comparator, ver: &Version) -> (r: bool)
    ensures
        r == matches_exact_at(*c, ver.major, ver.minor, ver.patch, ver.pre@),
{
    if ver.major != c.major {
        return false;
    }
    if let Some(minor) = c.minor {
        if ver.minor != minor {
            return false;
        }
    }
    if let Some(patch) = c.patch {
        if ver.patch != patch {
            return false;
        }
    }
    let r = ver.pre.compare(&c.pre) == 0;
    proof {
        lemma_pre_order_basic(ver.pre@, c.pre@);
    }
    r
}

fn matches_greater(c: &Comparator, ver: &Version) -> (r: bool)
    ensures
        r == matches_greater_at(*c, ver.major, ver.minor, ver.patch, ver.pre@),
{
    if ver.major != c.major {
        return ver.major > c.major;
    }
    match c.minor {
        None => return false,
        Some(minor) => {
            if ver.minor != minor {
                return ver.minor > minor;
            }
        },
    }
    match c.patch {
        None => return false,
        Some(patch) => {
            if ver.patch != patch {
                return ver.patch > patch;
            }
        },
    }
    ver.pre.compare(&c.pre) > 0
}

fn matches_less(c: &Comparator, ver: &Version) -> (r: bool)
    ensures
        r == matches_less_at(*c, ver.major, ver.minor, ver.patch, ver.pre@),
{
    if ver.major != c.major {
        return ver.major < c.major;
    }
    match c.minor {
        None => return false,
        Some(minor) => {
            if ver.minor != minor {
                return ver.minor < minor;
            }
        },
    }
    match c.patch {
        None => return false,
        Some(patch) => {
            if ver.patch != patch {
                return ver.patch < patch;
            }
        },
    }
    ver.pre.compare(&c.pre) < 0
}

fn matches_tilde(c: &Comparator, ver: &Version) -> (r: bool)
    ensures
        r == matches_tilde_at(*c, ver.major, ver.minor, ver.patch, ver.pre@),
{
    if ver.major != c.major {
        return false;
    }
    if let Some(minor) = c.minor {
        if ver.minor != minor {
            return false;
        }
    }
    if let Some(patch) = c.patch {
        if ver.patch != patch {
            return ver.patch > patch;
        }
    }
    ver.pre.compare(&c.pre) >= 0
}

fn matches_caret(c: &Comparator, ver: &Version) -> (r: bool)
    ensures
        r == matches_caret_at(*c, ver.major, ver.minor, ver.patch, ver.pre@),
{
    if ver.major != c.major {
        return false;
    }
    let minor = match c.minor {
        None => return true,
        Some(minor) => minor,
    };
    let patch = match c.patch {
        None => {
            if c.major > 0 {
                return ver.minor >= minor;
            } else {
                return ver.minor == minor;
            }
        },
        Some(patch) => patch,
    };
    if c.major > 0 {
        if ver.minor != minor {
            return ver.minor > minor;
        } else if ver.patch != patch {
            return ver.patch > patch;
        }
    } else if minor > 0 {
        if ver.minor != minor {
            return false;
        } else if ver.patch != patch {
            return ver.patch > patch;
        }
    } else if ver.minor != minor || ver.patch != patch {
        return false;
    }
    ver.pre.compare(&c.pre) >= 0
}

/// Whether the comparator's operator admits the version, before
/// pre-release authorization.
pub fn matches_impl(c: &Comparator, ver: &Version) -> (r: bool)
    ensures
        r == matches_impl_at(*c, ver.major, ver.minor, ver.patch, ver.pre@),
{
    match c.op {
        Op::Exact | Op::Wildcard => matches_exact(c, ver),
        Op::Greater => matches_greater(c, ver),
        Op::GreaterEq => matches_exact(c, ver) || matches_greater(c, ver),
        Op::Less => matches_less(c, ver),
        Op::LessEq => matches_exact(c, ver) || matches_less(c, ver),
        Op::Tilde => matches_tilde(c, ver),
        Op::Caret => matches_caret(c, ver),
    }
}

/// Whether the comparator authorizes pre-releases of the version's triple.
pub fn pre_is_compatible(c: &Comparator, ver: &Version) -> (r: bool)
    ensures
        r == pre_compatible_at(*c, ver.major, ver.minor, ver.patch),
{
    c.major == ver.major && c.minor == Some(ver.minor) && c.patch == Some(ver.patch)
        && !c.pre.is_empty()
}

impl Comparator {
    /// Whether this single comparator matches the version.
    pub fn matches(&self, ver: &Version) -> (r: bool)
        ensures
            r == comparator_matches(*self, *ver),
    {
        matches_impl(self, ver) && (ver.pre.is_empty() || pre_is_compatible(self, ver))
    }
}

impl VersionReq {
    /// The requirement `*`, with no comparator.
    pub fn star() -> (r: VersionReq)
        ensures
            r.comparators@.len() == 0,
    {
        VersionReq { comparators: Vec::new() }
    }

    /// Whether the version satisfies the requirement, by Cargo's rules.
    pub fn matches(&self, ver: &Version) -> (r: bool)
        ensures
            r == req_matches(*self, *ver),
    {
        let mut i: usize = 0;
        while i < self.comparators.len()
            invariant
                i <= self.comparators.len(),
                forall|j: int|
                    0 <= j < i ==> matches_impl_at(
                        #[trigger] self.comparators@[j],
                        ver.major,
                        ver.minor,
                        ver.patch,
                        ver.pre@,
                    ),
            decreases self.comparators.len() - i,
        {
            if !matches_impl(&self.comparators[i], ver) {
                return false;
            }
            i += 1;
        }
        if ver.pre.is_empty() {
            return true;
        }
        let mut k: usize = 0;
        while k < self.comparators.len()
            invariant
                k <= self.comparators.len(),
                ver.pre@.len() > 0,
                forall|j: int|
                    0 <= j < self.comparators@.len() ==> matches_impl_at(
                        #[trigger] self.comparators@[j],
                        ver.major,
                        ver.minor,
                        ver.patch,
                        ver.pre@,
                    ),
                forall|j: int|
                    0 <= j < k ==> !pre_compatible_at(
                        #[trigger] self.comparators@[j],
                        ver.major,
                        ver.minor,
                        ver.patch,
                    ),
            decreases self.comparators.len() - k,
        {
            if pre_is_compatible(&self.comparators[k], ver) {
                assert(pre_compatible_at(self.comparators@[k as int], ver.major, ver.minor, ver.patch));
                return true;
            }
            k += 1;
        }
        false
    }
}

impl Version {
    /// The ordinary release `major.minor.patch`.
    pub fn new(major: u64, minor: u64, patch: u64) -> (r: Version)
        ensures
            r.major == major,
            r.minor == minor,
            r.patch == patch,
            r.pre@.len() == 0,
            r.build@.len() == 0,
    {
        Version { major, minor, patch, pre: Prerelease::empty(), build: BuildMetadata::empty() }
    }

    /// SemVer precedence comparison, ignoring build metadata: -1, 0 or 1.
    pub fn compare_precedence(&self, other: &Version) -> (r: i8)
        ensures
            r == version_order(*self, *other),
    {
        if self.major != other.major {
            return if self.major < other.major {
                -1
            } else {
                1
            };
        }
        if self.minor != other.minor {
            return if self.minor < other.minor {
                -1
            } else {
                1
            };
        }
        if self.patch != other.patch {
            return if self.patch < other.patch {
                -1
            } else {
                1
            };
        }
        self.pre.compare(&other.pre)
    }

    /// SemVer precedence ordering, ignoring build metadata.
    pub fn cmp_precedence(&self, other: &Version) -> (r: Ordering)
        ensures
            r == ordering_of(version_order(*self, *other)),
    {
        let c = self.compare_precedence(other);
        if c < 0 {
            Ordering::Less
        } else if c == 0 {
            Ordering::Equal
        } else {
            Ordering::Greater
        }
    }
}

} // verus!
