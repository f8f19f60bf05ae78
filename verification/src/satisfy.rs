//! Satisfiability and least-witness computation for [`VersionReq`].
//!
//! This module answers, at the level of comparator semantics rather than by
//! scanning a bounded list of candidate releases, whether the conjunction of
//! two version requirements admits any version, and if so what the least
//! such version is under SemVer precedence.
//!
//! A comparator matches, at one fixed `major.minor.patch` triple, an
//! interval of the pre-release order (possibly with the ordinary release as
//! its top): [`classify`] describes that interval symbolically. The least
//! witness can only lie at the lowest triple that every comparator allows,
//! at its immediate successor, or at the triple of a comparator that names
//! a pre-release, since only such a comparator authorizes a pre-release.
//! At each such triple the intervals are intersected and the least
//! admissible pre-release, or else the ordinary release, is tried.
use crate::prerelease::{
    lemma_pre_order_basic, lemma_pre_order_trans, lemma_pre_successor, lemma_zero_pre_least,
    ordering_of, pre_order, pre_successor, valid_ident, valid_pre, zero_ident, zero_pre,
    Prerelease,
};
use crate::version::{
    matches_caret_at, matches_exact_at, matches_greater_at, matches_impl_at, matches_less_at,
    matches_tilde_at, pre_compatible_at, triple_order, BuildMetadata, Comparator, Op, Version,
    VersionReq,
};
use core::cmp::Ordering;
use vstd::prelude::*;

verus! {

/// A `major.minor.patch` triple, ordered lexicographically.
#[derive(Clone, Copy, PartialEq, Eq, Debug, Structural)]
pub struct Triple {
    pub major: u64,
    pub minor: u64,
    pub patch: u64,
}

impl Triple {
    /// The triple as a tuple, for [`triple_order`].
    pub open spec fn tuple(self) -> (u64, u64, u64) {
        (self.major, self.minor, self.patch)
    }

    pub fn new(major: u64, minor: u64, patch: u64) -> (r: Triple)
        ensures
            r.major == major,
            r.minor == minor,
            r.patch == patch,
    {
        Triple { major, minor, patch }
    }

    /// Immediate lexicographic successor, without wrapping on overflow.
    pub fn next(self) -> (r: Option<Triple>)
        ensures
            r matches Some(n) ==> triple_order(self.tuple(), n.tuple()) < 0,
            r matches Some(n) ==> forall|t: (u64, u64, u64)|
                triple_order(self.tuple(), t) < 0 ==> #[trigger] triple_order(n.tuple(), t) <= 0,
            r is None <==> (self.major == u64::MAX && self.minor == u64::MAX && self.patch
                == u64::MAX),
            r is None <==> triple_successor(self.tuple()) is None,
            r matches Some(n) ==> triple_successor(self.tuple()) == Some(n.tuple()),
    {
        if self.patch < u64::MAX {
            Some(Triple::new(self.major, self.minor, self.patch + 1))
        } else if self.minor < u64::MAX {
            Some(Triple::new(self.major, self.minor + 1, 0))
        } else if self.major < u64::MAX {
            Some(Triple::new(self.major + 1, 0, 0))
        } else {
            None
        }
    }
}

/// Why a conjunction of requirements is unsatisfiable.
#[derive(Clone, Copy, Eq, PartialEq, Debug, Structural)]
#[non_exhaustive]
pub enum ConflictReason {
    /// The requirements impose incompatible ordering, such as `>=2.0.0`
    /// together with `<1.0.0`, or `>1.2.3, <1.2.4` where the only versions
    /// strictly between the two bounds would be pre-releases that neither
    /// requirement authorizes.
    DisjointBounds,
    /// Satisfying the requirements would need a component larger than
    /// `u64::MAX`, for example `>18446744073709551615`.
    VersionSpaceExhausted,
}

/// Explanation returned by [`intersection`] when no version can satisfy
/// both requirements.
#[derive(Clone, Eq, PartialEq, Debug)]
pub struct Conflict {
    /// Which kind of incompatibility was detected.
    pub reason: ConflictReason,
    /// Display representation of the first requirement.
    pub first: String,
    /// Display representation of the second requirement.
    pub second: String,
}

/// Result of computing the intersection of two requirements.
///
/// When the requirements have any satisfying version in common, Cargo's
/// comparator semantics always single out a least one, which is returned as
/// [`Intersection::Witness`]. Otherwise [`Intersection::Unsatisfiable`]
/// explains why.
#[derive(Clone, Eq, PartialEq, Debug)]
#[non_exhaustive]
pub enum Intersection {
    /// The least version that satisfies both requirements; its build
    /// metadata is always empty.
    Witness(Version),
    /// No version satisfies both requirements.
    Unsatisfiable(Conflict),
}

/// Position of a lower bound on pre-releases at a fixed triple.
pub enum PreLo {
    /// `pre >=` the given non-empty identifier list.
    Ge(Prerelease),
    /// `pre >` the given non-empty identifier list.
    Gt(Prerelease),
}

/// Position of an upper bound on pre-releases at a fixed triple.
pub enum PreHi {
    /// No upper bound.
    Unbounded,
    /// Every pre-release but not the ordinary release.
    LtStable,
    /// `pre <=` the given identifier list.
    Le(Prerelease),
    /// `pre <` the given identifier list.
    Lt(Prerelease),
}

impl Clone for PreLo {
    fn clone(&self) -> (r: Self)
        ensures
            same_lo(Some(r), Some(*self)),
    {
        match self {
            PreLo::Ge(p) => PreLo::Ge(p.clone()),
            PreLo::Gt(p) => PreLo::Gt(p.clone()),
        }
    }
}

impl Clone for PreHi {
    fn clone(&self) -> (r: Self)
        ensures
            same_hi(r, *self),
    {
        match self {
            PreHi::Unbounded => PreHi::Unbounded,
            PreHi::LtStable => PreHi::LtStable,
            PreHi::Le(p) => PreHi::Le(p.clone()),
            PreHi::Lt(p) => PreHi::Lt(p.clone()),
        }
    }
}

/// The set of positions matched by one comparator at one triple, expressed
/// symbolically in the pre-release order.
pub struct TripleSet {
    /// Lower bound on pre-releases; `None` means no pre-release matches.
    pub pre_lo: Option<PreLo>,
    /// Upper bound on pre-releases.
    pub pre_hi: PreHi,
    /// Whether the ordinary (non-pre-release) release of the triple matches.
    pub stable: bool,
}

/// Whether the lower bound admits the pre-release `p`.
pub open spec fn lo_admits(lo: Option<PreLo>, p: Seq<Seq<u8>>) -> bool {
    match lo {
        None => false,
        Some(PreLo::Ge(x)) => pre_order(p, x@) >= 0,
        Some(PreLo::Gt(x)) => pre_order(p, x@) > 0,
    }
}

/// Whether the upper bound admits the pre-release `p`.
pub open spec fn hi_admits(hi: PreHi, p: Seq<Seq<u8>>) -> bool {
    match hi {
        PreHi::Unbounded => true,
        PreHi::LtStable => true,
        PreHi::Le(x) => pre_order(p, x@) <= 0,
        PreHi::Lt(x) => pre_order(p, x@) < 0,
    }
}

/// The identifier list named by a lower bound.
pub open spec fn lo_pre(lo: PreLo) -> Seq<Seq<u8>> {
    match lo {
        PreLo::Ge(x) => x@,
        PreLo::Gt(x) => x@,
    }
}

/// The same lower bound, up to the views of the pre-releases.
pub open spec fn same_lo(a: Option<PreLo>, b: Option<PreLo>) -> bool {
    match (a, b) {
        (None, None) => true,
        (Some(PreLo::Ge(x)), Some(PreLo::Ge(y))) => x@ == y@,
        (Some(PreLo::Gt(x)), Some(PreLo::Gt(y))) => x@ == y@,
        _ => false,
    }
}

/// The same upper bound, up to the views of the pre-releases.
pub open spec fn same_hi(a: PreHi, b: PreHi) -> bool {
    match (a, b) {
        (PreHi::Unbounded, PreHi::Unbounded) => true,
        (PreHi::LtStable, PreHi::LtStable) => true,
        (PreHi::Le(x), PreHi::Le(y)) => x@ == y@,
        (PreHi::Lt(x), PreHi::Lt(y)) => x@ == y@,
        _ => false,
    }
}

/// The pre-release named by an upper bound, if any.
pub open spec fn hi_pre(hi: PreHi) -> Option<Seq<Seq<u8>>> {
    match hi {
        PreHi::Le(x) => Some(x@),
        PreHi::Lt(x) => Some(x@),
        _ => None,
    }
}

/// The pre-release that a lower bound admits first.
pub open spec fn least_of(lo: PreLo) -> Seq<Seq<u8>> {
    match lo {
        PreLo::Ge(x) => x@,
        PreLo::Gt(x) => pre_successor(x@),
    }
}

impl TripleSet {
    /// Whether the non-empty pre-release `p` lies in the set.
    pub open spec fn admits_pre(self, p: Seq<Seq<u8>>) -> bool {
        lo_admits(self.pre_lo, p) && hi_admits(self.pre_hi, p)
    }

    /// The bounds name non-empty pre-releases.
    pub open spec fn wf(self) -> bool {
        &&& (self.pre_lo matches Some(lo) ==> lo_pre(lo).len() > 0)
        &&& (hi_pre(self.pre_hi) matches Some(x) ==> x.len() > 0)
    }

    /// The bounds name well-formed pre-releases.
    pub open spec fn bounds_valid(self) -> bool {
        &&& (self.pre_lo matches Some(lo) ==> valid_pre(lo_pre(lo)))
        &&& (hi_pre(self.pre_hi) matches Some(x) ==> valid_pre(x))
    }

    /// Some well-formed pre-release lies in the set.
    pub open spec fn has_pre(self) -> bool {
        exists|p: Seq<Seq<u8>>| valid_pre(p) && p.len() > 0 && #[trigger] self.admits_pre(p)
    }

    pub fn empty() -> (r: Self)
        ensures
            r.pre_lo is None,
            r.pre_hi is LtStable,
            !r.stable,
    {
        TripleSet { pre_lo: None, pre_hi: PreHi::LtStable, stable: false }
    }

    pub fn all() -> (r: Self)
        ensures
            r.pre_lo matches Some(PreLo::Ge(x)) && x@ == zero_pre(),
            r.pre_hi is Unbounded,
            r.stable,
    {
        TripleSet {
            pre_lo: Some(PreLo::Ge(Prerelease::zero())),
            pre_hi: PreHi::Unbounded,
            stable: true,
        }
    }

    pub fn stable_only() -> (r: Self)
        ensures
            r.pre_lo is None,
            r.pre_hi is LtStable,
            r.stable,
    {
        TripleSet { pre_lo: None, pre_hi: PreHi::LtStable, stable: true }
    }

    pub fn all_pre() -> (r: Self)
        ensures
            r.pre_lo matches Some(PreLo::Ge(x)) && x@ == zero_pre(),
            r.pre_hi is LtStable,
            !r.stable,
    {
        TripleSet {
            pre_lo: Some(PreLo::Ge(Prerelease::zero())),
            pre_hi: PreHi::LtStable,
            stable: false,
        }
    }

    pub fn pre_point(pre: Prerelease) -> (r: Self)
        ensures
            r.pre_lo matches Some(PreLo::Ge(x)) && x@ == pre@,
            r.pre_hi matches PreHi::Le(x) && x@ == pre@,
            !r.stable,
    {
        TripleSet {
            pre_lo: Some(PreLo::Ge(pre.clone())),
            pre_hi: PreHi::Le(pre),
            stable: false,
        }
    }

    /// `pre >= lo`, and additionally the ordinary release when `stable`.
    pub fn pre_ge(lo: Prerelease, stable: bool) -> (r: Self)
        ensures
            r.pre_lo matches Some(PreLo::Ge(x)) && x@ == lo@,
            r.pre_hi is Unbounded,
            r.stable == stable,
    {
        TripleSet { pre_lo: Some(PreLo::Ge(lo)), pre_hi: PreHi::Unbounded, stable }
    }

    /// `pre > lo`, and additionally the ordinary release when `stable`.
    pub fn pre_gt(lo: Prerelease, stable: bool) -> (r: Self)
        ensures
            r.pre_lo matches Some(PreLo::Gt(x)) && x@ == lo@,
            r.pre_hi is Unbounded,
            r.stable == stable,
    {
        TripleSet { pre_lo: Some(PreLo::Gt(lo)), pre_hi: PreHi::Unbounded, stable }
    }

    pub fn pre_le(hi: Prerelease) -> (r: Self)
        ensures
            r.pre_lo matches Some(PreLo::Ge(x)) && x@ == zero_pre(),
            r.pre_hi matches PreHi::Le(x) && x@ == hi@,
            !r.stable,
    {
        TripleSet {
            pre_lo: Some(PreLo::Ge(Prerelease::zero())),
            pre_hi: PreHi::Le(hi),
            stable: false,
        }
    }

    pub fn pre_lt(hi: Prerelease) -> (r: Self)
        ensures
            r.pre_lo matches Some(PreLo::Ge(x)) && x@ == zero_pre(),
            r.pre_hi matches PreHi::Lt(x) && x@ == hi@,
            !r.stable,
    {
        TripleSet {
            pre_lo: Some(PreLo::Ge(Prerelease::zero())),
            pre_hi: PreHi::Lt(hi),
            stable: false,
        }
    }

    /// Whether neither the ordinary release nor any well-formed pre-release
    /// lies in the set.
    pub fn is_empty(&self) -> (r: bool)
        ensures
            r == (!self.stable && !(self.pre_lo matches Some(lo) && hi_admits(
                self.pre_hi,
                least_of(lo),
            ))),
            self.wf() && r ==> forall|p: Seq<Seq<u8>>|
                valid_pre(p) && p.len() > 0 ==> !#[trigger] self.admits_pre(p),
            self.wf() && self.bounds_valid() ==> (r <==> !self.stable && !self.has_pre()),
    {
        !self.stable && !self.raw_pre_nonempty()
    }

    /// Whether the pre-release interval contains any well-formed
    /// identifier list, independently of authorization.
    pub fn raw_pre_nonempty(&self) -> (r: bool)
        ensures
            r == (self.pre_lo matches Some(lo) && hi_admits(self.pre_hi, least_of(lo))),
            self.wf() && !r ==> forall|p: Seq<Seq<u8>>|
                valid_pre(p) && p.len() > 0 ==> !#[trigger] self.admits_pre(p),
            self.wf() && self.bounds_valid() ==> (r <==> self.has_pre()),
    {
        let lo = match &self.pre_lo {
            None => {
                return false;
            },
            Some(lo) => lo,
        };
        let least = match lo {
            PreLo::Ge(pre) => pre.clone(),
            PreLo::Gt(pre) => pre.successor(),
        };
        let r = match &self.pre_hi {
            PreHi::Unbounded => true,
            PreHi::LtStable => true,
            PreHi::Le(hi) => least.compare(hi) <= 0,
            PreHi::Lt(hi) => least.compare(hi) < 0,
        };
        proof {
            if self.wf() {
                let x = lo_pre(*lo);
                assert forall|p: Seq<Seq<u8>>|
                    valid_pre(p) && p.len() > 0 && #[trigger] self.admits_pre(p) implies pre_order(
                    least@,
                    p,
                ) <= 0 by {
                    lemma_pre_order_basic(p, x);
                    lemma_pre_successor(x, p);
                }
                if !r {
                    assert forall|p: Seq<Seq<u8>>|
                        valid_pre(p) && p.len() > 0 implies !#[trigger] self.admits_pre(p) by {
                        if self.admits_pre(p) {
                            lemma_pre_order_basic(p, x);
                            lemma_pre_successor(x, p);
                            match self.pre_hi {
                                PreHi::Le(h) => {
                                    lemma_pre_order_trans(least@, p, h@);
                                    lemma_pre_order_basic(least@, h@);
                                },
                                PreHi::Lt(h) => {
                                    lemma_pre_order_trans(least@, p, h@);
                                    lemma_pre_order_basic(least@, h@);
                                },
                                _ => {},
                            }
                        }
                    }
                }
                if self.bounds_valid() && r {
                    lemma_valid_successor(x);
                    lemma_pre_successor(x, x);
                    lemma_pre_order_basic(least@, x);
                    assert(self.admits_pre(least@));
                }
            }
        }
        r
    }

    /// Whether the given non-empty pre-release lies in this set.
    pub fn contains_pre(&self, pre: &Prerelease) -> (r: bool)
        ensures
            r == self.admits_pre(pre@),
    {
        let above_lo = match &self.pre_lo {
            None => false,
            Some(PreLo::Ge(lo)) => pre.compare(lo) >= 0,
            Some(PreLo::Gt(lo)) => pre.compare(lo) > 0,
        };
        let below_hi = match &self.pre_hi {
            PreHi::Unbounded => true,
            PreHi::LtStable => true,
            PreHi::Le(hi) => pre.compare(hi) <= 0,
            PreHi::Lt(hi) => pre.compare(hi) < 0,
        };
        above_lo && below_hi
    }
}

/// Transitivity of the pre-release order, stated for any three
/// pre-releases.
pub proof fn lemma_order_chain(a: Seq<Seq<u8>>, b: Seq<Seq<u8>>, c: Seq<Seq<u8>>)
    ensures
        pre_order(a, b) <= 0 && pre_order(b, c) <= 0 ==> pre_order(a, c) <= 0,
        pre_order(a, b) < 0 && pre_order(b, c) <= 0 ==> pre_order(a, c) < 0,
        pre_order(a, b) <= 0 && pre_order(b, c) < 0 ==> pre_order(a, c) < 0,
        pre_order(a, b) == -pre_order(b, a),
        pre_order(b, c) == -pre_order(c, b),
        pre_order(a, c) == -pre_order(c, a),
{
    lemma_pre_order_basic(a, b);
    lemma_pre_order_basic(b, c);
    lemma_pre_order_basic(a, c);
    if pre_order(a, b) <= 0 && pre_order(b, c) <= 0 {
        lemma_pre_order_trans(a, b, c);
    }
}

/// A position in the pre-release order of one triple: a pre-release, or
/// the ordinary release above all of them.
pub enum Mark {
    Pre(Prerelease),
    Stable,
}

/// The position from which a comparator's matching set starts at its
/// lowest triple.
pub enum LowMark {
    /// Every pre-release at the triple can match.
    AllPre,
    /// Positions starting at this one.
    At(Mark),
}

/// Order of two positions: -1, 0 or 1.
pub open spec fn mark_order(a: Mark, b: Mark) -> int {
    match (a, b) {
        (Mark::Pre(x), Mark::Pre(y)) => pre_order(x@, y@),
        (Mark::Pre(_), Mark::Stable) => -1,
        (Mark::Stable, Mark::Pre(_)) => 1,
        (Mark::Stable, Mark::Stable) => 0,
    }
}

/// Order of two low marks: -1, 0 or 1, with `AllPre` lowest.
pub open spec fn low_mark_order(a: LowMark, b: LowMark) -> int {
    match (a, b) {
        (LowMark::AllPre, LowMark::AllPre) => 0,
        (LowMark::AllPre, LowMark::At(_)) => -1,
        (LowMark::At(_), LowMark::AllPre) => 1,
        (LowMark::At(x), LowMark::At(y)) => mark_order(x, y),
    }
}

impl Mark {
    pub fn cmp(&self, other: &Self) -> (r: Ordering)
        ensures
            r == ordering_of(mark_order(*self, *other)),
    {
        match (self, other) {
            (Mark::Pre(left), Mark::Pre(right)) => {
                let c = left.compare(right);
                if c < 0 {
                    Ordering::Less
                } else if c == 0 {
                    Ordering::Equal
                } else {
                    Ordering::Greater
                }
            },
            (Mark::Pre(_), Mark::Stable) => Ordering::Less,
            (Mark::Stable, Mark::Pre(_)) => Ordering::Greater,
            (Mark::Stable, Mark::Stable) => Ordering::Equal,
        }
    }
}

impl LowMark {
    pub fn cmp(&self, other: &Self) -> (r: Ordering)
        ensures
            r == ordering_of(low_mark_order(*self, *other)),
    {
        match (self, other) {
            (LowMark::AllPre, LowMark::AllPre) => Ordering::Equal,
            (LowMark::AllPre, LowMark::At(_)) => Ordering::Less,
            (LowMark::At(_), LowMark::AllPre) => Ordering::Greater,
            (LowMark::At(left), LowMark::At(right)) => left.cmp(right),
        }
    }
}

/// The key by which two lower bounds are compared: the named position,
/// and whether the bound is strict (a strict bound starts later).
fn lo_key(bound: &PreLo) -> (r: (Mark, bool))
    ensures
        r.0 matches Mark::Pre(x) && x@ == lo_pre(*bound),
        r.1 == (*bound is Gt),
{
    match bound {
        PreLo::Ge(pre) => (Mark::Pre(pre.clone()), false),
        PreLo::Gt(pre) => (Mark::Pre(pre.clone()), true),
    }
}

/// Lexicographic comparison of two lower-bound keys.
fn key_greater(a: &(Mark, bool), b: &(Mark, bool)) -> (r: bool)
    ensures
        r == (mark_order(a.0, b.0) > 0 || (mark_order(a.0, b.0) == 0 && a.1 && !b.1)),
{
    match a.0.cmp(&b.0) {
        Ordering::Greater => true,
        Ordering::Less => false,
        Ordering::Equal => a.1 && !b.1,
    }
}

impl TripleSet {
    /// Intersection of two sets at the same triple.
    pub fn intersect(self, rhs: &TripleSet) -> (r: TripleSet)
        ensures
            self.wf() && rhs.wf() ==> r.wf(),
            self.bounds_valid() && rhs.bounds_valid() ==> r.bounds_valid(),
            r.stable == (self.stable && rhs.stable),
            forall|p: Seq<Seq<u8>>| #[trigger]
                r.admits_pre(p) == (self.admits_pre(p) && rhs.admits_pre(p)),
            same_lo(r.pre_lo, self.pre_lo) || same_lo(r.pre_lo, rhs.pre_lo),
    {
        let pre_lo = match (&self.pre_lo, &rhs.pre_lo) {
            (None, _) => None,
            (_, None) => None,
            (Some(left), Some(right)) => {
                // Pick the bound whose admitted set starts later. At equal
                // named identifiers the strict bound starts later.
                let left_key = lo_key(left);
                let right_key = lo_key(right);
                Some(
                    if key_greater(&left_key, &right_key) {
                        left.clone()
                    } else {
                        right.clone()
                    },
                )
            },
        };
        let pre_hi = match (&self.pre_hi, &rhs.pre_hi) {
            (PreHi::Unbounded, other) => other.clone(),
            (other, PreHi::Unbounded) => other.clone(),
            (PreHi::LtStable, other) => {
                if matches!(other, PreHi::Unbounded) {
                    PreHi::LtStable
                } else {
                    other.clone()
                }
            },
            (other, PreHi::LtStable) => {
                if matches!(other, PreHi::Unbounded) {
                    PreHi::LtStable
                } else {
                    other.clone()
                }
            },
            (PreHi::Le(left), PreHi::Le(right)) => PreHi::Le(
                if left.compare(right) <= 0 {
                    left.clone()
                } else {
                    right.clone()
                },
            ),
            (PreHi::Lt(left), PreHi::Lt(right)) => PreHi::Lt(
                if left.compare(right) <= 0 {
                    left.clone()
                } else {
                    right.clone()
                },
            ),
            (PreHi::Le(le), PreHi::Lt(lt)) => {
                // The position `lt` is below the position `le` exactly when
                // `lt <= le`.
                if lt.compare(le) <= 0 {
                    PreHi::Lt(lt.clone())
                } else {
                    PreHi::Le(le.clone())
                }
            },
            (PreHi::Lt(lt), PreHi::Le(le)) => {
                if lt.compare(le) <= 0 {
                    PreHi::Lt(lt.clone())
                } else {
                    PreHi::Le(le.clone())
                }
            },
        };
        let r = TripleSet { pre_lo, pre_hi, stable: self.stable && rhs.stable };
        proof {
            assert forall|p: Seq<Seq<u8>>| #[trigger]
                r.admits_pre(p) == (self.admits_pre(p) && rhs.admits_pre(p)) by {
                if let (Some(l), Some(rr)) = (self.pre_lo, rhs.pre_lo) {
                    lemma_order_chain(lo_pre(l), lo_pre(rr), p);
                    lemma_order_chain(lo_pre(rr), lo_pre(l), p);
                }
                if let (Some(a), Some(b)) = (hi_pre(self.pre_hi), hi_pre(rhs.pre_hi)) {
                    lemma_order_chain(p, a, b);
                    lemma_order_chain(p, b, a);
                }
            }
        }
        r
    }
}

/// Where a lower bound produced at `major.minor.patch` can come from: the
/// least pre-release `0`, or the pre-release of a comparator naming that
/// very triple (strictly only when `strict_ok`, that is for `>`).
pub open spec fn lo_origin(
    lo: Option<PreLo>,
    c: Comparator,
    major: u64,
    minor: u64,
    patch: u64,
    strict_ok: bool,
) -> bool {
    match lo {
        None => true,
        Some(PreLo::Ge(x)) => x@ == zero_pre() || (pre_compatible_at(c, major, minor, patch) && x@
            == c.pre@),
        Some(PreLo::Gt(x)) => strict_ok && pre_compatible_at(c, major, minor, patch) && x@
            == c.pre@,
    }
}

/// `s` is exactly the set of positions at `major.minor.patch` that the
/// predicate `m` admits: the ordinary release iff `m` admits the empty
/// pre-release, and each well-formed pre-release iff `m` admits it.
pub open spec fn describes(
    s: TripleSet,
    c: Comparator,
    major: u64,
    minor: u64,
    patch: u64,
    m: spec_fn(Seq<Seq<u8>>) -> bool,
    strict_ok: bool,
) -> bool {
    &&& s.wf()
    &&& (c.wf() ==> {
        &&& s.bounds_valid()
        &&& s.stable == m(Seq::<Seq<u8>>::empty())
        &&& forall|p: Seq<Seq<u8>>|
            valid_pre(p) && p.len() > 0 ==> (#[trigger] s.admits_pre(p) == m(p))
        &&& lo_origin(s.pre_lo, c, major, minor, patch, strict_ok)
    })
}

/// Every well-formed non-empty pre-release is at or above `0`.
pub proof fn lemma_zero_below_all()
    ensures
        forall|p: Seq<Seq<u8>>|
            valid_pre(p) && p.len() > 0 ==> #[trigger] pre_order(p, zero_pre()) >= 0,
{
    assert forall|p: Seq<Seq<u8>>| valid_pre(p) && p.len() > 0 implies #[trigger] pre_order(
        p,
        zero_pre(),
    ) >= 0 by {
        lemma_zero_pre_least(p);
        lemma_pre_order_basic(p, zero_pre());
    }
}

/// The pre-release `0` is well formed and non-empty.
pub proof fn lemma_zero_valid()
    ensures
        valid_pre(zero_pre()),
        zero_pre().len() > 0,
{
    assert(valid_ident(zero_ident()));
    assert(zero_pre()[0] == zero_ident());
}

/// Symbolic counterpart of comparator matching, specialized to one triple:
/// the set of pre-release and ordinary positions at that triple which the
/// comparator's operator admits.
pub fn classify(c: &Comparator, ver: Triple) -> (r: TripleSet)
    ensures
        describes(
            r,
            *c,
            ver.major,
            ver.minor,
            ver.patch,
            |p: Seq<Seq<u8>>| matches_impl_at(*c, ver.major, ver.minor, ver.patch, p),
            c.op == Op::Greater,
        ),
{
    let Triple { major, minor, patch } = ver;
    match c.op {
        Op::Exact | Op::Wildcard => classify_exact(c, major, minor, patch),
        Op::Greater => classify_greater(c, major, minor, patch),
        Op::GreaterEq => classify_greater_eq(c, major, minor, patch),
        Op::Less => classify_less(c, major, minor, patch),
        Op::LessEq => classify_less_eq(c, major, minor, patch),
        Op::Tilde => classify_tilde(c, major, minor, patch),
        Op::Caret => classify_caret(c, major, minor, patch),
    }
}

pub fn classify_exact(c: &Comparator, major: u64, minor: u64, patch: u64) -> (r: TripleSet)
    ensures
        describes(
            r,
            *c,
            major,
            minor,
            patch,
            |p: Seq<Seq<u8>>| matches_exact_at(*c, major, minor, patch, p),
            false,
        ),
{
    proof {
        lemma_zero_below_all();
        if c.pre@.len() == 0 {
            assert(c.pre@ =~= Seq::<Seq<u8>>::empty());
        }
    }
    if major != c.major {
        return TripleSet::empty();
    }
    if let Some(c_minor) = c.minor {
        if minor != c_minor {
            return TripleSet::empty();
        }
    }
    if let Some(c_patch) = c.patch {
        if patch != c_patch {
            return TripleSet::empty();
        }
    }
    if c.pre.is_empty() {
        TripleSet::stable_only()
    } else {
        let r = TripleSet::pre_point(c.pre.clone());
        proof {
            assert forall|p: Seq<Seq<u8>>|
                valid_pre(p) && p.len() > 0 implies (#[trigger] r.admits_pre(p) == (p
                == c.pre@)) by {
                lemma_pre_order_basic(p, c.pre@);
            }
        }
        r
    }
}

pub fn classify_greater(c: &Comparator, major: u64, minor: u64, patch: u64) -> (r: TripleSet)
    ensures
        describes(
            r,
            *c,
            major,
            minor,
            patch,
            |p: Seq<Seq<u8>>| matches_greater_at(*c, major, minor, patch, p),
            true,
        ),
{
    proof {
        lemma_zero_below_all();
        if c.pre@.len() == 0 {
            assert(c.pre@ =~= Seq::<Seq<u8>>::empty());
        }
        lemma_zero_valid();
    }
    if major != c.major {
        return if major > c.major {
            TripleSet::all()
        } else {
            TripleSet::empty()
        };
    }
    let c_minor = match c.minor {
        None => {
            return TripleSet::empty();
        },
        Some(m) => m,
    };
    if minor != c_minor {
        return if minor > c_minor {
            TripleSet::all()
        } else {
            TripleSet::empty()
        };
    }
    let c_patch = match c.patch {
        None => {
            return TripleSet::empty();
        },
        Some(p) => p,
    };
    if patch != c_patch {
        return if patch > c_patch {
            TripleSet::all()
        } else {
            TripleSet::empty()
        };
    }
    if c.pre.is_empty() {
        // Nothing is above the ordinary release.
        TripleSet::empty()
    } else {
        // Pre-releases strictly above the bound, plus the ordinary release
        // (which outranks every pre-release of the same triple).
        TripleSet::pre_gt(c.pre.clone(), true)
    }
}

pub fn classify_greater_eq(c: &Comparator, major: u64, minor: u64, patch: u64) -> (r: TripleSet)
    ensures
        describes(
            r,
            *c,
            major,
            minor,
            patch,
            |p: Seq<Seq<u8>>|
                matches_exact_at(*c, major, minor, patch, p) || matches_greater_at(
                    *c,
                    major,
                    minor,
                    patch,
                    p,
                ),
            false,
        ),
{
    proof {
        lemma_zero_below_all();
        if c.pre@.len() == 0 {
            assert(c.pre@ =~= Seq::<Seq<u8>>::empty());
        }
        lemma_zero_valid();
    }
    if major != c.major {
        return if major > c.major {
            TripleSet::all()
        } else {
            TripleSet::empty()
        };
    }
    let c_minor = match c.minor {
        // `>=I` is `>=I.0.0`: within the anchor major only ordinary
        // releases match.
        None => {
            return TripleSet::stable_only();
        },
        Some(m) => m,
    };
    if minor != c_minor {
        return if minor > c_minor {
            TripleSet::all()
        } else {
            TripleSet::empty()
        };
    }
    let c_patch = match c.patch {
        // `>=I.J` behaves like `>=I.J.0`.
        None => {
            return TripleSet::stable_only();
        },
        Some(p) => p,
    };
    if patch != c_patch {
        return if patch > c_patch {
            TripleSet::all()
        } else {
            TripleSet::empty()
        };
    }
    if c.pre.is_empty() {
        TripleSet::stable_only()
    } else {
        let r = TripleSet::pre_ge(c.pre.clone(), true);
        proof {
            assert forall|p: Seq<Seq<u8>>| valid_pre(p) && p.len() > 0 implies #[trigger] r.admits_pre(p)
                == (p == c.pre@ || pre_order(p, c.pre@) > 0) by {
                lemma_pre_order_basic(p, c.pre@);
            }
        }
        r
    }
}

pub fn classify_less(c: &Comparator, major: u64, minor: u64, patch: u64) -> (r: TripleSet)
    ensures
        describes(
            r,
            *c,
            major,
            minor,
            patch,
            |p: Seq<Seq<u8>>| matches_less_at(*c, major, minor, patch, p),
            false,
        ),
{
    proof {
        lemma_zero_below_all();
        if c.pre@.len() == 0 {
            assert(c.pre@ =~= Seq::<Seq<u8>>::empty());
        }
        lemma_zero_valid();
    }
    if major != c.major {
        return if major < c.major {
            TripleSet::all()
        } else {
            TripleSet::empty()
        };
    }
    let c_minor = match c.minor {
        None => {
            return TripleSet::empty();
        },
        Some(m) => m,
    };
    if minor != c_minor {
        return if minor < c_minor {
            TripleSet::all()
        } else {
            TripleSet::empty()
        };
    }
    let c_patch = match c.patch {
        None => {
            return TripleSet::empty();
        },
        Some(p) => p,
    };
    if patch != c_patch {
        return if patch < c_patch {
            TripleSet::all()
        } else {
            TripleSet::empty()
        };
    }
    if c.pre.is_empty() {
        TripleSet::all_pre()
    } else {
        TripleSet::pre_lt(c.pre.clone())
    }
}

pub fn classify_less_eq(c: &Comparator, major: u64, minor: u64, patch: u64) -> (r: TripleSet)
    ensures
        describes(
            r,
            *c,
            major,
            minor,
            patch,
            |p: Seq<Seq<u8>>|
                matches_exact_at(*c, major, minor, patch, p) || matches_less_at(
                    *c,
                    major,
                    minor,
                    patch,
                    p,
                ),
            false,
        ),
{
    proof {
        lemma_zero_below_all();
        if c.pre@.len() == 0 {
            assert(c.pre@ =~= Seq::<Seq<u8>>::empty());
        }
        lemma_zero_valid();
    }
    if major != c.major {
        return if major < c.major {
            TripleSet::all()
        } else {
            TripleSet::empty()
        };
    }
    let c_minor = match c.minor {
        // `<=I` is `exact(I) | less(I)`: within the anchor major only
        // ordinary releases match.
        None => {
            return TripleSet::stable_only();
        },
        Some(m) => m,
    };
    if minor != c_minor {
        return if minor < c_minor {
            TripleSet::all()
        } else {
            TripleSet::empty()
        };
    }
    let c_patch = match c.patch {
        // `<=I.J` is `exact(I.J) | less(I.J)`; at the anchor triple only the
        // ordinary release matches.
        None => {
            return TripleSet::stable_only();
        },
        Some(p) => p,
    };
    if patch != c_patch {
        return if patch < c_patch {
            TripleSet::all()
        } else {
            TripleSet::empty()
        };
    }
    if c.pre.is_empty() {
        // Everything at the triple up to and including the ordinary release.
        TripleSet {
            pre_lo: Some(PreLo::Ge(Prerelease::zero())),
            pre_hi: PreHi::Unbounded,
            stable: true,
        }
    } else {
        let r = TripleSet::pre_le(c.pre.clone());
        proof {
            assert forall|p: Seq<Seq<u8>>| valid_pre(p) && p.len() > 0 implies #[trigger] r.admits_pre(p)
                == (p == c.pre@ || pre_order(p, c.pre@) < 0) by {
                lemma_pre_order_basic(p, c.pre@);
            }
        }
        r
    }
}

pub fn classify_tilde(c: &Comparator, major: u64, minor: u64, patch: u64) -> (r: TripleSet)
    ensures
        describes(
            r,
            *c,
            major,
            minor,
            patch,
            |p: Seq<Seq<u8>>| matches_tilde_at(*c, major, minor, patch, p),
            false,
        ),
{
    proof {
        lemma_zero_below_all();
        if c.pre@.len() == 0 {
            assert(c.pre@ =~= Seq::<Seq<u8>>::empty());
        }
        lemma_zero_valid();
    }
    if major != c.major {
        return TripleSet::empty();
    }
    if let Some(c_minor) = c.minor {
        if minor != c_minor {
            return TripleSet::empty();
        }
    }
    let c_patch = match c.patch {
        None => {
            return TripleSet::stable_only();
        },
        Some(p) => p,
    };
    if patch != c_patch {
        return if patch > c_patch {
            TripleSet::all()
        } else {
            TripleSet::empty()
        };
    }
    if c.pre.is_empty() {
        TripleSet::stable_only()
    } else {
        TripleSet::pre_ge(c.pre.clone(), true)
    }
}

pub fn classify_caret(c: &Comparator, major: u64, minor: u64, patch: u64) -> (r: TripleSet)
    ensures
        describes(
            r,
            *c,
            major,
            minor,
            patch,
            |p: Seq<Seq<u8>>| matches_caret_at(*c, major, minor, patch, p),
            false,
        ),
{
    proof {
        lemma_zero_below_all();
        if c.pre@.len() == 0 {
            assert(c.pre@ =~= Seq::<Seq<u8>>::empty());
        }
        lemma_zero_valid();
    }
    if major != c.major {
        return TripleSet::empty();
    }
    // `^I` and `^I.J` admit whole triples, pre-releases included; whether a
    // pre-release is authorized is decided per requirement afterwards.
    let c_minor = match c.minor {
        None => {
            return TripleSet::all();
        },
        Some(m) => m,
    };
    let c_patch = match c.patch {
        None => {
            if c.major > 0 {
                if minor >= c_minor {
                    return TripleSet::all();
                }
            } else if minor == c_minor {
                return TripleSet::all();
            }
            return TripleSet::empty();
        },
        Some(p) => p,
    };
    let same_triple = minor == c_minor && patch == c_patch;
    if c.major > 0 {
        if minor != c_minor {
            if minor > c_minor {
                return TripleSet::all();
            }
            return TripleSet::empty();
        } else if patch != c_patch {
            if patch > c_patch {
                return TripleSet::all();
            }
            return TripleSet::empty();
        }
    } else if c_minor > 0 {
        if minor != c_minor {
            return TripleSet::empty();
        } else if patch != c_patch {
            if patch > c_patch {
                return TripleSet::all();
            }
            return TripleSet::empty();
        }
    } else if !same_triple {
        return TripleSet::empty();
    }
    if c.pre.is_empty() {
        TripleSet::stable_only()
    } else {
        TripleSet::pre_ge(c.pre.clone(), true)
    }
}

/// The immediate successor of a triple, if it is representable.
pub open spec fn triple_successor(t: (u64, u64, u64)) -> Option<(u64, u64, u64)> {
    if t.2 < u64::MAX {
        Some((t.0, t.1, (t.2 + 1) as u64))
    } else if t.1 < u64::MAX {
        Some((t.0, (t.1 + 1) as u64, 0))
    } else if t.0 < u64::MAX {
        Some(((t.0 + 1) as u64, 0, 0))
    } else {
        None
    }
}

/// The triple a comparator names, missing parts read as 0.
pub open spec fn anchor_of(c: Comparator) -> (u64, u64, u64) {
    (
        c.major,
        match c.minor {
            Some(m) => m,
            None => 0,
        },
        match c.patch {
            Some(p) => p,
            None => 0,
        },
    )
}

/// The lowest triple at which the comparator's operator admits anything;
/// `None` when that triple lies beyond the representable version space.
pub open spec fn low_edge(c: Comparator) -> Option<(u64, u64, u64)> {
    match c.op {
        Op::Exact => Some(anchor_of(c)),
        Op::Wildcard => Some(anchor_of(c)),
        Op::GreaterEq => Some(anchor_of(c)),
        Op::Tilde => Some(anchor_of(c)),
        Op::Caret => Some(anchor_of(c)),
        Op::Greater => if c.minor is None {
            if c.major < u64::MAX {
                Some(((c.major + 1) as u64, 0, 0))
            } else {
                None
            }
        } else if c.patch is None {
            if c.minor->0 < u64::MAX {
                Some((c.major, (c.minor->0 + 1) as u64, 0))
            } else if c.major < u64::MAX {
                Some(((c.major + 1) as u64, 0, 0))
            } else {
                None
            }
        } else if c.pre@.len() == 0 {
            triple_successor(anchor_of(c))
        } else {
            Some(anchor_of(c))
        },
        Op::Less | Op::LessEq => Some((0, 0, 0)),
    }
}

/// The position from which the comparator's matching set starts at its
/// lowest triple.
pub open spec fn low_mark_is(m: LowMark, c: Comparator) -> bool {
    match c.op {
        Op::Exact | Op::Wildcard => if c.patch is Some && c.pre@.len() > 0 {
            m matches LowMark::At(Mark::Pre(x)) && x@ == c.pre@
        } else {
            m matches LowMark::At(Mark::Stable)
        },
        Op::Greater => m matches LowMark::At(Mark::Stable),
        Op::GreaterEq | Op::Tilde | Op::Caret => if c.pre@.len() == 0 {
            m matches LowMark::At(Mark::Stable)
        } else {
            m matches LowMark::At(Mark::Pre(x)) && x@ == c.pre@
        },
        Op::Less | Op::LessEq => m is AllPre,
    }
}

/// Every version that a comparator's operator admits lies at or above the
/// comparator's low edge; in particular a comparator whose low edge is
/// beyond the representable space admits nothing.
pub proof fn lemma_low_edge_below(
    c: Comparator,
    major: u64,
    minor: u64,
    patch: u64,
    p: Seq<Seq<u8>>,
)
    requires
        c.patch is Some ==> c.minor is Some,
        matches_impl_at(c, major, minor, patch, p),
    ensures
        low_edge(c) matches Some(l) && triple_order(l, (major, minor, patch)) <= 0,
{
}

/// A comparator whose low edge lies beyond the representable version
/// space admits no version at all.
pub proof fn lemma_low_edge_exhausted(
    c: Comparator,
    major: u64,
    minor: u64,
    patch: u64,
    p: Seq<Seq<u8>>,
)
    requires
        low_edge(c) is None,
    ensures
        !matches_impl_at(c, major, minor, patch, p),
{
}

/// Projected onto ordinary releases, a well-formed comparator matches an
/// interval of triples that starts at its low edge: an ordinary release
/// between the low edge and a matching ordinary release matches too.
pub proof fn lemma_low_edge_stable_convex(
    c: Comparator,
    t: (u64, u64, u64),
    w: (u64, u64, u64),
)
    requires
        c.wf(),
        low_edge(c) matches Some(l) && triple_order(l, t) <= 0,
        triple_order(t, w) <= 0,
        matches_impl_at(c, w.0, w.1, w.2, Seq::<Seq<u8>>::empty()),
    ensures
        matches_impl_at(c, t.0, t.1, t.2, Seq::<Seq<u8>>::empty()),
{
    if c.pre@.len() == 0 {
        assert(c.pre@ =~= Seq::<Seq<u8>>::empty());
    }
}

/// Ordering of candidate low positions, where a missing triple denotes a
/// bound beyond the representable space and sorts above every real triple.
pub open spec fn low_order(left: (Option<Triple>, LowMark), right: (Option<Triple>, LowMark)) -> int {
    match (left.0, right.0) {
        (None, None) => 0,
        (None, Some(_)) => 1,
        (Some(_), None) => -1,
        (Some(a), Some(b)) => if triple_order(a.tuple(), b.tuple()) != 0 {
            triple_order(a.tuple(), b.tuple())
        } else {
            low_mark_order(left.1, right.1)
        },
    }
}

/// Lexicographic comparison of two triples: -1, 0 or 1.
pub fn compare_triples(a: Triple, b: Triple) -> (r: i8)
    ensures
        r == triple_order(a.tuple(), b.tuple()),
{
    if a.major != b.major {
        if a.major < b.major {
            -1
        } else {
            1
        }
    } else if a.minor != b.minor {
        if a.minor < b.minor {
            -1
        } else {
            1
        }
    } else if a.patch != b.patch {
        if a.patch < b.patch {
            -1
        } else {
            1
        }
    } else {
        0
    }
}

/// The lowest position from which the comparator's raw matching set starts,
/// together with its triple. A `None` triple means the bound lies beyond the
/// representable version space.
pub fn comparator_low(c: &Comparator) -> (r: (Option<Triple>, LowMark))
    ensures
        r.0 is None <==> low_edge(*c) is None,
        r.0 matches Some(t) ==> low_edge(*c) == Some(t.tuple()),
        low_mark_is(r.1, *c),
{
    let anchor_minor = match c.minor {
        Some(m) => m,
        None => 0,
    };
    let anchor_patch = match c.patch {
        Some(p) => p,
        None => 0,
    };
    let anchor = Triple::new(c.major, anchor_minor, anchor_patch);
    assert(anchor.tuple() == anchor_of(*c));
    match c.op {
        Op::Exact | Op::Wildcard => {
            let mark = if c.patch.is_some() && !c.pre.is_empty() {
                LowMark::At(Mark::Pre(c.pre.clone()))
            } else {
                LowMark::At(Mark::Stable)
            };
            (Some(anchor), mark)
        },
        Op::Greater => {
            if c.minor.is_none() {
                // `>I` means `>=(I+1).0.0`.
                let triple = if c.major < u64::MAX {
                    Some(Triple::new(c.major + 1, 0, 0))
                } else {
                    None
                };
                (triple, LowMark::At(Mark::Stable))
            } else if c.patch.is_none() {
                // `>I.J` means `>=I.(J+1).0`; if the minor overflows the
                // requirement carries into the major component.
                let minor = match c.minor {
                    Some(m) => m,
                    None => 0,
                };
                let triple = if minor < u64::MAX {
                    Some(Triple::new(c.major, minor + 1, 0))
                } else if c.major < u64::MAX {
                    Some(Triple::new(c.major + 1, 0, 0))
                } else {
                    None
                };
                (triple, LowMark::At(Mark::Stable))
            } else {
                // `>I.J.K-pre`: the ordinary release matches (it outranks
                // every pre-release), so the low edge is the stable position.
                // `>I.J.K` needs the next triple, which at the numeric
                // ceiling is beyond the representable space.
                if c.pre.is_empty() {
                    (anchor.next(), LowMark::At(Mark::Stable))
                } else {
                    (Some(anchor), LowMark::At(Mark::Stable))
                }
            }
        },
        Op::GreaterEq | Op::Tilde | Op::Caret => {
            let mark = if c.pre.is_empty() {
                LowMark::At(Mark::Stable)
            } else {
                LowMark::At(Mark::Pre(c.pre.clone()))
            };
            (Some(anchor), mark)
        },
        // Upper-bound comparators constrain from below only at the global
        // minimum version.
        Op::Less | Op::LessEq => (Some(Triple::new(0, 0, 0)), LowMark::AllPre),
    }
}

/// Ordering of candidate low positions where a missing triple denotes a bound
/// beyond the representable space, which sorts above every real triple.
pub fn cmp_low(left: &(Option<Triple>, LowMark), right: &(Option<Triple>, LowMark)) -> (r: Ordering)
    ensures
        r == ordering_of(low_order(*left, *right)),
{
    match (&left.0, &right.0) {
        (None, None) => Ordering::Equal,
        (None, Some(_)) => Ordering::Greater,
        (Some(_), None) => Ordering::Less,
        (Some(left_triple), Some(right_triple)) => {
            let c = compare_triples(*left_triple, *right_triple);
            if c < 0 {
                Ordering::Less
            } else if c > 0 {
                Ordering::Greater
            } else {
                left.1.cmp(&right.1)
            }
        },
    }
}

/// The successor of a well-formed pre-release is well formed.
pub proof fn lemma_valid_successor(x: Seq<Seq<u8>>)
    requires
        valid_pre(x),
    ensures
        valid_pre(pre_successor(x)),
{
    let s = pre_successor(x);
    assert(valid_ident(zero_ident()));
    assert forall|i: int| 0 <= i < s.len() implies valid_ident(#[trigger] s[i]) by {
        if i < x.len() {
            assert(s[i] == x[i]);
        }
    }
}

} // verus!
