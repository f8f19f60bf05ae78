//! The search for the least version satisfying several requirements at
//! once.
use crate::ordered::{
    has_pre_view, lemma_triple_order, pres_ascending, sorted_unique_pres, sorted_unique_triples,
    triples_ascending,
};
use crate::prerelease::{
    lemma_pre_order_basic, lemma_pre_order_trans, lemma_pre_successor, pre_order, pre_successor,
    valid_pre, zero_pre, Prerelease,
};
use crate::satisfy::{
    classify, cmp_low, comparator_low, describes, lemma_low_edge_below,
    lemma_low_edge_exhausted, lemma_low_edge_stable_convex, lemma_valid_successor,
    lemma_zero_below_all, lemma_zero_valid, Conflict, Intersection, least_of, lo_admits, lo_pre, low_edge, low_order, same_lo, LowMark, PreHi, PreLo, Triple,
    TripleSet, ConflictReason,
};
use crate::version::{
    matches_impl_at, pre_compatible_at, req_authorizes, req_matches, req_matches_at, version_le, triple_order, BuildMetadata, Comparator,
    Op, Version, VersionReq,
};
use crate::text::req_text;
use core::cmp::Ordering;
use vstd::prelude::*;

verus! {

/// `c` is one of the comparators of the requirements in `groups`.
pub open spec fn in_groups(groups: Seq<&VersionReq>, c: Comparator) -> bool {
    exists|g: int, i: int|
        0 <= g < groups.len() && 0 <= i < groups[g].comparators@.len()
            && #[trigger] groups[g].comparators@[i] == c
}

/// `c` is one of the listed comparators.
pub open spec fn in_list(list: Seq<&Comparator>, c: Comparator) -> bool {
    exists|k: int| 0 <= k < list.len() && *(#[trigger] list[k]) == c
}

/// `list` lists exactly the comparators of the requirements in `groups`.
pub open spec fn lists_comparators(list: Seq<&Comparator>, groups: Seq<&VersionReq>) -> bool {
    &&& forall|k: int| 0 <= k < list.len() ==> in_groups(groups, *(#[trigger] list[k]))
    &&& forall|g: int, i: int|
        0 <= g < groups.len() && 0 <= i < groups[g].comparators@.len() ==> in_list(
            list,
            #[trigger] groups[g].comparators@[i],
        )
}

/// Every requirement matches `major.minor.patch-pre`.
pub open spec fn satisfied_by_all(
    groups: Seq<&VersionReq>,
    major: u64,
    minor: u64,
    patch: u64,
    pre: Seq<Seq<u8>>,
) -> bool {
    forall|g: int| 0 <= g < groups.len() ==> req_matches_at(*#[trigger] groups[g], major, minor, patch, pre)
}

/// Every requirement has a comparator that authorizes pre-releases of
/// `major.minor.patch`.
pub open spec fn all_authorize(groups: Seq<&VersionReq>, major: u64, minor: u64, patch: u64) -> bool {
    forall|g: int| 0 <= g < groups.len() ==> req_authorizes(*#[trigger] groups[g], major, minor, patch)
}

/// Every listed comparator's operator admits `major.minor.patch-pre`.
pub open spec fn all_admit(list: Seq<&Comparator>, major: u64, minor: u64, patch: u64, pre: Seq<Seq<u8>>) -> bool {
    forall|k: int| 0 <= k < list.len() ==> matches_impl_at(*#[trigger] list[k], major, minor, patch, pre)
}

/// Every requirement is well formed.
pub open spec fn all_wf(groups: Seq<&VersionReq>) -> bool {
    forall|g: int| 0 <= g < groups.len() ==> (*#[trigger] groups[g]).wf()
}

/// Every listed comparator is well formed.
pub open spec fn all_listed_wf(list: Seq<&Comparator>) -> bool {
    forall|k: int| 0 <= k < list.len() ==> (*#[trigger] list[k]).wf()
}

/// What the pre-release search at one triple accepts: authorized by every
/// requirement and matched by every requirement.
pub open spec fn groups_accept(groups: Seq<&VersionReq>, major: u64, minor: u64, patch: u64, pre: Seq<Seq<u8>>) -> bool {
    all_authorize(groups, major, minor, patch) && satisfied_by_all(groups, major, minor, patch, pre)
}

/// Matching every requirement means admission by every listed comparator,
/// and, for a pre-release, authorization by every requirement.
pub proof fn lemma_satisfied_admitted(
    list: Seq<&Comparator>,
    groups: Seq<&VersionReq>,
    major: u64,
    minor: u64,
    patch: u64,
    pre: Seq<Seq<u8>>,
)
    requires
        lists_comparators(list, groups),
        satisfied_by_all(groups, major, minor, patch, pre),
    ensures
        all_admit(list, major, minor, patch, pre),
        pre.len() > 0 ==> all_authorize(groups, major, minor, patch),
{
    assert forall|k: int| 0 <= k < list.len() implies matches_impl_at(
        *#[trigger] list[k],
        major,
        minor,
        patch,
        pre,
    ) by {
        assert(in_groups(groups, *list[k]));
        let (g, i) = choose|g: int, i: int|
            0 <= g < groups.len() && 0 <= i < groups[g].comparators@.len()
                && #[trigger] groups[g].comparators@[i] == *list[k];
        assert(req_matches_at(*groups[g], major, minor, patch, pre));
    }
    if pre.len() > 0 {
        assert forall|g: int| 0 <= g < groups.len() implies req_authorizes(
            *#[trigger] groups[g],
            major,
            minor,
            patch,
        ) by {
            assert(req_matches_at(*groups[g], major, minor, patch, pre));
        }
    }
}

/// Admission by every listed comparator, with authorization for a
/// pre-release, means matching every requirement.
pub proof fn lemma_admitted_satisfied(
    list: Seq<&Comparator>,
    groups: Seq<&VersionReq>,
    major: u64,
    minor: u64,
    patch: u64,
    pre: Seq<Seq<u8>>,
)
    requires
        lists_comparators(list, groups),
        all_admit(list, major, minor, patch, pre),
        pre.len() == 0 || all_authorize(groups, major, minor, patch),
    ensures
        satisfied_by_all(groups, major, minor, patch, pre),
{
    assert forall|g: int| 0 <= g < groups.len() implies req_matches_at(
        *#[trigger] groups[g],
        major,
        minor,
        patch,
        pre,
    ) by {
        assert forall|i: int| 0 <= i < groups[g].comparators@.len() implies matches_impl_at(
            #[trigger] groups[g].comparators@[i],
            major,
            minor,
            patch,
            pre,
        ) by {
            assert(in_list(list, groups[g].comparators@[i]));
            let k = choose|k: int|
                0 <= k < list.len() && *(#[trigger] list[k]) == groups[g].comparators@[i];
            assert(matches_impl_at(*list[k], major, minor, patch, pre));
        }
        if pre.len() > 0 {
            assert(req_authorizes(*groups[g], major, minor, patch));
        }
    }
}

/// The listed comparators of well-formed requirements are well formed.
pub proof fn lemma_listed_wf(list: Seq<&Comparator>, groups: Seq<&VersionReq>)
    requires
        lists_comparators(list, groups),
        all_wf(groups),
    ensures
        all_listed_wf(list),
{
    assert forall|k: int| 0 <= k < list.len() implies (*#[trigger] list[k]).wf() by {
        assert(in_groups(groups, *list[k]));
        let (g, i) = choose|g: int, i: int|
            0 <= g < groups.len() && 0 <= i < groups[g].comparators@.len()
                && #[trigger] groups[g].comparators@[i] == *list[k];
        assert((*groups[g]).wf());
    }
}

/// Where a candidate pre-release at `t` comes from: the least pre-release
/// `0`, the pre-release of a listed comparator naming `t`, or for a strict
/// `>` such comparator the successor of its pre-release.
pub open spec fn candidate_origin(x: Seq<Seq<u8>>, t: Triple, cs: Seq<&Comparator>) -> bool {
    x == zero_pre() || exists|j: int|
        0 <= j < cs.len() && pre_compatible_at(*#[trigger] cs[j], t.major, t.minor, t.patch) && (x
            == cs[j].pre@ || (cs[j].op == Op::Greater && x == pre_successor(cs[j].pre@)))
}

/// Pre-release identifiers that could be both authorized and the least
/// admission at `triple`: the least pre-release `0`, every pre-release
/// named by a comparator of that very triple, and for a strict `>` bound
/// its successor (appending `.0`), in ascending order without duplicates.
pub fn candidate_pres(triple: Triple, comparators: &[&Comparator]) -> (r: Vec<Prerelease>)
    ensures
        pres_ascending(r@),
        has_pre_view(r@, zero_pre()),
        forall|j: int|
            0 <= j < comparators@.len() && pre_compatible_at(
                *#[trigger] comparators@[j],
                triple.major,
                triple.minor,
                triple.patch,
            ) ==> has_pre_view(r@, comparators@[j].pre@),
        forall|j: int|
            0 <= j < comparators@.len() && pre_compatible_at(
                *#[trigger] comparators@[j],
                triple.major,
                triple.minor,
                triple.patch,
            ) && comparators@[j].op == Op::Greater ==> has_pre_view(
                r@,
                pre_successor(comparators@[j].pre@),
            ),
        all_listed_wf(comparators@) ==> forall|k: int|
            0 <= k < r@.len() ==> valid_pre((#[trigger] r@[k])@) && r@[k]@.len() > 0,
        forall|k: int| 0 <= k < r@.len() ==> candidate_origin((#[trigger] r@[k])@, triple, comparators@),
{
    let mut candidates: Vec<Prerelease> = Vec::new();
    // The global least pre-release: an interval bounded only above (such as
    // `<I.J.K-alpha`) starts here even though no comparator names it.
    candidates.push(Prerelease::zero());
    proof {
        lemma_zero_valid();
        assert(candidates@[0]@ == zero_pre());
    }
    let mut i: usize = 0;
    while i < comparators.len()
        invariant
            i <= comparators@.len(),
            has_pre_view(candidates@, zero_pre()),
            forall|j: int|
                0 <= j < i && pre_compatible_at(
                    *#[trigger] comparators@[j],
                    triple.major,
                    triple.minor,
                    triple.patch,
                ) ==> has_pre_view(candidates@, comparators@[j].pre@),
            forall|j: int|
                0 <= j < i && pre_compatible_at(
                    *#[trigger] comparators@[j],
                    triple.major,
                    triple.minor,
                    triple.patch,
                ) && comparators@[j].op == Op::Greater ==> has_pre_view(
                    candidates@,
                    pre_successor(comparators@[j].pre@),
                ),
            all_listed_wf(comparators@) ==> forall|k: int|
                0 <= k < candidates@.len() ==> valid_pre((#[trigger] candidates@[k])@)
                    && candidates@[k]@.len() > 0,
            forall|k: int|
                0 <= k < candidates@.len() ==> candidate_origin(
                    (#[trigger] candidates@[k])@,
                    triple,
                    comparators@,
                ),
        decreases comparators.len() - i,
    {
        let c = comparators[i];
        let same_triple = c.major == triple.major && c.minor == Some(triple.minor) && c.patch
            == Some(triple.patch);
        if same_triple && !c.pre.is_empty() {
            let ghost before = candidates@;
            candidates.push(c.pre.clone());
            proof {
                assert(candidates@[before.len() as int]@ == c.pre@);
                assert(has_pre_view(candidates@, c.pre@));
                assert forall|x: Seq<Seq<u8>>| has_pre_view(before, x) implies has_pre_view(
                    candidates@,
                    x,
                ) by {
                    let k = choose|k: int| 0 <= k < before.len() && #[trigger] before[k]@ == x;
                    assert(candidates@[k] == before[k]);
                }
                if all_listed_wf(comparators@) {
                    assert((*comparators@[i as int]).wf());
                }
                assert(pre_compatible_at(*comparators@[i as int], triple.major, triple.minor, triple.patch));
                assert forall|k: int| 0 <= k < candidates@.len() implies candidate_origin(
                    (#[trigger] candidates@[k])@,
                    triple,
                    comparators@,
                ) by {
                    if k < before.len() {
                        assert(candidates@[k] == before[k]);
                    }
                }
            }
            if c.op == Op::Greater {
                let ghost before2 = candidates@;
                candidates.push(c.pre.successor());
                proof {
                    assert(candidates@[before2.len() as int]@ == pre_successor(c.pre@));
                    assert(has_pre_view(candidates@, pre_successor(c.pre@)));
                    assert(has_pre_view(before2, c.pre@));
                    assert forall|x: Seq<Seq<u8>>| has_pre_view(before2, x) implies has_pre_view(
                        candidates@,
                        x,
                    ) by {
                        let k = choose|k: int| 0 <= k < before2.len() && #[trigger] before2[k]@ == x;
                        assert(candidates@[k] == before2[k]);
                    }
                    if all_listed_wf(comparators@) {
                        lemma_valid_successor(c.pre@);
                    }
                    assert forall|k: int| 0 <= k < candidates@.len() implies candidate_origin(
                        (#[trigger] candidates@[k])@,
                        triple,
                        comparators@,
                    ) by {
                        if k < before2.len() {
                            assert(candidates@[k] == before2[k]);
                        }
                    }
                }
            }
        }
        i += 1;
    }
    let r = sorted_unique_pres(candidates);
    proof {
        assert forall|k: int| 0 <= k < r@.len() implies candidate_origin(
            (#[trigger] r@[k])@,
            triple,
            comparators@,
        ) by {
            assert(has_pre_view(r@, r@[k]@));
            let m = choose|m: int| 0 <= m < candidates@.len() && #[trigger] candidates@[m]@ == r@[k]@;
            assert(candidate_origin(candidates@[m]@, triple, comparators@));
        }
        if all_listed_wf(comparators@) {
            assert forall|k: int| 0 <= k < r@.len() implies valid_pre((#[trigger] r@[k])@)
                && r@[k]@.len() > 0 by {
                assert(has_pre_view(r@, r@[k]@));
                let m = choose|m: int| 0 <= m < candidates@.len() && #[trigger] candidates@[m]@ == r@[k]@;
            }
        }
    }
    r
}

/// Whether some comparator of the requirement authorizes pre-releases of
/// the version's triple.
fn authorizes(req: &VersionReq, probe: &Version) -> (r: bool)
    ensures
        r == req_authorizes(*req, probe.major, probe.minor, probe.patch),
{
    let mut i: usize = 0;
    while i < req.comparators.len()
        invariant
            i <= req.comparators@.len(),
            forall|j: int|
                0 <= j < i ==> !pre_compatible_at(
                    #[trigger] req.comparators@[j],
                    probe.major,
                    probe.minor,
                    probe.patch,
                ),
        decreases req.comparators.len() - i,
    {
        if crate::version::pre_is_compatible(&req.comparators[i], probe) {
            assert(pre_compatible_at(req.comparators@[i as int], probe.major, probe.minor, probe.patch));
            return true;
        }
        i += 1;
    }
    false
}

/// Whether every requirement authorizes and matches the given version.
pub fn groups_match(groups: &[&VersionReq], probe: &Version) -> (r: bool)
    ensures
        r == groups_accept(groups@, probe.major, probe.minor, probe.patch, probe.pre@),
{
    let mut g: usize = 0;
    while g < groups.len()
        invariant
            g <= groups@.len(),
            forall|h: int| 0 <= h < g ==> req_authorizes(*#[trigger] groups@[h], probe.major, probe.minor, probe.patch),
        decreases groups.len() - g,
    {
        if !authorizes(groups[g], probe) {
            return false;
        }
        g += 1;
    }
    let mut g2: usize = 0;
    while g2 < groups.len()
        invariant
            g2 <= groups@.len(),
            all_authorize(groups@, probe.major, probe.minor, probe.patch),
            forall|h: int| 0 <= h < g2 ==> crate::version::req_matches(*#[trigger] groups@[h], *probe),
        decreases groups.len() - g2,
    {
        if !groups[g2].matches(probe) {
            return false;
        }
        g2 += 1;
    }
    true
}


/// Where a lower bound found at `t` can come from: the least pre-release
/// `0`, or the pre-release of one of the first `n` listed comparators that
/// names `t` (strictly only for `>`).
pub open spec fn lo_from_list(lo: Option<PreLo>, list: Seq<&Comparator>, n: int, t: Triple) -> bool {
    match lo {
        None => true,
        Some(PreLo::Ge(x)) => x@ == zero_pre() || exists|j: int|
            0 <= j < n && pre_compatible_at(*#[trigger] list[j], t.major, t.minor, t.patch) && x@
                == list[j].pre@,
        Some(PreLo::Gt(x)) => exists|j: int|
            0 <= j < n && pre_compatible_at(*#[trigger] list[j], t.major, t.minor, t.patch)
                && list[j].op == Op::Greater && x@ == list[j].pre@,
    }
}

/// The first pre-release that a set with a lower bound admits is well
/// formed, admitted, and at or below every admitted well-formed
/// pre-release.
pub proof fn lemma_least_admitted(s: TripleSet, p: Seq<Seq<u8>>)
    requires
        s.wf(),
        s.bounds_valid(),
        valid_pre(p),
        p.len() > 0,
        s.admits_pre(p),
    ensures
        s.pre_lo matches Some(lo) && valid_pre(least_of(lo)) && least_of(lo).len() > 0
            && pre_order(least_of(lo), p) <= 0 && s.admits_pre(least_of(lo)),
{
    let lo = s.pre_lo->0;
    let x = lo_pre(lo);
    let least = least_of(lo);
    lemma_pre_order_basic(p, x);
    lemma_pre_successor(x, p);
    lemma_pre_order_basic(least, x);
    lemma_pre_order_basic(least, p);
    if lo is Gt {
        lemma_valid_successor(x);
    }
    match s.pre_hi {
        PreHi::Le(h) => {
            lemma_pre_order_trans(least, p, h@);
        },
        PreHi::Lt(h) => {
            lemma_pre_order_trans(least, p, h@);
        },
        _ => {},
    }
}

/// Whether every requirement matches the version.
fn all_groups_match(groups: &[&VersionReq], v: &Version) -> (r: bool)
    ensures
        r == satisfied_by_all(groups@, v.major, v.minor, v.patch, v.pre@),
{
    let mut g: usize = 0;
    while g < groups.len()
        invariant
            g <= groups@.len(),
            forall|h: int| 0 <= h < g ==> crate::version::req_matches(*#[trigger] groups@[h], *v),
        decreases groups.len() - g,
    {
        if !groups[g].matches(v) {
            return false;
        }
        g += 1;
    }
    true
}

/// `s` is the intersection, at `t`, of the sets of the first `n` listed
/// comparators: it admits the ordinary release and each well-formed
/// pre-release exactly when all of them do, and its lower bound comes from
/// one of them or is `0`.
pub open spec fn tracks(s: TripleSet, list: Seq<&Comparator>, n: int, t: Triple) -> bool {
    &&& s.wf()
    &&& s.bounds_valid()
    &&& s.stable == all_admit(list.take(n), t.major, t.minor, t.patch, Seq::<Seq<u8>>::empty())
    &&& forall|p: Seq<Seq<u8>>|
        valid_pre(p) && p.len() > 0 ==> (#[trigger] s.admits_pre(p) == all_admit(
            list.take(n),
            t.major,
            t.minor,
            t.patch,
            p,
        ))
    &&& lo_from_list(s.pre_lo, list, n, t)
}

/// Intersecting with the set of the next comparator extends the tracking
/// by one comparator.
pub proof fn lemma_tracks_step(
    old_set: TripleSet,
    s: TripleSet,
    new_set: TripleSet,
    list: Seq<&Comparator>,
    i: int,
    t: Triple,
)
    requires
        0 <= i < list.len(),
        all_listed_wf(list),
        tracks(old_set, list, i, t),
        describes(
            s,
            *list[i],
            t.major,
            t.minor,
            t.patch,
            |p: Seq<Seq<u8>>| matches_impl_at(*list[i], t.major, t.minor, t.patch, p),
            list[i].op == Op::Greater,
        ),
        new_set.wf(),
        new_set.bounds_valid(),
        new_set.stable == (old_set.stable && s.stable),
        forall|p: Seq<Seq<u8>>| #[trigger]
            new_set.admits_pre(p) == (old_set.admits_pre(p) && s.admits_pre(p)),
        same_lo(new_set.pre_lo, old_set.pre_lo) || same_lo(new_set.pre_lo, s.pre_lo),
    ensures
        tracks(new_set, list, i + 1, t),
{
    let c = *list[i];
    assert(c.wf());
    assert forall|p: Seq<Seq<u8>>|
        all_admit(list.take(i + 1), t.major, t.minor, t.patch, p) == (all_admit(
            list.take(i),
            t.major,
            t.minor,
            t.patch,
            p,
        ) && matches_impl_at(c, t.major, t.minor, t.patch, p)) by {
        assert(list.take(i + 1)[i] == list[i]);
        if all_admit(list.take(i), t.major, t.minor, t.patch, p) && matches_impl_at(
            c,
            t.major,
            t.minor,
            t.patch,
            p,
        ) {
            assert forall|k: int| 0 <= k < i + 1 implies matches_impl_at(
                *#[trigger] list.take(i + 1)[k],
                t.major,
                t.minor,
                t.patch,
                p,
            ) by {
                if k < i {
                    assert(list.take(i + 1)[k] == list.take(i)[k]);
                }
            }
        }
        if all_admit(list.take(i + 1), t.major, t.minor, t.patch, p) {
            assert forall|k: int| 0 <= k < i implies matches_impl_at(
                *#[trigger] list.take(i)[k],
                t.major,
                t.minor,
                t.patch,
                p,
            ) by {
                assert(list.take(i + 1)[k] == list.take(i)[k]);
            }
        }
    }
    let lo = new_set.pre_lo;
    match lo {
        Some(PreLo::Ge(x)) => {
            if same_lo(new_set.pre_lo, s.pre_lo) && x@ != zero_pre() {
                assert(pre_compatible_at(*list[i], t.major, t.minor, t.patch) && x@ == list[i].pre@);
            } else if x@ != zero_pre() {
                let j = choose|j: int|
                    0 <= j < i && pre_compatible_at(*#[trigger] list[j], t.major, t.minor, t.patch)
                        && old_set.pre_lo->0->Ge_0@ == list[j].pre@;
                assert(0 <= j < i + 1);
            }
        },
        Some(PreLo::Gt(x)) => {
            if same_lo(new_set.pre_lo, s.pre_lo) {
                assert(pre_compatible_at(*list[i], t.major, t.minor, t.patch) && x@ == list[i].pre@);
            } else {
                let j = choose|j: int|
                    0 <= j < i && pre_compatible_at(*#[trigger] list[j], t.major, t.minor, t.patch)
                        && list[j].op == Op::Greater && old_set.pre_lo->0->Gt_0@ == list[j].pre@;
                assert(0 <= j < i + 1);
            }
        },
        None => {},
    }
}

/// A tracking set that is empty shows that no well-formed version at its
/// triple satisfies every requirement.
pub proof fn lemma_tracks_empty(
    s: TripleSet,
    list: Seq<&Comparator>,
    groups: Seq<&VersionReq>,
    n: int,
    t: Triple,
    p: Seq<Seq<u8>>,
)
    requires
        0 <= n <= list.len(),
        lists_comparators(list, groups),
        tracks(s, list, n, t),
        !s.stable,
        forall|q: Seq<Seq<u8>>| valid_pre(q) && q.len() > 0 ==> !#[trigger] s.admits_pre(q),
        valid_pre(p),
    ensures
        !satisfied_by_all(groups, t.major, t.minor, t.patch, p),
{
    if satisfied_by_all(groups, t.major, t.minor, t.patch, p) {
        lemma_satisfied_admitted(list, groups, t.major, t.minor, t.patch, p);
        assert forall|k: int| 0 <= k < n implies matches_impl_at(
            *#[trigger] list.take(n)[k],
            t.major,
            t.minor,
            t.patch,
            p,
        ) by {
            assert(list.take(n)[k] == list[k]);
        }
        if p.len() == 0 {
            assert(p =~= Seq::<Seq<u8>>::empty());
        } else {
            assert(s.admits_pre(p));
        }
    }
}

/// The least version at one particular triple that every requirement
/// matches, after intersecting every comparator's raw set at the triple and
/// applying each requirement's pre-release authorization.
pub fn witness_at(triple: Triple, comparators: &[&Comparator], groups: &[&VersionReq]) -> (r: Option<Version>)
    ensures
        r matches Some(v) ==> v.major == triple.major && v.minor == triple.minor && v.patch
            == triple.patch && v.build@.len() == 0 && satisfied_by_all(
            groups@,
            v.major,
            v.minor,
            v.patch,
            v.pre@,
        ),
        r matches Some(v) ==> (all_wf(groups@) && lists_comparators(comparators@, groups@)
            ==> valid_pre(v.pre@)),
        all_wf(groups@) && lists_comparators(comparators@, groups@) ==> forall|p: Seq<Seq<u8>>|
            valid_pre(p) && #[trigger] satisfied_by_all(
                groups@,
                triple.major,
                triple.minor,
                triple.patch,
                p,
            ) ==> (r matches Some(v) && pre_order(v.pre@, p) <= 0),
{
    let ghost wf = all_wf(groups@) && lists_comparators(comparators@, groups@);
    let ghost list = comparators@;
    proof {
        if wf {
            lemma_listed_wf(list, groups@);
        }
        lemma_zero_valid();
        lemma_zero_below_all();
    }
    let mut intersection = TripleSet::all();
    proof {
        if wf {
            assert(list.take(0) =~= Seq::<&Comparator>::empty());
        }
    }
    let mut i: usize = 0;
    while i < comparators.len()
        invariant
            i <= list.len(),
            list == comparators@,
            wf == (all_wf(groups@) && lists_comparators(list, groups@)),
            wf ==> all_listed_wf(list),
            intersection.wf(),
            wf ==> tracks(intersection, list, i as int, triple),
        decreases comparators.len() - i,
    {
        let c = comparators[i];
        let s = classify(c, triple);
        let ghost old_set = intersection;
        intersection = intersection.intersect(&s);
        proof {
            if wf {
                lemma_tracks_step(old_set, s, intersection, list, i as int, triple);
            }
        }
        if intersection.is_empty() {
            proof {
                if wf {
                    assert forall|p: Seq<Seq<u8>>|
                        valid_pre(p) implies !#[trigger] satisfied_by_all(
                        groups@,
                        triple.major,
                        triple.minor,
                        triple.patch,
                        p,
                    ) by {
                        lemma_tracks_empty(intersection, list, groups@, i + 1, triple, p);
                    }
                }
            }
            return None;
        }
        i += 1;
    }
    proof {
        assert(list.take(i as int) =~= list);
    }
    let pres = candidate_pres(triple, comparators);
    let mut k: usize = 0;
    while k < pres.len()
        invariant
            k <= pres@.len(),
            list == comparators@,
            wf == (all_wf(groups@) && lists_comparators(list, groups@)),
            wf ==> all_listed_wf(list),
            intersection.wf(),
            wf ==> tracks(intersection, list, list.len() as int, triple),
            list.take(list.len() as int) == list,
            pres_ascending(pres@),
            has_pre_view(pres@, zero_pre()),
            forall|j: int|
                0 <= j < list.len() && pre_compatible_at(
                    *#[trigger] list[j],
                    triple.major,
                    triple.minor,
                    triple.patch,
                ) ==> has_pre_view(pres@, list[j].pre@),
            forall|j: int|
                0 <= j < list.len() && pre_compatible_at(
                    *#[trigger] list[j],
                    triple.major,
                    triple.minor,
                    triple.patch,
                ) && list[j].op == Op::Greater ==> has_pre_view(pres@, pre_successor(list[j].pre@)),
            all_listed_wf(list) ==> forall|m: int|
                0 <= m < pres@.len() ==> valid_pre((#[trigger] pres@[m])@) && pres@[m]@.len() > 0,
            forall|m: int|
                0 <= m < k ==> !(intersection.admits_pre((#[trigger] pres@[m])@) && groups_accept(
                    groups@,
                    triple.major,
                    triple.minor,
                    triple.patch,
                    pres@[m]@,
                )),
        decreases pres.len() - k,
    {
        if intersection.contains_pre(&pres[k]) {
            let probe = Version {
                major: triple.major,
                minor: triple.minor,
                patch: triple.patch,
                pre: pres[k].clone(),
                build: BuildMetadata::empty(),
            };
            if groups_match(groups, &probe) {
                proof {
                    if wf {
                        assert forall|p: Seq<Seq<u8>>|
                            valid_pre(p) && #[trigger] satisfied_by_all(
                                groups@,
                                triple.major,
                                triple.minor,
                                triple.patch,
                                p,
                            ) implies pre_order(probe.pre@, p) <= 0 by {
                            lemma_first_accepted_least(intersection, list, groups@, triple, pres@, k as int, p);
                        }
                    }
                }
                return Some(probe);
            }
        }
        k += 1;
    }
    proof {
        if wf {
            assert forall|p: Seq<Seq<u8>>|
                valid_pre(p) && p.len() > 0 implies !#[trigger] satisfied_by_all(
                groups@,
                triple.major,
                triple.minor,
                triple.patch,
                p,
            ) by {
                if satisfied_by_all(groups@, triple.major, triple.minor, triple.patch, p) {
                    lemma_least_in_candidates(intersection, list, groups@, triple, pres@, p);
                    let lo = intersection.pre_lo->0;
                    let m = choose|m: int|
                        0 <= m < pres@.len() && #[trigger] pres@[m]@ == least_of(lo);
                    assert(intersection.admits_pre(pres@[m]@));
                }
            }
        }
    }
    if intersection.stable {
        let stable = Version::new(triple.major, triple.minor, triple.patch);
        if all_groups_match(groups, &stable) {
            return Some(stable);
        }
        proof {
            assert(stable.pre@ =~= Seq::<Seq<u8>>::empty());
            assert(!satisfied_by_all(
                groups@,
                triple.major,
                triple.minor,
                triple.patch,
                Seq::<Seq<u8>>::empty(),
            ));
        }
    }
    proof {
        if wf {
            assert forall|p: Seq<Seq<u8>>|
                valid_pre(p) implies !#[trigger] satisfied_by_all(
                    groups@,
                    triple.major,
                    triple.minor,
                    triple.patch,
                    p,
                ) by {
                if p.len() == 0 && satisfied_by_all(groups@, triple.major, triple.minor, triple.patch, p) {
                    assert(p =~= Seq::<Seq<u8>>::empty());
                    lemma_satisfied_admitted(list, groups@, triple.major, triple.minor, triple.patch, p);
                }
            }
        }
    }
    None
}

/// When the pre-release at position `k` of the ascending candidates is the
/// first one admitted and accepted, it is at or below every well-formed
/// pre-release that satisfies every requirement at the triple.
pub proof fn lemma_first_accepted_least(
    s: TripleSet,
    list: Seq<&Comparator>,
    groups: Seq<&VersionReq>,
    t: Triple,
    pres: Seq<Prerelease>,
    k: int,
    p: Seq<Seq<u8>>,
)
    requires
        lists_comparators(list, groups),
        tracks(s, list, list.len() as int, t),
        list.take(list.len() as int) == list,
        0 <= k < pres.len(),
        pres_ascending(pres),
        pres[k]@.len() > 0,
        has_pre_view(pres, zero_pre()),
        forall|j: int|
            0 <= j < list.len() && pre_compatible_at(*#[trigger] list[j], t.major, t.minor, t.patch)
                ==> has_pre_view(pres, list[j].pre@),
        forall|j: int|
            0 <= j < list.len() && pre_compatible_at(*#[trigger] list[j], t.major, t.minor, t.patch)
                && list[j].op == Op::Greater ==> has_pre_view(pres, pre_successor(list[j].pre@)),
        forall|m: int|
            0 <= m < k ==> !(s.admits_pre((#[trigger] pres[m])@) && groups_accept(
                groups,
                t.major,
                t.minor,
                t.patch,
                pres[m]@,
            )),
        valid_pre(p),
        satisfied_by_all(groups, t.major, t.minor, t.patch, p),
    ensures
        pre_order(pres[k]@, p) <= 0,
{
    if p.len() > 0 {
        lemma_least_in_candidates(s, list, groups, t, pres, p);
        let lo = s.pre_lo->0;
        let m = choose|m: int| 0 <= m < pres.len() && #[trigger] pres[m]@ == least_of(lo);
        if m < k {
            assert(s.admits_pre(pres[m]@));
        } else if m > k {
            assert(pre_order(pres[k]@, pres[m]@) < 0);
            lemma_pre_order_trans(pres[k]@, pres[m]@, p);
        }
    }
}

/// At a triple where some non-empty well-formed pre-release satisfies
/// every requirement, the first pre-release admitted by the intersected
/// set is among the candidates and is accepted by every requirement.
pub proof fn lemma_least_in_candidates(
    s: TripleSet,
    list: Seq<&Comparator>,
    groups: Seq<&VersionReq>,
    t: Triple,
    pres: Seq<Prerelease>,
    p: Seq<Seq<u8>>,
)
    requires
        lists_comparators(list, groups),
        tracks(s, list, list.len() as int, t),
        list.take(list.len() as int) == list,
        has_pre_view(pres, zero_pre()),
        forall|j: int|
            0 <= j < list.len() && pre_compatible_at(*#[trigger] list[j], t.major, t.minor, t.patch)
                ==> has_pre_view(pres, list[j].pre@),
        forall|j: int|
            0 <= j < list.len() && pre_compatible_at(*#[trigger] list[j], t.major, t.minor, t.patch)
                && list[j].op == Op::Greater ==> has_pre_view(pres, pre_successor(list[j].pre@)),
        valid_pre(p),
        p.len() > 0,
        satisfied_by_all(groups, t.major, t.minor, t.patch, p),
    ensures
        s.pre_lo matches Some(lo) && has_pre_view(pres, least_of(lo)) && s.admits_pre(least_of(lo))
            && pre_order(least_of(lo), p) <= 0 && groups_accept(
            groups,
            t.major,
            t.minor,
            t.patch,
            least_of(lo),
        ),
{
    lemma_satisfied_admitted(list, groups, t.major, t.minor, t.patch, p);
    assert(s.admits_pre(p));
    lemma_least_admitted(s, p);
    let lo = s.pre_lo->0;
    let least = least_of(lo);
    assert(all_admit(list, t.major, t.minor, t.patch, least));
    lemma_admitted_satisfied(list, groups, t.major, t.minor, t.patch, least);
    match lo {
        PreLo::Ge(x) => {
            if x@ != zero_pre() {
                let j = choose|j: int|
                    0 <= j < list.len() && pre_compatible_at(
                        *#[trigger] list[j],
                        t.major,
                        t.minor,
                        t.patch,
                    ) && x@ == list[j].pre@;
            }
        },
        PreLo::Gt(x) => {
            let j = choose|j: int|
                0 <= j < list.len() && pre_compatible_at(*#[trigger] list[j], t.major, t.minor, t.patch)
                    && list[j].op == Op::Greater && x@ == list[j].pre@;
        },
    }
}

/// The triple a comparator names with all three numbers.
pub open spec fn named_triple(c: Comparator) -> Triple {
    Triple { major: c.major, minor: c.minor->0, patch: c.patch->0 }
}

/// `v` is at or below the version `major.minor.patch-pre` in precedence.
pub open spec fn le_at(v: Version, major: u64, minor: u64, patch: u64, pre: Seq<Seq<u8>>) -> bool {
    let o = triple_order((v.major, v.minor, v.patch), (major, minor, patch));
    o < 0 || (o == 0 && pre_order(v.pre@, pre) <= 0)
}

/// Some comparator of the requirements has its low edge beyond the
/// representable version space.
pub open spec fn some_exhausted(groups: Seq<&VersionReq>) -> bool {
    exists|g: int, i: int|
        0 <= g < groups.len() && 0 <= i < groups[g].comparators@.len() && low_edge(
            #[trigger] groups[g].comparators@[i],
        ) is None
}

/// Every one of the first `n` listed comparators has its low edge at or
/// below `t`.
pub open spec fn lows_below(list: Seq<&Comparator>, n: int, t: Triple) -> bool {
    forall|j: int|
        0 <= j < n ==> (low_edge(*#[trigger] list[j]) matches Some(l) && triple_order(l, t.tuple())
            <= 0)
}

/// A candidate triple from which the search reaches a version at or below
/// `major.minor.patch-pre`: that very triple, or a lower one whose ordinary
/// release every requirement matches.
pub open spec fn target_ok(c: Triple, groups: Seq<&VersionReq>, major: u64, minor: u64, patch: u64) -> bool {
    ||| c.tuple() == (major, minor, patch)
    ||| (triple_order(c.tuple(), (major, minor, patch)) < 0 && satisfied_by_all(
        groups,
        c.major,
        c.minor,
        c.patch,
        Seq::<Seq<u8>>::empty(),
    ))
}

/// Some candidate from position `from` on, not below `start`, is a target
/// for `major.minor.patch`.
pub open spec fn has_target(
    cands: Seq<Triple>,
    from: int,
    start: Triple,
    groups: Seq<&VersionReq>,
    major: u64,
    minor: u64,
    patch: u64,
) -> bool {
    exists|k: int|
        from <= k < cands.len() && triple_order(start.tuple(), cands[k].tuple()) <= 0
            && #[trigger] target_ok(cands[k], groups, major, minor, patch)
}

/// Before the scan, every satisfying well-formed version has a target among
/// the candidates: its own triple when it is an authorized pre-release,
/// otherwise the lowest triple `start`, whose ordinary release then
/// satisfies every requirement.
pub proof fn lemma_initial_target(
    list: Seq<&Comparator>,
    groups: Seq<&VersionReq>,
    start: Triple,
    cands: Seq<Triple>,
    major: u64,
    minor: u64,
    patch: u64,
    p: Seq<Seq<u8>>,
)
    requires
        lists_comparators(list, groups),
        all_wf(groups),
        lows_below(list, list.len() as int, start),
        list.len() == 0 ==> start.tuple() == (0u64, 0u64, 0u64),
        list.len() > 0 ==> exists|j: int|
            0 <= j < list.len() && low_edge(*#[trigger] list[j]) == Some(start.tuple()),
        cands.contains(start),
        forall|j: int|
            0 <= j < list.len() && (#[trigger] list[j]).pre@.len() > 0 && list[j].minor is Some
                && list[j].patch is Some ==> cands.contains(
                named_triple(*list[j]),
            ),
        valid_pre(p),
        satisfied_by_all(groups, major, minor, patch, p),
    ensures
        has_target(cands, 0, start, groups, major, minor, patch),
{
    lemma_listed_wf(list, groups);
    lemma_satisfied_admitted(list, groups, major, minor, patch, p);
    let w = (major, minor, patch);
    // The lowest triple is at or below the satisfying version's triple.
    if list.len() > 0 {
        let j0 = choose|j: int| 0 <= j < list.len() && low_edge(*#[trigger] list[j]) == Some(start.tuple());
        assert((*list[j0]).wf());
        lemma_low_edge_below(*list[j0], major, minor, patch, p);
    }
    lemma_triple_order(start.tuple(), w, w);
    if p.len() > 0 && groups.len() > 0 {
        assert(req_authorizes(*groups[0], major, minor, patch));
        let i0 = choose|i: int|
            0 <= i < groups[0].comparators@.len() && pre_compatible_at(
                #[trigger] groups[0].comparators@[i],
                major,
                minor,
                patch,
            );
        assert(in_list(list, groups[0].comparators@[i0]));
        let j = choose|j: int| 0 <= j < list.len() && *(#[trigger] list[j]) == groups[0].comparators@[i0];
        let t = named_triple(*list[j]);
        assert(cands.contains(t));
        let k = choose|k: int| 0 <= k < cands.len() && cands[k] == t;
        assert(target_ok(cands[k], groups, major, minor, patch));
    } else {
        let k = choose|k: int| 0 <= k < cands.len() && cands[k] == start;
        if start.tuple() != w {
            let e = Seq::<Seq<u8>>::empty();
            assert forall|j: int| 0 <= j < list.len() implies matches_impl_at(
                *#[trigger] list[j],
                start.major,
                start.minor,
                start.patch,
                e,
            ) by {
                assert((*list[j]).wf());
                if p.len() == 0 {
                    assert(p =~= e);
                    lemma_low_edge_stable_convex(*list[j], start.tuple(), w);
                }
            }
            lemma_admitted_satisfied(list, groups, start.major, start.minor, start.patch, e);
        }
        assert(target_ok(cands[k], groups, major, minor, patch));
    }
}

/// Whether the low position `existing` is strictly below `candidate`.
fn precedes_low(existing: &(Option<Triple>, LowMark), candidate: &(Option<Triple>, LowMark)) -> (r: bool)
    ensures
        r == (low_order(*existing, *candidate) < 0),
{
    match cmp_low(existing, candidate) {
        Ordering::Less => true,
        _ => false,
    }
}

/// Find the least version satisfying every requirement in `groups`,
/// applying Cargo's pre-release authorization rule independently to each
/// requirement.
pub fn solve(groups: &[&VersionReq]) -> (r: Result<Version, ConflictReason>)
    ensures
        r matches Ok(v) ==> v.build@.len() == 0 && satisfied_by_all(
            groups@,
            v.major,
            v.minor,
            v.patch,
            v.pre@,
        ),
        r matches Ok(v) ==> (all_wf(groups@) ==> valid_pre(v.pre@)),
        r matches Err(e) ==> (e == ConflictReason::VersionSpaceExhausted <==> some_exhausted(
            groups@,
        )),
        r matches Err(e) ==> (e == ConflictReason::VersionSpaceExhausted || e
            == ConflictReason::DisjointBounds),
        some_exhausted(groups@) ==> r == Err::<Version, ConflictReason>(
            ConflictReason::VersionSpaceExhausted,
        ),
        r == Err::<Version, ConflictReason>(ConflictReason::VersionSpaceExhausted) ==> forall|
            major: u64,
            minor: u64,
            patch: u64,
            pre: Seq<Seq<u8>>,
        | !#[trigger] satisfied_by_all(groups@, major, minor, patch, pre),
        all_wf(groups@) ==> forall|major: u64, minor: u64, patch: u64, pre: Seq<Seq<u8>>|
            valid_pre(pre) && #[trigger] satisfied_by_all(groups@, major, minor, patch, pre) ==> (r matches Ok(v)
                && le_at(v, major, minor, patch, pre)),
{
    let mut all_comparators: Vec<&Comparator> = Vec::new();
    let mut g: usize = 0;
    while g < groups.len()
        invariant
            g <= groups@.len(),
            forall|k: int|
                0 <= k < all_comparators@.len() ==> in_groups(groups@, *#[trigger] all_comparators@[k]),
            forall|h: int, i: int|
                0 <= h < g && 0 <= i < groups@[h].comparators@.len() ==> in_list(
                    all_comparators@,
                    #[trigger] groups@[h].comparators@[i],
                ),
        decreases groups.len() - g,
    {
        let req = groups[g];
        let mut i: usize = 0;
        while i < req.comparators.len()
            invariant
                g < groups@.len(),
                req == groups@[g as int],
                i <= req.comparators@.len(),
                forall|k: int|
                    0 <= k < all_comparators@.len() ==> in_groups(groups@, *#[trigger] all_comparators@[k]),
                forall|h: int, i2: int|
                    0 <= h < g && 0 <= i2 < groups@[h].comparators@.len() ==> in_list(
                        all_comparators@,
                        #[trigger] groups@[h].comparators@[i2],
                    ),
                forall|i2: int|
                    0 <= i2 < i ==> in_list(all_comparators@, #[trigger] req.comparators@[i2]),
            decreases req.comparators.len() - i,
        {
            let ghost before = all_comparators@;
            all_comparators.push(&req.comparators[i]);
            proof {
                let n = before.len() as int;
                assert(*all_comparators@[n] == groups@[g as int].comparators@[i as int]);
                assert(in_groups(groups@, *all_comparators@[n]));
                assert forall|x: Comparator| in_list(before, x) implies in_list(all_comparators@, x) by {
                    let k = choose|k: int| 0 <= k < before.len() && *(#[trigger] before[k]) == x;
                    assert(all_comparators@[k] == before[k]);
                }
                assert(in_list(all_comparators@, req.comparators@[i as int]));
                assert forall|k: int| 0 <= k < all_comparators@.len() implies in_groups(
                    groups@,
                    *#[trigger] all_comparators@[k],
                ) by {
                    if k < n {
                        assert(all_comparators@[k] == before[k]);
                    }
                }
            }
            i += 1;
        }
        g += 1;
    }
    let ghost list = all_comparators@;
    assert(lists_comparators(list, groups@));
    // The least candidate triple is the maximum of all comparator low
    // positions. A bound that would increment past u64::MAX is unsatisfiable.
    let mut lowest: Option<(Option<Triple>, LowMark)> = None;
    let mut i: usize = 0;
    while i < all_comparators.len()
        invariant
            i <= list.len(),
            list == all_comparators@,
            lists_comparators(list, groups@),
            lowest is None ==> i == 0,
            lowest matches Some(lw) ==> (lw.0 is Some && lows_below(list, i as int, lw.0->0) && exists|j: int|
                0 <= j < i && low_edge(*#[trigger] list[j]) == Some(lw.0->0.tuple())),
        decreases all_comparators.len() - i,
    {
        let candidate = comparator_low(all_comparators[i]);
        if candidate.0.is_none() {
            proof {
                assert(in_groups(groups@, *list[i as int]));
                let (gg, ii) = choose|gg: int, ii: int|
                    0 <= gg < groups@.len() && 0 <= ii < groups@[gg].comparators@.len()
                        && #[trigger] groups@[gg].comparators@[ii] == *list[i as int];
                assert(low_edge(groups@[gg].comparators@[ii]) is None);
                assert(some_exhausted(groups@));
                assert forall|major: u64, minor: u64, patch: u64, pre: Seq<Seq<u8>>|
                    !#[trigger] satisfied_by_all(groups@, major, minor, patch, pre) by {
                    if satisfied_by_all(groups@, major, minor, patch, pre) {
                        lemma_satisfied_admitted(list, groups@, major, minor, patch, pre);
                        lemma_low_edge_exhausted(*list[i as int], major, minor, patch, pre);
                    }
                }
            }
            return Err(ConflictReason::VersionSpaceExhausted);
        }
        let replace = match &lowest {
            None => true,
            Some(existing) => precedes_low(existing, &candidate),
        };
        proof {
            let t = candidate.0->0;
            let ghost_lowest = lowest;
            if let Some(lw) = ghost_lowest {
                let e = lw.0->0;
                lemma_triple_order(e.tuple(), t.tuple(), t.tuple());
                if replace {
                    assert forall|j: int| 0 <= j < i + 1 implies (low_edge(*#[trigger] list[j]) matches Some(l)
                        && triple_order(l, t.tuple()) <= 0) by {
                        if j < i {
                            lemma_triple_order(low_edge(*list[j])->0, e.tuple(), t.tuple());
                        }
                    }
                } else {
                    assert forall|j: int| 0 <= j < i + 1 implies (low_edge(*#[trigger] list[j]) matches Some(l)
                        && triple_order(l, e.tuple()) <= 0) by {
                        if j == i {
                            lemma_triple_order(t.tuple(), e.tuple(), e.tuple());
                        }
                    }
                }
            } else {
                lemma_triple_order(t.tuple(), t.tuple(), t.tuple());
            }
        }
        if replace {
            lowest = Some(candidate);
        }
        i += 1;
    }
    let start = match lowest {
        Some((Some(t), _)) => t,
        _ => Triple::new(0, 0, 0),
    };
    proof {
        assert(lows_below(list, list.len() as int, start));
        if !some_exhausted(groups@) {
        }
        assert forall|gg: int, ii: int|
            0 <= gg < groups@.len() && 0 <= ii < groups@[gg].comparators@.len() implies low_edge(
                #[trigger] groups@[gg].comparators@[ii],
            ) is Some by {
            assert(in_list(list, groups@[gg].comparators@[ii]));
        }
    }
    // Candidate triples that can hold the least witness: `start`, its
    // immediate successor, and the triple of every comparator carrying a
    // non-empty pre-release, since only such a comparator can authorize a
    // pre-release witness.
    let mut candidates: Vec<Triple> = Vec::new();
    candidates.push(start);
    if let Some(successor) = start.next() {
        candidates.push(successor);
    }
    proof {
        assert(candidates@[0] == start);
    }
    let mut pre_anchors: Vec<(Triple, Prerelease)> = Vec::new();
    let mut i: usize = 0;
    while i < all_comparators.len()
        invariant
            i <= list.len(),
            list == all_comparators@,
            lists_comparators(list, groups@),
            !some_exhausted(groups@),
            lows_below(list, list.len() as int, start),
            list.len() == 0 ==> start.tuple() == (0u64, 0u64, 0u64),
            list.len() > 0 ==> exists|j: int|
                0 <= j < list.len() && low_edge(*#[trigger] list[j]) == Some(start.tuple()),
            candidates@.len() >= 1,
            candidates@[0] == start,
            forall|j: int|
                0 <= j < i && (#[trigger] list[j]).pre@.len() > 0 && list[j].minor is Some
                    && list[j].patch is Some ==> exists|m: int|
                    0 <= m < pre_anchors@.len() && (#[trigger] pre_anchors@[m]).0 == named_triple(*list[j]),
        decreases all_comparators.len() - i,
    {
        let c = all_comparators[i];
        if !c.pre.is_empty() {
            if let (Some(minor), Some(patch)) = (c.minor, c.patch) {
                let triple = Triple::new(c.major, minor, patch);
                let ghost before = pre_anchors@;
                // The named identifier itself authorizes an inclusive
                // position, and a strict `>` bound's least admission is its
                // successor.
                pre_anchors.push((triple, c.pre.clone()));
                if c.op == Op::Greater {
                    pre_anchors.push((triple, c.pre.successor()));
                }
                proof {
                    assert(pre_anchors@[before.len() as int].0 == triple);
                    assert forall|j: int|
                        0 <= j < i + 1 && (#[trigger] list[j]).pre@.len() > 0 && list[j].minor is Some
                            && list[j].patch is Some implies exists|m: int|
                        0 <= m < pre_anchors@.len() && (#[trigger] pre_anchors@[m]).0 == named_triple(*list[j]) by {
                        if j < i {
                            let m = choose|m: int|
                                0 <= m < before.len() && (#[trigger] before[m]).0 == named_triple(*list[j]);
                            assert(pre_anchors@[m] == before[m]);
                        } else {
                            assert(pre_anchors@[before.len() as int].0 == triple);
                        }
                    }
                }
            }
        }
        i += 1;
    }
    let mut m: usize = 0;
    while m < pre_anchors.len()
        invariant
            m <= pre_anchors@.len(),
            list == all_comparators@,
            lists_comparators(list, groups@),
            !some_exhausted(groups@),
            lows_below(list, list.len() as int, start),
            list.len() == 0 ==> start.tuple() == (0u64, 0u64, 0u64),
            list.len() > 0 ==> exists|j: int|
                0 <= j < list.len() && low_edge(*#[trigger] list[j]) == Some(start.tuple()),
            forall|j: int|
                0 <= j < list.len() && (#[trigger] list[j]).pre@.len() > 0 && list[j].minor is Some
                    && list[j].patch is Some ==> exists|m: int|
                    0 <= m < pre_anchors@.len() && (#[trigger] pre_anchors@[m]).0 == named_triple(*list[j]),
            candidates@.len() >= 1,
            candidates@[0] == start,
            forall|m2: int| 0 <= m2 < m ==> candidates@.contains(#[trigger] pre_anchors@[m2].0),
        decreases pre_anchors.len() - m,
    {
        let ghost before = candidates@;
        candidates.push(pre_anchors[m].0);
        proof {
            assert(candidates@[before.len() as int] == pre_anchors@[m as int].0);
            assert forall|m2: int| 0 <= m2 < m + 1 implies candidates@.contains(#[trigger] pre_anchors@[m2].0) by {
                if m2 < m {
                    let k = choose|k: int| 0 <= k < before.len() && before[k] == pre_anchors@[m2].0;
                    assert(candidates@[k] == before[k]);
                }
            }
        }
        m += 1;
    }
    let candidates = sorted_unique_triples(&candidates);
    proof {
        if all_wf(groups@) {
            assert forall|major: u64, minor: u64, patch: u64, pre: Seq<Seq<u8>>|
                valid_pre(pre) && #[trigger] satisfied_by_all(groups@, major, minor, patch, pre) implies has_target(
                candidates@,
                0,
                start,
                groups@,
                major,
                minor,
                patch,
            ) by {
                assert forall|j: int|
                    0 <= j < list.len() && (#[trigger] list[j]).pre@.len() > 0 && list[j].minor is Some
                        && list[j].patch is Some implies candidates@.contains(
                    named_triple(*list[j]),
                ) by {
                    let mm = choose|mm: int|
                        0 <= mm < pre_anchors@.len() && (#[trigger] pre_anchors@[mm]).0 == named_triple(*list[j]);
                }
                lemma_initial_target(list, groups@, start, candidates@, major, minor, patch, pre);
            }
        }
    }
    let mut idx: usize = 0;
    while idx < candidates.len()
        invariant
            idx <= candidates@.len(),
            list == all_comparators@,
            lists_comparators(list, groups@),
            triples_ascending(candidates@),
            !some_exhausted(groups@),
            all_wf(groups@) ==> forall|major: u64, minor: u64, patch: u64, pre: Seq<Seq<u8>>|
                valid_pre(pre) && #[trigger] satisfied_by_all(groups@, major, minor, patch, pre)
                    ==> has_target(candidates@, idx as int, start, groups@, major, minor, patch),
        decreases candidates.len() - idx,
    {
        let triple = candidates[idx];
        if crate::satisfy::compare_triples(triple, start) < 0 {
            proof {
                if all_wf(groups@) {
                    assert forall|major: u64, minor: u64, patch: u64, pre: Seq<Seq<u8>>|
                        valid_pre(pre) && #[trigger] satisfied_by_all(groups@, major, minor, patch, pre) implies has_target(
                        candidates@,
                        idx + 1,
                        start,
                        groups@,
                        major,
                        minor,
                        patch,
                    ) by {
                        let k = choose|k: int|
                            idx <= k < candidates@.len() && triple_order(start.tuple(), candidates@[k].tuple()) <= 0
                                && #[trigger] target_ok(candidates@[k], groups@, major, minor, patch);
                        lemma_triple_order(start.tuple(), triple.tuple(), start.tuple());
                    }
                }
            }
            idx += 1;
            continue;
        }
        let found = witness_at(triple, all_comparators.as_slice(), groups);
        if let Some(version) = found {
            proof {
                if all_wf(groups@) {
                    assert forall|major: u64, minor: u64, patch: u64, pre: Seq<Seq<u8>>|
                        valid_pre(pre) && #[trigger] satisfied_by_all(groups@, major, minor, patch, pre) implies le_at(
                        version,
                        major,
                        minor,
                        patch,
                        pre,
                    ) by {
                        let k = choose|k: int|
                            idx <= k < candidates@.len() && triple_order(start.tuple(), candidates@[k].tuple()) <= 0
                                && #[trigger] target_ok(candidates@[k], groups@, major, minor, patch);
                        let w = (major, minor, patch);
                        if k > idx {
                            assert(triple_order(triple.tuple(), candidates@[k].tuple()) < 0);
                        }
                        lemma_triple_order(triple.tuple(), candidates@[k].tuple(), w);
                    }
                }
            }
            return Ok(version);
        }
        proof {
            if all_wf(groups@) {
                assert forall|major: u64, minor: u64, patch: u64, pre: Seq<Seq<u8>>|
                    valid_pre(pre) && #[trigger] satisfied_by_all(groups@, major, minor, patch, pre) implies has_target(
                    candidates@,
                    idx + 1,
                    start,
                    groups@,
                    major,
                    minor,
                    patch,
                ) by {
                    let k = choose|k: int|
                        idx <= k < candidates@.len() && triple_order(start.tuple(), candidates@[k].tuple()) <= 0
                            && #[trigger] target_ok(candidates@[k], groups@, major, minor, patch);
                    if k == idx {
                        if triple.tuple() == (major, minor, patch) {
                            assert(triple == Triple { major, minor, patch });
                            assert(satisfied_by_all(groups@, triple.major, triple.minor, triple.patch, pre));
                        } else {
                            assert(valid_pre(Seq::<Seq<u8>>::empty()));
                        }
                    }
                }
            }
        }
        idx += 1;
    }
    Err(ConflictReason::DisjointBounds)
}

/// Some comparator of the requirement has its low edge beyond the
/// representable version space.
pub open spec fn req_exhausted(r: VersionReq) -> bool {
    exists|i: int| 0 <= i < r.comparators@.len() && low_edge(#[trigger] r.comparators@[i]) is None
}

/// What [`intersection`] returns for `first` and `second`: the least
/// version matching both, or a conflict naming both requirements and why
/// nothing matches them.
pub open spec fn intersection_result(first: VersionReq, second: VersionReq, r: Intersection) -> bool {
    match r {
        Intersection::Witness(v) => {
            &&& v.build@.len() == 0
            &&& req_matches(first, v)
            &&& req_matches(second, v)
            &&& (first.wf() && second.wf()) ==> {
                &&& v.wf()
                &&& forall|w: Version|
                    w.wf() && #[trigger] req_matches(first, w) && req_matches(second, w)
                        ==> version_le(v, w)
            }
        },
        Intersection::Unsatisfiable(c) => {
            &&& c.first@ == req_text(first)
            &&& c.second@ == req_text(second)
            &&& (c.reason == ConflictReason::VersionSpaceExhausted <==> (req_exhausted(first)
                || req_exhausted(second)))
            &&& c.reason == ConflictReason::VersionSpaceExhausted ==> forall|w: Version|
                !(#[trigger] req_matches(first, w) && req_matches(second, w))
            &&& (first.wf() && second.wf()) ==> forall|w: Version|
                w.wf() ==> !(#[trigger] req_matches(first, w) && req_matches(second, w))
        },
    }
}

/// The least version satisfying both requirements, or why none does.
pub fn intersection(first: &VersionReq, second: &VersionReq) -> (r: Intersection)
    ensures
        intersection_result(*first, *second, r),
{
    let mut groups: Vec<&VersionReq> = Vec::new();
    groups.push(first);
    groups.push(second);
    let ghost gs = groups@;
    proof {
        assert forall|w: Version| #[trigger]
            satisfied_by_all(gs, w.major, w.minor, w.patch, w.pre@) == (req_matches(*first, w)
                && req_matches(*second, w)) by {
            if req_matches(*first, w) && req_matches(*second, w) {
                assert forall|g: int| 0 <= g < gs.len() implies req_matches_at(
                    *#[trigger] gs[g],
                    w.major,
                    w.minor,
                    w.patch,
                    w.pre@,
                ) by {
                    if g == 0 {
                        assert(gs[g] == first);
                    } else {
                        assert(gs[g] == second);
                    }
                }
            }
            if satisfied_by_all(gs, w.major, w.minor, w.patch, w.pre@) {
                assert(gs[0] == first);
                assert(gs[1] == second);
            }
        }
        if first.wf() && second.wf() {
            assert forall|g: int| 0 <= g < gs.len() implies (*#[trigger] gs[g]).wf() by {
                if g == 0 {
                    assert(gs[g] == first);
                } else {
                    assert(gs[g] == second);
                }
            }
        }
        if some_exhausted(gs) {
            let (g, i) = choose|g: int, i: int|
                0 <= g < gs.len() && 0 <= i < gs[g].comparators@.len() && low_edge(
                    #[trigger] gs[g].comparators@[i],
                ) is None;
            if g == 0 {
                assert(gs[g] == first);
                assert(req_exhausted(*first));
            } else {
                assert(gs[g] == second);
                assert(req_exhausted(*second));
            }
        }
        if req_exhausted(*first) {
            let i = choose|i: int|
                0 <= i < first.comparators@.len() && low_edge(#[trigger] first.comparators@[i]) is None;
            assert(gs[0] == first);
            assert(low_edge(gs[0].comparators@[i]) is None);
        }
        if req_exhausted(*second) {
            let i = choose|i: int|
                0 <= i < second.comparators@.len() && low_edge(#[trigger] second.comparators@[i]) is None;
            assert(gs[1] == second);
            assert(low_edge(gs[1].comparators@[i]) is None);
        }
    }
    match solve(groups.as_slice()) {
        Ok(version) => {
            proof {
                assert(satisfied_by_all(gs, version.major, version.minor, version.patch, version.pre@));
                if first.wf() && second.wf() {
                    assert forall|w: Version|
                        w.wf() && #[trigger] req_matches(*first, w) && req_matches(*second, w)
                            implies version_le(version, w) by {
                        assert(satisfied_by_all(gs, w.major, w.minor, w.patch, w.pre@));
                    }
                }
            }
            Intersection::Witness(version)
        },
        Err(reason) => {
            proof {
                assert forall|w: Version|
                    (reason == ConflictReason::VersionSpaceExhausted || (first.wf() && second.wf()
                        && w.wf())) implies !(#[trigger] req_matches(*first, w) && req_matches(
                    *second,
                    w,
                )) by {
                    if req_matches(*first, w) && req_matches(*second, w) {
                        assert(satisfied_by_all(gs, w.major, w.minor, w.patch, w.pre@));
                    }
                }
            }
            Intersection::Unsatisfiable(
                Conflict { reason, first: first.to_string(), second: second.to_string() },
            )
        },
    }
}

impl VersionReq {
    /// The least version satisfying both this requirement and `other`, or
    /// why none does.
    pub fn intersection(&self, other: &VersionReq) -> (r: Intersection)
        ensures
            intersection_result(*self, *other, r),
    {
        intersection(self, other)
    }
}

} // verus!
