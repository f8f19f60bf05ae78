//! Properties of the intersection that relate several results.
use crate::prerelease::lemma_pre_order_basic;
use crate::satisfy::{ConflictReason, Intersection};
use crate::solve::intersection_result;
use crate::fields::{
    fields_of, last_text, read_result, reason_tag, same_intersection, version_read, Field,
    FieldError,
};
use crate::grammar::build_ok;
use crate::text::version_text;
use crate::version::{req_matches, version_le, Version, VersionReq};
use vstd::prelude::*;

verus! {

/// Intersection is symmetric: swapping the two well-formed requirements
/// gives the same witness, or the same reason with the two texts swapped.
pub proof fn law_intersection_symmetric(a: VersionReq, b: VersionReq, r1: Intersection, r2: Intersection)
    requires
        a.wf(),
        b.wf(),
        intersection_result(a, b, r1),
        intersection_result(b, a, r2),
    ensures
        (r1 is Witness) == (r2 is Witness),
        r1 matches Intersection::Witness(v1) ==> (r2 matches Intersection::Witness(v2) ==> {
            &&& v1.major == v2.major
            &&& v1.minor == v2.minor
            &&& v1.patch == v2.patch
            &&& v1.pre@ == v2.pre@
            &&& v1.build@ == v2.build@
        }),
        r1 matches Intersection::Unsatisfiable(c1) ==> (r2 matches Intersection::Unsatisfiable(c2)
            ==> {
            &&& c1.reason == c2.reason
            &&& c1.first@ == c2.second@
            &&& c1.second@ == c2.first@
        }),
{
    match (r1, r2) {
        (Intersection::Witness(v1), Intersection::Witness(v2)) => {
            assert(version_le(v1, v2));
            assert(version_le(v2, v1));
            lemma_pre_order_basic(v1.pre@, v2.pre@);
            assert(v1.build@ =~= v2.build@);
        },
        (Intersection::Witness(v1), Intersection::Unsatisfiable(_)) => {
            assert(req_matches(b, v1) && req_matches(a, v1));
        },
        (Intersection::Unsatisfiable(_), Intersection::Witness(v2)) => {
            assert(req_matches(a, v2) && req_matches(b, v2));
        },
        (Intersection::Unsatisfiable(c1), Intersection::Unsatisfiable(c2)) => {
            if c1.reason != c2.reason {
                assert(c1.reason == ConflictReason::VersionSpaceExhausted || c2.reason
                    == ConflictReason::VersionSpaceExhausted);
            }
        },
    }
}

/// A well-formed requirement that some well-formed version satisfies,
/// intersected with itself, has a witness at or below that version, and the
/// witness satisfies it.
pub proof fn law_self_intersection(a: VersionReq, r: Intersection, w: Version)
    requires
        a.wf(),
        w.wf(),
        req_matches(a, w),
        intersection_result(a, a, r),
    ensures
        r matches Intersection::Witness(v) && req_matches(a, v) && version_le(v, w),
{
}

/// Two well-formed requirements have a witness exactly when some
/// well-formed version satisfies both; the witness is then the unique
/// least such version.
pub proof fn law_witness_iff_satisfiable(a: VersionReq, b: VersionReq, r: Intersection)
    requires
        a.wf(),
        b.wf(),
        intersection_result(a, b, r),
    ensures
        (r is Witness) == exists|w: Version|
            w.wf() && #[trigger] req_matches(a, w) && req_matches(b, w),
        r matches Intersection::Witness(v) ==> forall|w: Version|
            w.wf() && #[trigger] req_matches(a, w) && req_matches(b, w) && version_le(w, v) ==> {
                &&& w.major == v.major
                &&& w.minor == v.minor
                &&& w.patch == v.patch
                &&& w.pre@ == v.pre@
            },
{
    if let Intersection::Witness(v) = r {
        assert(req_matches(a, v) && req_matches(b, v));
        assert forall|w: Version|
            w.wf() && #[trigger] req_matches(a, w) && req_matches(b, w) && version_le(w, v) implies {
            &&& w.major == v.major
            &&& w.minor == v.minor
            &&& w.patch == v.patch
            &&& w.pre@ == v.pre@
        } by {
            assert(version_le(v, w));
            lemma_pre_order_basic(v.pre@, w.pre@);
        }
    }
}

/// Reading back the fields written for an intersection gives the same
/// intersection, whenever a witness's version is well formed and has
/// well-formed build metadata (as every witness that `intersection`
/// returns has).
pub proof fn law_fields_round_trip(i: Intersection, r: Result<Intersection, FieldError>)
    requires
        i matches Intersection::Witness(v) ==> v.wf() && build_ok(v.build@),
        read_result(|x: Field| last_text(fields_of(i), x), r),
    ensures
        r matches Ok(j) && same_intersection(i, j),
{
    reveal_strlit("witness");
    reveal_strlit("unsatisfiable");
    reveal_strlit("disjoint-bounds");
    reveal_strlit("version-space-exhausted");
    assert("witness"@ != "unsatisfiable"@) by {
        assert("witness"@.len() != "unsatisfiable"@.len());
    }
    let s = fields_of(i);
    reveal_with_fuel(last_text, 5);
    match i {
        Intersection::Witness(v) => {
            assert(last_text(s, Field::Outcome) == Some("witness"@));
            assert(last_text(s, Field::Version) == Some(version_text(v)));
            assert(version_read(version_text(v), r));
        },
        Intersection::Unsatisfiable(c) => {
            assert(last_text(s, Field::Outcome) == Some("unsatisfiable"@));
            assert(last_text(s, Field::Reason) == Some(reason_tag(c.reason)));
            assert(last_text(s, Field::First) == Some(c.first@));
            assert(last_text(s, Field::Second) == Some(c.second@));
            if let Ok(Intersection::Unsatisfiable(d)) = r {
                assert(reason_tag(d.reason) == reason_tag(c.reason));
                assert("disjoint-bounds"@ != "version-space-exhausted"@) by {
                    assert("disjoint-bounds"@.len() != "version-space-exhausted"@.len());
                }
            }
        },
    }
}

} // verus!
