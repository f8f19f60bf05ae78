//! Cargo's matching rules and SemVer precedence, stated on their own terms:
//! which releases each kind of comparator admits, as a range of
//! `major.minor.patch` triples; when a pre-release is admitted at all; and
//! how identifiers and pre-releases are ordered.
use crate::grammar::digit_value;
use crate::prerelease::{ident_order, is_numeric, valid_ident, lemma_pre_order_basic, lex_order, lex_order_from, pre_order};
use crate::satisfy::low_edge;
use crate::solve::req_exhausted;
use crate::version::{matches_impl_at, comparator_matches, req_matches, version_order, Comparator, Op, Version, VersionReq};
use vstd::prelude::*;

verus! {

/// The `major.minor.patch` triple of a version, as integers.
pub open spec fn triple(v: Version) -> (int, int, int) {
    (v.major as int, v.minor as int, v.patch as int)
}

/// Lexicographic order on triples: `a` is strictly below `b`.
pub open spec fn below(a: (int, int, int), b: (int, int, int)) -> bool {
    a.0 < b.0 || (a.0 == b.0 && (a.1 < b.1 || (a.1 == b.1 && a.2 < b.2)))
}

/// The triple a comparator names, with a left-out minor or patch read as 0.
pub open spec fn named(c: Comparator) -> (int, int, int) {
    (
        c.major as int,
        match c.minor {
            Some(m) => m as int,
            None => 0,
        },
        match c.patch {
            Some(p) => p as int,
            None => 0,
        },
    )
}

/// The first triple after every release that shares the comparator's
/// major and, when it names one, its minor.
pub open spec fn past_named(c: Comparator) -> (int, int, int) {
    match c.minor {
        Some(m) => (c.major as int, m + 1, 0),
        None => (c.major + 1, 0, 0),
    }
}

/// The first triple a caret comparator no longer admits: the next major
/// above zero, else the next minor above zero, else the next patch.
pub open spec fn caret_ceiling(c: Comparator) -> (int, int, int) {
    if c.major > 0 || c.minor is None {
        (c.major + 1, 0, 0)
    } else if c.minor->0 > 0 || c.patch is None {
        (0, c.minor->0 + 1, 0)
    } else {
        (0, 0, c.patch->0 + 1)
    }
}

/// `=I.J.K` admits the release `I.J.K` alone, when it names no
/// pre-release; `=I.J` admits every `I.J.x`, and `=I` every `I.x.y`. A
/// wildcard `I.*` or `I.J.*` admits the same as `=I` or `=I.J`.
pub proof fn law_exact_releases(c: Comparator, v: Version)
    requires
        c.wf(),
        c.op == Op::Exact || c.op == Op::Wildcard,
        v.pre@.len() == 0,
    ensures
        comparator_matches(c, v) <==> if c.patch is Some {
            triple(v) == named(c) && c.pre@.len() == 0
        } else {
            !below(triple(v), named(c)) && below(triple(v), past_named(c))
        },
{
    if c.pre@.len() == 0 {
        assert(c.pre@ =~= v.pre@);
    }
}

/// `>I.J.K` admits the releases above `I.J.K`, and `I.J.K` itself when it
/// names a pre-release; `>I.J` admits those from `I.(J+1).0` on and `>I`
/// those from `(I+1).0.0` on.
pub proof fn law_greater_releases(c: Comparator, v: Version)
    requires
        c.wf(),
        c.op == Op::Greater,
        v.pre@.len() == 0,
    ensures
        comparator_matches(c, v) <==> if c.patch is Some {
            below(named(c), triple(v)) || (triple(v) == named(c) && c.pre@.len() > 0)
        } else {
            !below(triple(v), past_named(c))
        },
{
}

/// `>=I.J.K`, `>=I.J` and `>=I` admit every release from `I.J.K`, `I.J.0`
/// or `I.0.0` on, with no upper bound.
pub proof fn law_greater_eq_releases(c: Comparator, v: Version)
    requires
        c.wf(),
        c.op == Op::GreaterEq,
        v.pre@.len() == 0,
    ensures
        comparator_matches(c, v) <==> !below(triple(v), named(c)),
{
    if c.pre@.len() == 0 {
        assert(c.pre@ =~= v.pre@);
    }
}

/// `<I.J.K`, `<I.J` and `<I` admit every release below `I.J.K`, `I.J.0`
/// or `I.0.0`.
pub proof fn law_less_releases(c: Comparator, v: Version)
    requires
        c.wf(),
        c.op == Op::Less,
        v.pre@.len() == 0,
    ensures
        comparator_matches(c, v) <==> below(triple(v), named(c)),
{
}

/// `<=I.J.K` admits the releases below `I.J.K`, and `I.J.K` itself when
/// it names no pre-release; `<=I.J` admits those below `I.(J+1).0` and
/// `<=I` those below `(I+1).0.0`.
pub proof fn law_less_eq_releases(c: Comparator, v: Version)
    requires
        c.wf(),
        c.op == Op::LessEq,
        v.pre@.len() == 0,
    ensures
        comparator_matches(c, v) <==> if c.patch is Some {
            below(triple(v), named(c)) || (triple(v) == named(c) && c.pre@.len() == 0)
        } else {
            below(triple(v), past_named(c))
        },
{
    if c.pre@.len() == 0 {
        assert(c.pre@ =~= v.pre@);
    }
}

/// `~I.J.K` admits the releases from `I.J.K` up to `I.(J+1).0`, `~I.J`
/// those from `I.J.0` up to `I.(J+1).0`, and `~I` those from `I.0.0` up to
/// `(I+1).0.0`.
pub proof fn law_tilde_releases(c: Comparator, v: Version)
    requires
        c.wf(),
        c.op == Op::Tilde,
        v.pre@.len() == 0,
    ensures
        comparator_matches(c, v) <==> !below(triple(v), named(c)) && below(triple(v), past_named(c)),
{
}

/// `^I.J.K`, `^I.J` and `^I` admit the releases from the triple they name
/// up to the next major when `I > 0`; below that, up to the next minor
/// when the minor is above zero or left out, and else up to the next
/// patch. So `^1.5` admits every `1.x.y` with `x >= 5`.
pub proof fn law_caret_releases(c: Comparator, v: Version)
    requires
        c.wf(),
        c.op == Op::Caret,
        v.pre@.len() == 0,
    ensures
        comparator_matches(c, v) <==> !below(triple(v), named(c)) && below(triple(v), caret_ceiling(c)),
{
}

/// Whether an operator admits a version whose pre-release compares to the
/// comparator's as `order` (-1, 0 or 1), at the same triple.
pub open spec fn order_admits(op: Op, order: int) -> bool {
    match op {
        Op::Exact | Op::Wildcard => order == 0,
        Op::Greater => order > 0,
        Op::GreaterEq | Op::Tilde | Op::Caret => order >= 0,
        Op::Less => order < 0,
        Op::LessEq => order <= 0,
    }
}

/// A comparator admits a pre-release version only when it names the same
/// `major.minor.patch` with a pre-release of its own, and then as the two
/// pre-releases compare by precedence. So `>=1.0.0` does not admit
/// `1.1.0-alpha`, while `>=1.1.0-alpha` admits `1.1.0-beta`.
pub proof fn law_prerelease_matches(c: Comparator, v: Version)
    requires
        c.wf(),
        v.pre@.len() > 0,
    ensures
        comparator_matches(c, v) <==> {
            &&& v.major == c.major
            &&& c.minor == Some(v.minor)
            &&& c.patch == Some(v.patch)
            &&& c.pre@.len() > 0
            &&& order_admits(c.op, pre_order(v.pre@, c.pre@))
        },
{
    lemma_pre_order_basic(v.pre@, c.pre@);
}

/// A requirement admits a release exactly when each of its comparators
/// does.
pub proof fn law_requirement_releases(r: VersionReq, v: Version)
    requires
        v.pre@.len() == 0,
    ensures
        req_matches(r, v) <==> forall|i: int|
            0 <= i < r.comparators@.len() ==> comparator_matches(#[trigger] r.comparators@[i], v),
{
}

/// A requirement admits a pre-release version only through a comparator
/// that names its `major.minor.patch` with a pre-release and admits it.
pub proof fn law_requirement_prerelease(r: VersionReq, v: Version)
    requires
        v.pre@.len() > 0,
        req_matches(r, v),
    ensures
        exists|i: int|
            0 <= i < r.comparators@.len() && comparator_matches(#[trigger] r.comparators@[i], v) && {
                let c = r.comparators@[i];
                &&& c.major == v.major
                &&& c.minor == Some(v.minor)
                &&& c.patch == Some(v.patch)
                &&& c.pre@.len() > 0
            },
{
}

/// Byte strings in ASCII order: a proper prefix is below the longer
/// string, and otherwise the first differing byte decides; equal strings
/// compare equal.
pub proof fn law_lex_order(a: Seq<u8>, b: Seq<u8>, k: int)
    requires
        0 <= k <= a.len(),
        k <= b.len(),
        a.subrange(0, k) == b.subrange(0, k),
    ensures
        k == a.len() && k < b.len() ==> lex_order(a, b) == -1,
        k < a.len() && k < b.len() && a[k] < b[k] ==> lex_order(a, b) == -1,
        k < a.len() && k < b.len() && a[k] > b[k] ==> lex_order(a, b) == 1,
        k == a.len() && k == b.len() ==> lex_order(a, b) == 0,
{
    lemma_lex_from_prefix(a, b, 0, k);
}

/// Where two byte strings agree on `[i, k)`, comparing from `i` is
/// comparing from `k`.
proof fn lemma_lex_from_prefix(a: Seq<u8>, b: Seq<u8>, i: int, k: int)
    requires
        0 <= i <= k <= a.len(),
        k <= b.len(),
        a.subrange(0, k) == b.subrange(0, k),
    ensures
        lex_order_from(a, b, i) == lex_order_from(a, b, k),
    decreases k - i,
{
    if i < k {
        assert(a[i] == a.subrange(0, k)[i]);
        assert(b[i] == b.subrange(0, k)[i]);
        lemma_lex_from_prefix(a, b, i + 1, k);
    }
}

/// Alphanumeric identifiers compare in ASCII order: `beta` is below
/// `beta2` and `alpha` below `beta`. A numeric identifier is below an
/// alphanumeric one.
pub proof fn law_ident_order(a: Seq<u8>, b: Seq<u8>, k: int)
    requires
        0 <= k <= a.len(),
        k <= b.len(),
        a.subrange(0, k) == b.subrange(0, k),
    ensures
        !is_numeric(a) && !is_numeric(b) && k == a.len() && k < b.len() ==> ident_order(a, b) == -1,
        !is_numeric(a) && !is_numeric(b) && k < a.len() && k < b.len() && a[k] < b[k] ==> ident_order(
            a,
            b,
        ) == -1,
        !is_numeric(a) && !is_numeric(b) && k < a.len() && k < b.len() && a[k] > b[k] ==> ident_order(
            a,
            b,
        ) == 1,
        !is_numeric(a) && !is_numeric(b) && k == b.len() && k < a.len() ==> ident_order(a, b) == 1,
        k == a.len() && k == b.len() ==> ident_order(a, b) == 0,
        is_numeric(a) && !is_numeric(b) ==> ident_order(a, b) == -1,
        !is_numeric(a) && is_numeric(b) ==> ident_order(a, b) == 1,
{
    law_lex_order(b, a, k);
    crate::prerelease::lemma_lex_basic(a, b, 0);
    if k == a.len() && k == b.len() {
        assert(a =~= a.subrange(0, k));
        assert(b =~= b.subrange(0, k));
    }
    law_lex_order(a, b, k);
}

/// A pre-release whose identifiers start a longer one is below it, and
/// otherwise the first differing identifier decides; an ordinary release
/// is above every pre-release of the same triple.
pub proof fn law_pre_order(p: Seq<Seq<u8>>, q: Seq<Seq<u8>>, k: int)
    requires
        0 < p.len(),
        0 < q.len(),
        0 <= k <= p.len(),
        k <= q.len(),
        p.subrange(0, k) == q.subrange(0, k),
    ensures
        k == p.len() && k < q.len() ==> pre_order(p, q) == -1,
        k < p.len() && k < q.len() && ident_order(p[k], q[k]) == -1 ==> pre_order(p, q) == -1,
        k == q.len() && k < p.len() ==> pre_order(p, q) == 1,
        k < p.len() && k < q.len() && ident_order(p[k], q[k]) == 1 ==> pre_order(p, q) == 1,
        k == p.len() && k == q.len() ==> pre_order(p, q) == 0,
        pre_order(Seq::empty(), q) == 1,
        pre_order(p, Seq::empty()) == -1,
{
    lemma_ids_from_prefix(p, q, 0, k);
}

/// Where two identifier lists agree on `[i, k)`, comparing from `i` is
/// comparing from `k`.
proof fn lemma_ids_from_prefix(p: Seq<Seq<u8>>, q: Seq<Seq<u8>>, i: int, k: int)
    requires
        0 <= i <= k <= p.len(),
        k <= q.len(),
        p.subrange(0, k) == q.subrange(0, k),
    ensures
        crate::prerelease::ids_order_from(p, q, i) == crate::prerelease::ids_order_from(p, q, k),
    decreases k - i,
{
    if i < k {
        assert(p[i] == p.subrange(0, k)[i]);
        assert(q[i] == q.subrange(0, k)[i]);
        lemma_ident_self(p[i]);
        lemma_ids_from_prefix(p, q, i + 1, k);
    }
}

/// An identifier compares equal to itself.
proof fn lemma_ident_self(a: Seq<u8>)
    ensures
        ident_order(a, a) == 0,
{
    law_lex_order(a, a, a.len() as int);
}

/// Versions are ordered by their triples first, and by their
/// pre-releases where the triples are equal; build metadata plays no part.
pub proof fn law_version_order(a: Version, b: Version)
    ensures
        below(triple(a), triple(b)) ==> version_order(a, b) == -1,
        below(triple(b), triple(a)) ==> version_order(a, b) == 1,
        triple(a) == triple(b) ==> version_order(a, b) == pre_order(a.pre@, b.pre@),
{
}

/// Ten to the power `n`.
pub open spec fn ten_pow(n: nat) -> nat
    decreases n,
{
    if n == 0 {
        1
    } else {
        10 * ten_pow((n - 1) as nat)
    }
}

proof fn lemma_ten_pow_grows(i: nat, j: nat)
    requires
        i <= j,
    ensures
        ten_pow(i) <= ten_pow(j),
    decreases j,
{
    if i < j {
        lemma_ten_pow_grows(i, (j - 1) as nat);
    }
}

/// A run of `n` digits denotes less than `10^n`.
proof fn lemma_value_upper(s: Seq<u8>)
    requires
        is_numeric(s),
    ensures
        digit_value(s) < ten_pow(s.len()),
    decreases s.len(),
{
    if s.len() > 0 {
        let r = s.drop_last();
        assert(is_numeric(r)) by {
            assert forall|i: int| 0 <= i < r.len() implies crate::prerelease::is_digit(#[trigger] r[i]) by {
                assert(r[i] == s[i]);
            }
        }
        lemma_value_upper(r);
        assert(crate::prerelease::is_digit(s[s.len() - 1]));
    }
}

/// A run of `n` digits that does not start with `0` denotes at least
/// `10^(n-1)`.
proof fn lemma_value_lower(s: Seq<u8>)
    requires
        is_numeric(s),
        s.len() > 0,
        s[0] != 48,
    ensures
        digit_value(s) >= ten_pow((s.len() - 1) as nat),
    decreases s.len(),
{
    let r = s.drop_last();
    assert(crate::prerelease::is_digit(s[s.len() - 1]));
    if s.len() == 1 {
        assert(r =~= Seq::<u8>::empty());
        assert(crate::prerelease::is_digit(s[0]));
    } else {
        assert(is_numeric(r)) by {
            assert forall|i: int| 0 <= i < r.len() implies crate::prerelease::is_digit(#[trigger] r[i]) by {
                assert(r[i] == s[i]);
            }
        }
        assert(r[0] == s[0]);
        lemma_value_lower(r);
    }
}

/// Two runs of digits of one length that agree before `k` and differ at
/// `k` are ordered by their values as by that digit.
proof fn lemma_value_first_difference(a: Seq<u8>, b: Seq<u8>, k: int)
    requires
        is_numeric(a),
        is_numeric(b),
        a.len() == b.len(),
        0 <= k < a.len(),
        forall|j: int| 0 <= j < k ==> a[j] == b[j],
        a[k] < b[k],
    ensures
        digit_value(a) < digit_value(b),
    decreases a.len(),
{
    let ra = a.drop_last();
    let rb = b.drop_last();
    assert(crate::prerelease::is_digit(a[a.len() - 1]));
    assert(crate::prerelease::is_digit(b[b.len() - 1]));
    if a.len() == k + 1 {
        assert(ra =~= rb);
    } else {
        assert(is_numeric(ra)) by {
            assert forall|i: int| 0 <= i < ra.len() implies crate::prerelease::is_digit(#[trigger] ra[i]) by {
                assert(ra[i] == a[i]);
            }
        }
        assert(is_numeric(rb)) by {
            assert forall|i: int| 0 <= i < rb.len() implies crate::prerelease::is_digit(#[trigger] rb[i]) by {
                assert(rb[i] == b[i]);
            }
        }
        assert(ra[k] == a[k] && rb[k] == b[k]);
        assert forall|j: int| 0 <= j < k implies ra[j] == rb[j] by {
            assert(ra[j] == a[j] && rb[j] == b[j]);
        }
        lemma_value_first_difference(ra, rb, k);
    }
}

/// For runs of digits of one length, byte order from `i` on is the order
/// of their values, where they agree before `i`.
proof fn lemma_lex_value(a: Seq<u8>, b: Seq<u8>, i: int)
    requires
        is_numeric(a),
        is_numeric(b),
        a.len() == b.len(),
        0 <= i <= a.len(),
        forall|j: int| 0 <= j < i ==> a[j] == b[j],
    ensures
        lex_order_from(a, b, i) == -1 ==> digit_value(a) < digit_value(b),
        lex_order_from(a, b, i) == 1 ==> digit_value(a) > digit_value(b),
        lex_order_from(a, b, i) == 0 ==> a == b,
    decreases a.len() - i,
{
    if i == a.len() {
        assert(a =~= b);
    } else if a[i] < b[i] {
        lemma_value_first_difference(a, b, i);
    } else if a[i] > b[i] {
        lemma_value_first_difference(b, a, i);
    } else {
        lemma_lex_value(a, b, i + 1);
    }
}

/// Numeric identifiers compare by their values: `2` is below `10`.
pub proof fn law_numeric_ident_order(a: Seq<u8>, b: Seq<u8>)
    requires
        valid_ident(a),
        valid_ident(b),
        is_numeric(a),
        is_numeric(b),
    ensures
        ident_order(a, b) == (if digit_value(a) < digit_value(b) {
            -1
        } else if digit_value(a) > digit_value(b) {
            1
        } else {
            0
        }),
{
    if a.len() < b.len() {
        lemma_value_upper(a);
        lemma_value_lower(b);
        lemma_ten_pow_grows(a.len(), (b.len() - 1) as nat);
    } else if b.len() < a.len() {
        lemma_value_upper(b);
        lemma_value_lower(a);
        lemma_ten_pow_grows(b.len(), (a.len() - 1) as nat);
    } else {
        lemma_lex_value(a, b, 0);
        crate::prerelease::lemma_lex_basic(a, b, 0);
    }
}

/// The comparator's operator admits no release at all.
pub open spec fn admits_no_release(c: Comparator) -> bool {
    forall|x: u64, y: u64, z: u64| !#[trigger] matches_impl_at(c, x, y, z, Seq::empty())
}

/// A comparator has no lowest admitted triple exactly when it is `>` and
/// nothing representable lies above what it names, as with `>M`, `>M.M`
/// or `>M.M.M` where `M` is `u64::MAX`.
pub proof fn law_low_edge_none(c: Comparator)
    requires
        c.wf(),
    ensures
        low_edge(c) is None <==> (c.op == Op::Greater && admits_no_release(c)),
{
    let e: Seq<Seq<u8>> = Seq::empty();
    if c.op == Op::Greater {
        if let Some(l) = low_edge(c) {
            if c.patch is Some && c.pre@.len() > 0 {
                assert(matches_impl_at(c, l.0, l.1, l.2, e)) by {
                    lemma_pre_order_basic(e, c.pre@);
                }
            } else {
                assert(matches_impl_at(c, l.0, l.1, l.2, e));
            }
        } else {
            assert forall|x: u64, y: u64, z: u64| !#[trigger] matches_impl_at(c, x, y, z, e) by {
                if c.patch is Some {
                    lemma_pre_order_basic(e, c.pre@);
                }
            }
        }
    }
}

/// A requirement counts as exhausting the version space exactly when one
/// of its comparators is `>` and admits no release at all.
pub proof fn law_req_exhausted(r: VersionReq)
    requires
        r.wf(),
    ensures
        req_exhausted(r) <==> exists|i: int|
            0 <= i < r.comparators@.len() && (#[trigger] r.comparators@[i]).op == Op::Greater
                && admits_no_release(r.comparators@[i]),
{
    assert forall|i: int| 0 <= i < r.comparators@.len() implies (low_edge(#[trigger] r.comparators@[i]) is None
        <==> (r.comparators@[i].op == Op::Greater && admits_no_release(r.comparators@[i]))) by {
        law_low_edge_none(r.comparators@[i]);
    }
}

/// A requirement admits a version exactly when the operator of each of
/// its comparators admits it and, for a pre-release, some comparator names
/// its `major.minor.patch` with a pre-release of its own.
pub proof fn law_requirement_matches(r: VersionReq, v: Version)
    ensures
        req_matches(r, v) <==> {
            &&& forall|i: int|
                0 <= i < r.comparators@.len() ==> matches_impl_at(
                    #[trigger] r.comparators@[i],
                    v.major,
                    v.minor,
                    v.patch,
                    v.pre@,
                )
            &&& (v.pre@.len() == 0 || exists|i: int|
                0 <= i < r.comparators@.len() && {
                    let c = #[trigger] r.comparators@[i];
                    &&& c.major == v.major
                    &&& c.minor == Some(v.minor)
                    &&& c.patch == Some(v.patch)
                    &&& c.pre@.len() > 0
                })
        },
{
}

/// Away from the triple a full comparator `I.J.K` names, its operator
/// treats a pre-release version as the release of the same triple: the
/// pre-release decides only at `I.J.K` itself.
pub proof fn law_prerelease_elsewhere(c: Comparator, v: Version)
    requires
        c.wf(),
        c.patch is Some,
        triple(v) != named(c),
    ensures
        matches_impl_at(c, v.major, v.minor, v.patch, v.pre@) == matches_impl_at(
            c,
            v.major,
            v.minor,
            v.patch,
            Seq::empty(),
        ),
{
}

} // verus!
