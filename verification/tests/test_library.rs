//! Tests of the library's parts: parsing and printing, the per-triple sets,
//! the search for the least witness, the field form, and the laws on
//! concrete values.

use core::cmp::Ordering;
use semver::fields::{field_of, Field, FieldError, IntersectionFields};
use semver::parse::Position;
use semver::satisfy::{classify, cmp_low, comparator_low, LowMark, PreHi, PreLo, Triple, TripleSet};
use semver::solve::{candidate_pres, groups_match, intersection, solve, witness_at};
use semver::{
    BuildMetadata, Comparator, Conflict, ConflictReason, Error, Intersection, Op, Prerelease,
    Version, VersionReq,
};

fn req(text: &str) -> VersionReq {
    VersionReq::parse(text).unwrap()
}

fn version(text: &str) -> Version {
    Version::parse(text).unwrap()
}

fn comparator(text: &str) -> Comparator {
    Comparator::parse(text).unwrap()
}

fn pre(text: &str) -> Prerelease {
    Prerelease::new(text).unwrap()
}

// ----- Parsing and printing ------------------------------------------------

#[test]
fn version_parse_reads_every_part() {
    let v = version("1.22.333-alpha.1+build.5");
    assert_eq!(v.major, 1);
    assert_eq!(v.minor, 22);
    assert_eq!(v.patch, 333);
    assert_eq!(v.pre.to_string(), "alpha.1");
    assert_eq!(v.build.to_string(), "build.5");
    assert_eq!(v.to_string(), "1.22.333-alpha.1+build.5");
}

#[test]
fn version_text_round_trips() {
    for text in ["0.0.0", "1.2.3", "10.20.30-rc.1", "1.0.0-0.3.7", "1.0.0+20130313144700", "1.0.0-x-y-z.--+a.b-c"] {
        assert_eq!(version(text).to_string(), text);
    }
}

#[test]
fn version_parse_errors() {
    assert_eq!(Version::parse(""), Err(Error::Empty));
    assert_eq!(Version::parse("1.2"), Err(Error::UnexpectedEnd(Position::Minor)));
    assert_eq!(Version::parse("01.2.3"), Err(Error::LeadingZero(Position::Major)));
    assert_eq!(Version::parse("1.2.3-01"), Err(Error::LeadingZero(Position::Pre)));
    assert_eq!(Version::parse("1.2.3-"), Err(Error::EmptySegment(Position::Pre)));
    assert_eq!(Version::parse("1.2.3-a..b"), Err(Error::EmptySegment(Position::Pre)));
    assert_eq!(Version::parse("1.2.3+"), Err(Error::EmptySegment(Position::Build)));
    assert_eq!(
        Version::parse("18446744073709551616.0.0"),
        Err(Error::Overflow(Position::Major))
    );
    assert_eq!(
        Version::parse("1.2.3 "),
        Err(Error::UnexpectedCharAfter(Position::Patch, ' '))
    );
    assert_eq!(Version::parse("a.2.3"), Err(Error::UnexpectedChar(Position::Major, 'a')));
    assert_eq!(
        Version::parse("1.2.3-a!"),
        Err(Error::UnexpectedCharAfter(Position::Pre, '!'))
    );
}

#[test]
fn version_parse_largest_numbers() {
    let v = version("18446744073709551615.18446744073709551615.18446744073709551615");
    assert_eq!(v.major, u64::MAX);
    assert_eq!(v.minor, u64::MAX);
    assert_eq!(v.patch, u64::MAX);
}

#[test]
fn prerelease_and_build_parsing() {
    assert_eq!(pre("alpha.1").to_string(), "alpha.1");
    assert!(pre("").is_empty());
    assert_eq!(Prerelease::new("01"), Err(Error::LeadingZero(Position::Pre)));
    assert_eq!(Prerelease::new("a!"), Err(Error::IllegalCharacter(Position::Pre)));
    assert_eq!(BuildMetadata::new("001.x").unwrap().to_string(), "001.x");
    assert!(BuildMetadata::new("").unwrap().is_empty());
    assert_eq!(BuildMetadata::new("build..5"), Err(Error::EmptySegment(Position::Build)));
}

#[test]
fn requirement_parse_and_print() {
    assert_eq!(req(">=1.0.0, <2.0.0").to_string(), ">=1.0.0, <2.0.0");
    assert_eq!(req(">=1.0.0,<2.0.0").to_string(), ">=1.0.0, <2.0.0");
    assert_eq!(req("^1.5").to_string(), "^1.5");
    assert_eq!(req("1.5").to_string(), "^1.5");
    assert_eq!(req("1.2.*").to_string(), "1.2.*");
    assert_eq!(req("1.x").to_string(), "1.*");
    assert_eq!(req("*").to_string(), "*");
    assert_eq!(req("~1.2.3-beta.2").to_string(), "~1.2.3-beta.2");
    assert_eq!(req("=1.2.3").comparators.len(), 1);
    assert_eq!(req("=1.2.3").comparators[0].op, Op::Exact);
}

#[test]
fn requirement_written_with_spaces_and_without_caret() {
    assert_eq!(req(" >= 1.0.0 ,  < 2.0.0 ").to_string(), ">=1.0.0, <2.0.0");
    assert_eq!(req("1.2.3-alpha").to_string(), "^1.2.3-alpha");
    assert_eq!(req("1.2.3-alpha"), req("^1.2.3-alpha"));
    assert_eq!(req("  1.2 ,=3.0.0").to_string(), "^1.2, =3.0.0");
    assert_eq!(req(" 1.2.* ").to_string(), "1.2.*");
    assert_eq!(comparator("  ^ 1.2 "), comparator("^1.2"));
    assert_eq!(comparator("1").to_string(), "^1");
    assert_eq!(comparator(" ~ 0.3.1-rc.1 ").to_string(), "~0.3.1-rc.1");
}

#[test]
fn requirement_wildcard_bytes_and_build_metadata() {
    assert_eq!(req("1.x").to_string(), "1.*");
    assert_eq!(req("1.2.X").to_string(), "1.2.*");
    assert_eq!(req("1.*.*").to_string(), "1.*");
    assert_eq!(req(">=1.*").to_string(), ">=1");
    assert_eq!(req(" x ").to_string(), "*");
    assert_eq!(comparator("=1.2.3+build.5").to_string(), "=1.2.3");
    assert_eq!(VersionReq::parse("1.2.3 x"), Err(Error::ExpectedCommaFound(Position::Patch, 'x')));
}

#[test]
fn requirement_parse_errors() {
    assert_eq!(
        VersionReq::parse("*, 1.0.0"),
        Err(Error::WildcardNotTheOnlyComparator('*'))
    );
    assert_eq!(
        VersionReq::parse(">=1.0.0 <2.0.0"),
        Err(Error::ExpectedCommaFound(Position::Patch, '<'))
    );
    assert_eq!(VersionReq::parse("1.*.3"), Err(Error::UnexpectedAfterWildcard));
    let many = vec!["1.0.0"; 33].join(", ");
    assert_eq!(VersionReq::parse(&many), Err(Error::ExcessiveComparators));
    let enough = vec!["1.0.0"; 32].join(", ");
    assert_eq!(req(&enough).comparators.len(), 32);
}

#[test]
fn comparator_parse_and_print() {
    let c = comparator(">=1.2.3-alpha");
    assert_eq!(c.op, Op::GreaterEq);
    assert_eq!(c.major, 1);
    assert_eq!(c.minor, Some(2));
    assert_eq!(c.patch, Some(3));
    assert_eq!(c.to_string(), ">=1.2.3-alpha");
    assert_eq!(
        Comparator::parse(">=1.2.3 x"),
        Err(Error::UnexpectedCharAfter(Position::Patch, 'x'))
    );
}

#[test]
fn matching_follows_cargo_rules() {
    assert!(req("^1.2.3").matches(&version("1.9.0")));
    assert!(!req("^1.2.3").matches(&version("2.0.0")));
    assert!(!req("^0.2.3").matches(&version("0.3.0")));
    assert!(req("~1.2.3").matches(&version("1.2.9")));
    assert!(!req("~1.2.3").matches(&version("1.3.0")));
    // A pre-release matches only a requirement naming its triple with a
    // pre-release.
    assert!(!req(">=1.0.0").matches(&version("1.1.0-alpha")));
    assert!(req(">=1.1.0-alpha").matches(&version("1.1.0-beta")));
    assert!(!req(">=1.1.0-alpha").matches(&version("1.2.0-beta")));
    assert!(req("*").matches(&version("0.0.0")));
}

#[test]
fn precedence_comparison() {
    assert_eq!(version("1.0.0-alpha").cmp_precedence(&version("1.0.0")), Ordering::Less);
    assert_eq!(version("1.0.0-alpha.1").cmp_precedence(&version("1.0.0-alpha.beta")), Ordering::Less);
    assert_eq!(version("1.0.0-2").cmp_precedence(&version("1.0.0-11")), Ordering::Less);
    assert_eq!(version("1.0.0+a").cmp_precedence(&version("1.0.0+b")), Ordering::Equal);
    assert_eq!(version("2.0.0").cmp_precedence(&version("1.9.9")), Ordering::Greater);
}

#[test]
fn prerelease_successor_appends_zero() {
    assert_eq!(pre("alpha").successor().to_string(), "alpha.0");
    assert_eq!(pre("alpha").compare(&pre("alpha.0")), -1);
    assert_eq!(pre("alpha.0").compare(&pre("alpha.1")), -1);
}

// ----- Triples and per-triple sets -----------------------------------------

#[test]
fn triple_successors() {
    let t = Triple::new(1, 2, 3).next().unwrap();
    assert_eq!((t.major, t.minor, t.patch), (1, 2, 4));
    let t = Triple::new(1, u64::MAX, u64::MAX).next().unwrap();
    assert_eq!((t.major, t.minor, t.patch), (2, 0, 0));
    let t = Triple::new(1, 2, u64::MAX).next().unwrap();
    assert_eq!((t.major, t.minor, t.patch), (1, 3, 0));
    assert!(Triple::new(u64::MAX, u64::MAX, u64::MAX).next().is_none());
}

#[test]
fn triple_sets() {
    assert!(TripleSet::empty().is_empty());
    assert!(!TripleSet::stable_only().is_empty());
    assert!(!TripleSet::all_pre().is_empty());
    assert!(TripleSet::all().contains_pre(&pre("0")));
    assert!(!TripleSet::stable_only().contains_pre(&pre("0")));
    let point = TripleSet::pre_point(pre("beta"));
    assert!(point.contains_pre(&pre("beta")));
    assert!(!point.contains_pre(&pre("beta.0")));
    let above = TripleSet::pre_gt(pre("alpha"), true);
    assert!(!above.contains_pre(&pre("alpha")));
    assert!(above.contains_pre(&pre("alpha.0")));
    let below = TripleSet::pre_lt(pre("alpha"));
    assert!(below.contains_pre(&pre("0")));
    assert!(!below.contains_pre(&pre("alpha")));
    assert!(TripleSet::pre_le(pre("alpha")).contains_pre(&pre("alpha")));
    assert!(TripleSet::pre_ge(pre("alpha"), false).contains_pre(&pre("beta")));
    // `pre > alpha` and `pre < alpha.0` hold no identifier list.
    let gap = TripleSet::pre_gt(pre("alpha"), false).intersect(&TripleSet::pre_lt(pre("alpha.0")));
    assert!(!gap.raw_pre_nonempty());
    assert!(gap.is_empty());
    let both = TripleSet::pre_ge(pre("alpha"), true).intersect(&TripleSet::pre_le(pre("beta")));
    assert!(both.contains_pre(&pre("alpha.7")));
    assert!(!both.contains_pre(&pre("beta.0")));
    assert!(!both.stable);
    assert!(matches!(both.pre_lo, Some(PreLo::Ge(_))));
    assert!(matches!(both.pre_hi, PreHi::Le(_)));
}

#[test]
fn classification_at_a_triple() {
    let at = |c: &str, t: (u64, u64, u64)| classify(&comparator(c), Triple::new(t.0, t.1, t.2));
    // `>=1.2.3-alpha` at 1.2.3: pre-releases from alpha, and the release.
    let set = at(">=1.2.3-alpha", (1, 2, 3));
    assert!(set.stable);
    assert!(set.contains_pre(&pre("alpha")));
    assert!(!set.contains_pre(&pre("0")));
    // `<1.2.3` at 1.2.3: every pre-release, not the release.
    let set = at("<1.2.3", (1, 2, 3));
    assert!(!set.stable);
    assert!(set.contains_pre(&pre("0")));
    // `<1.2.3` at 1.2.4: nothing.
    assert!(at("<1.2.3", (1, 2, 4)).is_empty());
    // `<=1.2.3` at 1.2.3: the release.
    assert!(at("<=1.2.3", (1, 2, 3)).stable);
    // `=1.2` at 1.3.0: nothing.
    assert!(at("=1.2", (1, 3, 0)).is_empty());
    // `~1.2` at 1.2.9: the release.
    assert!(at("~1.2", (1, 2, 9)).stable);
    // `^0.2.3` at 0.3.0: nothing.
    assert!(at("^0.2.3", (0, 3, 0)).is_empty());
    // `>1.2.3-alpha` at 1.2.3: starts above alpha.
    let set = at(">1.2.3-alpha", (1, 2, 3));
    assert!(!set.contains_pre(&pre("alpha")));
    assert!(set.contains_pre(&pre("alpha.0")));
    // `1.*` at 1.5.0: the release.
    assert!(at("1.*", (1, 5, 0)).stable);
}

#[test]
fn lowest_positions() {
    let (t, m) = comparator_low(&comparator(">1.2.3"));
    let t = t.unwrap();
    assert_eq!((t.major, t.minor, t.patch), (1, 2, 4));
    assert!(matches!(m, LowMark::At(_)));
    let (_, m) = comparator_low(&comparator("<1.2.3"));
    assert!(matches!(m, LowMark::AllPre));
    let (t, _) = comparator_low(&comparator(">18446744073709551615"));
    assert!(t.is_none());
    let (t, m) = comparator_low(&comparator(">=1.2.3-alpha"));
    assert_eq!(t.map(|t| (t.major, t.minor, t.patch)), Some((1, 2, 3)));
    assert!(matches!(m, LowMark::At(_)));
    let (t, _) = comparator_low(&comparator("<1.0.0"));
    assert_eq!(t.map(|t| (t.major, t.minor, t.patch)), Some((0, 0, 0)));
    let low = comparator_low(&comparator(">=1.0.0"));
    let high = comparator_low(&comparator(">=2.0.0"));
    let beyond = comparator_low(&comparator(">18446744073709551615"));
    assert_eq!(cmp_low(&low, &high), Ordering::Less);
    assert_eq!(cmp_low(&high, &low), Ordering::Greater);
    assert_eq!(cmp_low(&high, &high), Ordering::Equal);
    assert_eq!(cmp_low(&high, &beyond), Ordering::Less);
}

// ----- The search ---------------------------------------------------------------

#[test]
fn candidates_are_sorted_and_distinct() {
    let a = comparator(">1.2.3-beta");
    let b = comparator("<=1.2.3-alpha");
    let c = comparator("=1.2.3-beta");
    let d = comparator(">=2.0.0-rc");
    let found = candidate_pres(Triple::new(1, 2, 3), &[&a, &b, &c, &d]);
    let texts: Vec<String> = found.iter().map(|p| p.to_string()).collect();
    assert_eq!(texts, vec!["0", "alpha", "beta", "beta.0"]);
}

#[test]
fn groups_match_requires_authorization() {
    let first = req(">=1.0.0-alpha");
    let second = req(">=1.0.0");
    let third = req("<=1.0.0-rc");
    assert!(groups_match(&[&first], &version("1.0.0-beta")));
    // `>=1.0.0` names no pre-release of 1.0.0, so it authorizes none.
    assert!(!groups_match(&[&first, &second], &version("1.0.0-beta")));
    assert!(groups_match(&[&first, &third], &version("1.0.0-beta")));
    // Authorized, but not matched: `rc.1` is above `rc`.
    assert!(!groups_match(&[&first, &third], &version("1.0.0-rc.1")));
}

#[test]
fn witness_at_a_triple() {
    let first = req(">=1.2.3-alpha");
    let second = req("<1.3.0");
    let cs: Vec<&Comparator> = first.comparators.iter().chain(second.comparators.iter()).collect();
    // `<1.3.0` authorizes no pre-release of 1.2.3: the release is the least.
    let found = witness_at(Triple::new(1, 2, 3), &cs, &[&first, &second]).unwrap();
    assert_eq!(found.to_string(), "1.2.3");
    let found = witness_at(Triple::new(1, 2, 4), &cs, &[&first, &second]).unwrap();
    assert_eq!(found.to_string(), "1.2.4");
    assert!(witness_at(Triple::new(1, 3, 0), &cs, &[&first, &second]).is_none());
    let third = req("<=1.2.3-rc");
    let cs: Vec<&Comparator> = first.comparators.iter().chain(third.comparators.iter()).collect();
    let found = witness_at(Triple::new(1, 2, 3), &cs, &[&first, &third]).unwrap();
    assert_eq!(found.to_string(), "1.2.3-alpha");
    assert!(witness_at(Triple::new(1, 2, 4), &cs, &[&first, &third]).is_none());
}

#[test]
fn solve_over_several_requirements() {
    let a = req(">=1.0.0");
    let b = req("<3.0.0");
    let c = req("^2.1");
    assert_eq!(solve(&[&a, &b, &c]).unwrap().to_string(), "2.1.0");
    // With no requirement at all, nothing needs authorizing: the least
    // version of all is the pre-release `0.0.0-0`.
    assert_eq!(solve(&[]).unwrap().to_string(), "0.0.0-0");
    let d = req("<2.0.0");
    assert_eq!(solve(&[&a, &c, &d]), Err(ConflictReason::DisjointBounds));
    let e = req(">18446744073709551615.18446744073709551615.18446744073709551615");
    assert_eq!(solve(&[&a, &e]), Err(ConflictReason::VersionSpaceExhausted));
}

#[test]
fn open_bounds_with_no_version_between() {
    let found = intersection(&req(">1.2.3"), &req("<1.2.4"));
    match found {
        Intersection::Unsatisfiable(conflict) => {
            assert_eq!(conflict.reason, ConflictReason::DisjointBounds);
        }
        _ => panic!("expected unsatisfiable"),
    }
}

#[test]
fn conflict_fields_follow_the_outcome() {
    let found = intersection(&req(">=2.0.0"), &req("<1.0.0"));
    match &found {
        Intersection::Unsatisfiable(conflict) => {
            let own = conflict.fields();
            assert_eq!(own.len(), 3);
            assert_eq!(own[0].0, Field::Reason);
            assert_eq!(own[1], (Field::First, String::from(">=2.0.0")));
            assert_eq!(own[2], (Field::Second, String::from("<1.0.0")));
            assert_eq!(found.fields()[1..].to_vec(), own);
        }
        _ => panic!("expected unsatisfiable"),
    }
}

// ----- Laws on concrete values -------------------------------------------------

#[test]
fn intersection_is_symmetric_on_examples() {
    let pairs = [
        (">=1.0.0, <2.0.0", "^1.5"),
        (">=2.0.0", "<1.0.0"),
        (">1.0.0-alpha", "<1.0.0"),
        ("~1.2.2", ">=1.2.3"),
        (">18446744073709551615", "*"),
    ];
    for (a, b) in pairs {
        let left = req(a).intersection(&req(b));
        let right = req(b).intersection(&req(a));
        match (left, right) {
            (Intersection::Witness(x), Intersection::Witness(y)) => assert_eq!(x, y),
            (Intersection::Unsatisfiable(x), Intersection::Unsatisfiable(y)) => {
                assert_eq!(x.reason, y.reason);
                assert_eq!(x.first, y.second);
                assert_eq!(x.second, y.first);
            }
            _ => panic!("{a} / {b}: outcomes differ"),
        }
    }
}

#[test]
fn witness_is_below_every_common_version() {
    let a = req(">=1.0.0-alpha, <2.0.0");
    let b = req(">0.9.0, <=1.0.0-beta");
    let found = match a.intersection(&b) {
        Intersection::Witness(v) => v,
        _ => panic!("expected a witness"),
    };
    assert_eq!(found.to_string(), "1.0.0-alpha");
    assert!(found.build.is_empty());
    for text in ["0.9.1", "1.0.0-alpha", "1.0.0-alpha.0", "1.0.0-beta", "1.0.0", "1.5.0"] {
        let other = version(text);
        if a.matches(&other) && b.matches(&other) {
            assert_ne!(found.cmp_precedence(&other), Ordering::Greater);
        }
    }
}

#[test]
fn fields_round_trip_on_examples() {
    for (a, b) in [(">=1.0.0, <2.0.0", "^1.5"), (">=2.0.0", "<1.0.0"), (">1.0.0-alpha", "<1.0.0-alpha.0")] {
        let value = req(a).intersection(&req(b));
        assert_eq!(Intersection::from_fields(value.fields()), Ok(value.clone()));
        let mut fields = IntersectionFields::new();
        for (field, text) in value.fields() {
            fields.set(field, text);
        }
        assert_eq!(fields.finish(), Ok(value));
    }
}

// ----- The field form ---------------------------------------------------------

#[test]
fn field_keys() {
    for (key, field) in [
        ("outcome", Field::Outcome),
        ("version", Field::Version),
        ("reason", Field::Reason),
        ("first", Field::First),
        ("second", Field::Second),
    ] {
        assert_eq!(field_of(key), Ok(field));
        assert_eq!(field.key(), key);
    }
    assert_eq!(field_of("bogus"), Err(FieldError::UnknownField("bogus".to_owned())));
}

#[test]
fn reason_tags() {
    assert_eq!(ConflictReason::DisjointBounds.tag(), "disjoint-bounds");
    assert_eq!(ConflictReason::VersionSpaceExhausted.tag(), "version-space-exhausted");
    assert_eq!(ConflictReason::from_tag("disjoint-bounds"), Some(ConflictReason::DisjointBounds));
    assert_eq!(
        ConflictReason::from_tag("version-space-exhausted"),
        Some(ConflictReason::VersionSpaceExhausted)
    );
    assert_eq!(ConflictReason::from_tag("other"), None);
}

fn finish_with(entries: &[(Field, &str)]) -> Result<Intersection, FieldError> {
    let mut fields = IntersectionFields::new();
    for (field, text) in entries {
        fields.set(*field, (*text).to_owned());
    }
    fields.finish()
}

#[test]
fn field_errors() {
    assert_eq!(
        finish_with(&[(Field::Outcome, "witness")]),
        Err(FieldError::MissingField(Field::Version))
    );
    assert_eq!(
        finish_with(&[(Field::Outcome, "witness"), (Field::Version, "1.2")]),
        Err(FieldError::InvalidVersion(Error::UnexpectedEnd(Position::Minor)))
    );
    assert_eq!(
        finish_with(&[(Field::Outcome, "unsatisfiable")]),
        Err(FieldError::MissingField(Field::Reason))
    );
    assert_eq!(
        finish_with(&[(Field::Outcome, "unsatisfiable"), (Field::Reason, "odd")]),
        Err(FieldError::UnknownVariant("odd".to_owned()))
    );
    assert_eq!(
        finish_with(&[(Field::Outcome, "unsatisfiable"), (Field::Reason, "disjoint-bounds")]),
        Err(FieldError::MissingField(Field::First))
    );
    assert_eq!(
        finish_with(&[
            (Field::Outcome, "unsatisfiable"),
            (Field::Reason, "disjoint-bounds"),
            (Field::First, "*"),
        ]),
        Err(FieldError::MissingField(Field::Second))
    );
    assert_eq!(
        finish_with(&[(Field::Outcome, "maybe")]),
        Err(FieldError::UnknownVariant("maybe".to_owned()))
    );
    assert_eq!(finish_with(&[]), Err(FieldError::UnknownVariant("<missing>".to_owned())));
}

#[test]
fn later_field_values_replace_earlier_ones() {
    let found = finish_with(&[
        (Field::Outcome, "unsatisfiable"),
        (Field::Outcome, "witness"),
        (Field::Version, "9.9.9"),
        (Field::Version, "1.5.0"),
    ]);
    match found {
        Ok(Intersection::Witness(v)) => assert_eq!(v.to_string(), "1.5.0"),
        other => panic!("unexpected {other:?}"),
    }
}

// ----- Messages -------------------------------------------------------------------

#[test]
fn conflict_messages() {
    assert_eq!(
        ConflictReason::DisjointBounds.to_string(),
        "the requirements have disjoint version bounds"
    );
    assert_eq!(
        ConflictReason::VersionSpaceExhausted.to_string(),
        "satisfying the requirements would exceed the maximum u64 version component"
    );
    let conflict = Conflict {
        reason: ConflictReason::DisjointBounds,
        first: ">=2.0.0".to_owned(),
        second: "<1.0.0".to_owned(),
    };
    assert_eq!(
        conflict.to_string(),
        "no version satisfies both `>=2.0.0` and `<1.0.0`: the requirements have disjoint version bounds"
    );
}

#[test]
fn caret_without_patch_admits_authorized_prereleases() {
    // `^1` matches every version of major 1, pre-releases included once
    // another comparator of the requirement authorizes them.
    let first = req("^1, >=1.2.3-alpha");
    let second = req(">=1.2.3-alpha");
    assert!(first.matches(&version("1.2.3-alpha")));
    match first.intersection(&second) {
        Intersection::Witness(found) => assert_eq!(found.to_string(), "1.2.3-alpha"),
        _ => panic!("expected a witness"),
    }
    let first = req("^1.2, >=1.2.3-alpha");
    match first.intersection(&second) {
        Intersection::Witness(found) => assert_eq!(found.to_string(), "1.2.3-alpha"),
        _ => panic!("expected a witness"),
    }
}
