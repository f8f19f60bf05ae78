//! The field form of an intersection: `outcome`, then `version` for a
//! witness, or `reason`, `first` and `second` for a conflict. Serializers
//! write these fields; deserializers collect them and rebuild the value.
use crate::parse::Error;
use crate::satisfy::{Conflict, ConflictReason, Intersection};
use crate::text::{req_text, version_text};
use crate::grammar::build_ok;
use crate::version::{same_version, Version};
use vstd::prelude::*;

verus! {

/// A field of the intersection form.
#[derive(Clone, Copy, Debug, PartialEq, Eq, Structural)]
pub enum Field {
    Outcome,
    Version,
    Reason,
    First,
    Second,
}

/// Why a set of fields does not describe an intersection.
#[derive(Clone, Debug, PartialEq, Eq)]
pub enum FieldError {
    /// A key that is not one of the field names.
    UnknownField(String),
    /// A required field is absent.
    MissingField(Field),
    /// An outcome or reason tag that is not known.
    UnknownVariant(String),
    /// The `version` field does not parse as a version.
    InvalidVersion(Error),
}

/// The key of a field.
pub open spec fn field_key(f: Field) -> Seq<char> {
    match f {
        Field::Outcome => "outcome"@,
        Field::Version => "version"@,
        Field::Reason => "reason"@,
        Field::First => "first"@,
        Field::Second => "second"@,
    }
}

/// The tag under which a conflict reason is written.
pub open spec fn reason_tag(r: ConflictReason) -> Seq<char> {
    match r {
        ConflictReason::DisjointBounds => "disjoint-bounds"@,
        ConflictReason::VersionSpaceExhausted => "version-space-exhausted"@,
    }
}

/// Whether two texts are equal.
fn same_text(a: &str, b: &str) -> (r: bool)
    ensures
        r == (a@ == b@),
{
    a.to_owned() == b.to_owned()
}

/// The field a key names.
pub fn field_of(key: &str) -> (r: Result<Field, FieldError>)
    ensures
        r matches Ok(f) ==> field_key(f) == key@,
        r matches Err(e) ==> e matches FieldError::UnknownField(k) && k@ == key@,
        r is Err <==> forall|f: Field| field_key(f) != key@,
{
    proof {
        reveal_strlit("outcome");
        reveal_strlit("version");
        reveal_strlit("reason");
        reveal_strlit("first");
        reveal_strlit("second");
    }
    if same_text(key, "outcome") {
        assert(field_key(Field::Outcome) == key@);
        Ok(Field::Outcome)
    } else if same_text(key, "version") {
        assert(field_key(Field::Version) == key@);
        Ok(Field::Version)
    } else if same_text(key, "reason") {
        assert(field_key(Field::Reason) == key@);
        Ok(Field::Reason)
    } else if same_text(key, "first") {
        assert(field_key(Field::First) == key@);
        Ok(Field::First)
    } else if same_text(key, "second") {
        assert(field_key(Field::Second) == key@);
        Ok(Field::Second)
    } else {
        proof {
            assert forall|f: Field| field_key(f) != key@ by {
                match f {
                    Field::Outcome => {},
                    Field::Version => {},
                    Field::Reason => {},
                    Field::First => {},
                    Field::Second => {},
                }
            }
        }
        Err(FieldError::UnknownField(key.to_owned()))
    }
}

impl ConflictReason {
    /// The tag under which the reason is written.
    pub fn tag(&self) -> (r: String)
        ensures
            r@ == reason_tag(*self),
    {
        match self {
            ConflictReason::DisjointBounds => String::from_str("disjoint-bounds"),
            ConflictReason::VersionSpaceExhausted => String::from_str("version-space-exhausted"),
        }
    }

    /// The reason written under the tag, if the tag is known.
    pub fn from_tag(tag: &str) -> (r: Option<ConflictReason>)
        ensures
            r matches Some(reason) ==> reason_tag(reason) == tag@,
            r is None ==> tag@ != "disjoint-bounds"@ && tag@ != "version-space-exhausted"@,
    {
        proof {
            reveal_strlit("disjoint-bounds");
            reveal_strlit("version-space-exhausted");
        }
        if same_text(tag, "disjoint-bounds") {
            Some(ConflictReason::DisjointBounds)
        } else if same_text(tag, "version-space-exhausted") {
            Some(ConflictReason::VersionSpaceExhausted)
        } else {
            None
        }
    }
}

/// The fields written for an intersection, in order, with their texts.
pub open spec fn fields_of(i: Intersection) -> Seq<(Field, Seq<char>)> {
    match i {
        Intersection::Witness(v) => seq![(Field::Outcome, "witness"@), (Field::Version, version_text(v))],
        Intersection::Unsatisfiable(c) => seq![
            (Field::Outcome, "unsatisfiable"@),
            (Field::Reason, reason_tag(c.reason)),
            (Field::First, c.first@),
            (Field::Second, c.second@),
        ],
    }
}

/// The fields written for a conflict on its own, in order, with their
/// texts: those of an unsatisfiable intersection after its outcome.
pub open spec fn conflict_fields(c: Conflict) -> Seq<(Field, Seq<char>)> {
    seq![(Field::Reason, reason_tag(c.reason)), (Field::First, c.first@), (Field::Second, c.second@)]
}

impl Field {
    /// The key under which the field is written.
    pub fn key(&self) -> (r: &'static str)
        ensures
            r@ == field_key(*self),
    {
        match self {
            Field::Outcome => "outcome",
            Field::Version => "version",
            Field::Reason => "reason",
            Field::First => "first",
            Field::Second => "second",
        }
    }
}

impl Intersection {
    /// The fields written for this intersection, each with its text.
    pub fn fields(&self) -> (r: Vec<(Field, String)>)
        ensures
            r@.len() == fields_of(*self).len(),
            forall|i: int|
                0 <= i < r@.len() ==> (#[trigger] r@[i]).0 == fields_of(*self)[i].0 && r@[i].1@
                    == fields_of(*self)[i].1,
    {
        let mut r: Vec<(Field, String)> = Vec::new();
        match self {
            Intersection::Witness(version) => {
                r.push((Field::Outcome, String::from_str("witness")));
                r.push((Field::Version, version.to_string()));
            },
            Intersection::Unsatisfiable(conflict) => {
                r.push((Field::Outcome, String::from_str("unsatisfiable")));
                r.push((Field::Reason, conflict.reason.tag()));
                r.push((Field::First, conflict.first.clone()));
                r.push((Field::Second, conflict.second.clone()));
            },
        }
        r
    }
}

impl Conflict {
    /// The fields written for this conflict, each with its text.
    pub fn fields(&self) -> (r: Vec<(Field, String)>)
        ensures
            r@.len() == conflict_fields(*self).len(),
            forall|i: int|
                0 <= i < r@.len() ==> (#[trigger] r@[i]).0 == conflict_fields(*self)[i].0 && r@[i].1@
                    == conflict_fields(*self)[i].1,
            fields_of(Intersection::Unsatisfiable(*self)) == seq![(Field::Outcome, "unsatisfiable"@)]
                + conflict_fields(*self),
    {
        let mut r: Vec<(Field, String)> = Vec::new();
        r.push((Field::Reason, self.reason.tag()));
        r.push((Field::First, self.first.clone()));
        r.push((Field::Second, self.second.clone()));
        assert(fields_of(Intersection::Unsatisfiable(*self)) =~= seq![(Field::Outcome, "unsatisfiable"@)]
            + conflict_fields(*self));
        r
    }
}

/// Whether the optional text is present and equal to `name`.
fn outcome_is(outcome: &Option<String>, name: &str) -> (b: bool)
    ensures
        b == (opt_text(*outcome) == Some(name@)),
{
    match outcome {
        Some(o) => same_text(o.as_str(), name),
        None => false,
    }
}

/// The fields collected so far while reading an intersection.
pub struct IntersectionFields {
    pub outcome: Option<String>,
    pub version: Option<String>,
    pub reason: Option<String>,
    pub first: Option<String>,
    pub second: Option<String>,
}

/// The text of an optional field, if present.
pub open spec fn opt_text(o: Option<String>) -> Option<Seq<char>> {
    match o {
        Some(s) => Some(s@),
        None => None,
    }
}

/// The text collected for a field, if any.
pub open spec fn field_text(f: IntersectionFields, x: Field) -> Option<Seq<char>> {
    match x {
        Field::Outcome => opt_text(f.outcome),
        Field::Version => opt_text(f.version),
        Field::Reason => opt_text(f.reason),
        Field::First => opt_text(f.first),
        Field::Second => opt_text(f.second),
    }
}

/// What reading a witness's version text gives: the version whose text it
/// is, or an invalid-version error when it is the text of no well-formed
/// version.
pub open spec fn version_read(text: Seq<char>, r: Result<Intersection, FieldError>) -> bool {
    &&& (r is Ok ==> r matches Ok(Intersection::Witness(_)))
    &&& (r matches Ok(Intersection::Witness(v)) ==> v.wf() && build_ok(v.build@) && version_text(v)
        == text)
    &&& (r is Err ==> r matches Err(FieldError::InvalidVersion(_)))
    &&& forall|w: Version|
        w.wf() && build_ok(w.build@) && #[trigger] version_text(w) == text ==> (r matches Ok(
            Intersection::Witness(v),
        ) && same_version(v, w))
}

/// What reading fields whose texts are `t` gives: a witness read from
/// `version` for the outcome `witness`, a conflict made of `reason`,
/// `first` and `second` for the outcome `unsatisfiable`, and otherwise the
/// first missing field or unknown tag.
pub open spec fn read_result(
    t: spec_fn(Field) -> Option<Seq<char>>,
    r: Result<Intersection, FieldError>,
) -> bool {
    let outcome = t(Field::Outcome);
    if outcome == Some("witness"@) {
        match t(Field::Version) {
            None => r == Err::<Intersection, FieldError>(FieldError::MissingField(Field::Version)),
            Some(text) => version_read(text, r),
        }
    } else if outcome == Some("unsatisfiable"@) {
        match t(Field::Reason) {
            None => r == Err::<Intersection, FieldError>(FieldError::MissingField(Field::Reason)),
            Some(tag) => if tag != "disjoint-bounds"@ && tag != "version-space-exhausted"@ {
                r matches Err(FieldError::UnknownVariant(u)) && u@ == tag
            } else {
                match (t(Field::First), t(Field::Second)) {
                    (None, _) => r == Err::<Intersection, FieldError>(
                        FieldError::MissingField(Field::First),
                    ),
                    (_, None) => r == Err::<Intersection, FieldError>(
                        FieldError::MissingField(Field::Second),
                    ),
                    (Some(first), Some(second)) => r matches Ok(Intersection::Unsatisfiable(c))
                        && reason_tag(c.reason) == tag && c.first@ == first && c.second@ == second,
                }
            },
        }
    } else {
        r matches Err(FieldError::UnknownVariant(u)) && u@ == (match outcome {
            Some(o) => o,
            None => "<missing>"@,
        })
    }
}

/// What reading the collected fields gives.
pub open spec fn finished(f: IntersectionFields, r: Result<Intersection, FieldError>) -> bool {
    read_result(|x: Field| field_text(f, x), r)
}

/// Field values with their texts.
pub open spec fn texts_of(fields: Seq<(Field, String)>) -> Seq<(Field, Seq<char>)> {
    fields.map_values(|p: (Field, String)| (p.0, p.1@))
}

/// The text given last to the field `x` in a sequence of field values,
/// if any.
pub open spec fn last_text(s: Seq<(Field, Seq<char>)>, x: Field) -> Option<Seq<char>>
    decreases s.len(),
{
    if s.len() == 0 {
        None
    } else if s.last().0 == x {
        Some(s.last().1)
    } else {
        last_text(s.drop_last(), x)
    }
}

/// The same intersection: the same witness version, or the same reason
/// and requirement texts.
pub open spec fn same_intersection(a: Intersection, b: Intersection) -> bool {
    match (a, b) {
        (Intersection::Witness(v), Intersection::Witness(w)) => same_version(v, w),
        (Intersection::Unsatisfiable(c), Intersection::Unsatisfiable(d)) => c.reason == d.reason
            && c.first@ == d.first@ && c.second@ == d.second@,
        _ => false,
    }
}

impl Intersection {
    /// Reads an intersection back from its fields, given in order; a later
    /// value of a field replaces an earlier one.
    pub fn from_fields(fields: Vec<(Field, String)>) -> (r: Result<Intersection, FieldError>)
        ensures
            read_result(|x: Field| last_text(texts_of(fields@), x), r),
    {
        let ghost s = texts_of(fields@);
        let mut collected = IntersectionFields::new();
        let mut i: usize = 0;
        while i < fields.len()
            invariant
                i <= fields@.len(),
                s == texts_of(fields@),
                forall|x: Field| #[trigger] field_text(collected, x) == last_text(s.take(i as int), x),
            decreases fields.len() - i,
        {
            let field = fields[i].0;
            let value = fields[i].1.clone();
            collected.set(field, value);
            proof {
                let t = s.take(i + 1);
                assert(t.drop_last() =~= s.take(i as int));
                assert(t.last() == (field, value@));
            }
            i += 1;
        }
        proof {
            assert(s.take(i as int) =~= s);
        }
        let r = collected.finish();
        proof {
            assert((|x: Field| field_text(collected, x)) =~= (|x: Field| last_text(s, x)));
        }
        r
    }
}

impl IntersectionFields {
    /// No field collected yet.
    pub fn new() -> (r: IntersectionFields)
        ensures
            forall|x: Field| #[trigger] field_text(r, x) is None,
    {
        IntersectionFields { outcome: None, version: None, reason: None, first: None, second: None }
    }

    /// Records the value of a field; a later value replaces an earlier one.
    pub fn set(&mut self, field: Field, value: String)
        ensures
            forall|x: Field| #[trigger]
                field_text(*final(self), x) == if x == field {
                    Some(value@)
                } else {
                    field_text(*old(self), x)
                },
    {
        match field {
            Field::Outcome => self.outcome = Some(value),
            Field::Version => self.version = Some(value),
            Field::Reason => self.reason = Some(value),
            Field::First => self.first = Some(value),
            Field::Second => self.second = Some(value),
        }
    }

    /// Rebuilds the intersection from the collected fields.
    pub fn finish(self) -> (r: Result<Intersection, FieldError>)
        ensures
            finished(self, r),
    {
        proof {
            reveal_strlit("witness");
            reveal_strlit("unsatisfiable");
            reveal_strlit("disjoint-bounds");
            reveal_strlit("version-space-exhausted");
            assert("witness"@ != "unsatisfiable"@) by {
                assert("witness"@.len() != "unsatisfiable"@.len());
            }
        }
        if outcome_is(&self.outcome, "witness") {
            let text = match self.version {
                Some(text) => text,
                None => {
                    return Err(FieldError::MissingField(Field::Version));
                },
            };
            match Version::parse(text.as_str()) {
                Ok(parsed) => Ok(Intersection::Witness(parsed)),
                Err(e) => Err(FieldError::InvalidVersion(e)),
            }
        } else if outcome_is(&self.outcome, "unsatisfiable") {
            let reason_tag_text = match self.reason {
                Some(t) => t,
                None => {
                    return Err(FieldError::MissingField(Field::Reason));
                },
            };
            let conflict_reason = match ConflictReason::from_tag(reason_tag_text.as_str()) {
                Some(reason) => reason,
                None => {
                    return Err(FieldError::UnknownVariant(reason_tag_text));
                },
            };
            let first = match self.first {
                Some(f) => f,
                None => {
                    return Err(FieldError::MissingField(Field::First));
                },
            };
            let second = match self.second {
                Some(s) => s,
                None => {
                    return Err(FieldError::MissingField(Field::Second));
                },
            };
            Ok(Intersection::Unsatisfiable(Conflict { reason: conflict_reason, first, second }))
        } else {
            match self.outcome {
                Some(o) => Err(FieldError::UnknownVariant(o)),
                None => Err(FieldError::UnknownVariant(String::from_str("<missing>"))),
            }
        }
    }
}

} // verus!
