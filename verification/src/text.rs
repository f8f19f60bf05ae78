//! The textual forms of versions, requirements and conflicts.
use crate::prerelease::Prerelease;
use crate::satisfy::{Conflict, ConflictReason};
use crate::version::{BuildMetadata, Comparator, Op, Version, VersionReq};
use vstd::prelude::*;

verus! {

/// Appends one character to the string.
///
/// Trusted: calls `String::push` of std, which the std documentation
/// describes as appending the given `char` to the end of the string.
#[verifier::external_body]
fn push_char(s: &mut String, c: char)
    ensures
        final(s)@ == old(s)@.push(c),
{
    s.push(c);
}

/// The character of a decimal digit.
pub open spec fn digit_char(d: nat) -> char {
    (48 + d) as char
}

/// The decimal representation of a number, without leading zeros.
pub open spec fn decimal(n: nat) -> Seq<char>
    decreases n,
{
    if n < 10 {
        seq![digit_char(n)]
    } else {
        decimal(n / 10).push(digit_char(n % 10))
    }
}

/// ASCII bytes read as characters.
pub open spec fn ascii_chars(b: Seq<u8>) -> Seq<char> {
    b.map_values(|x: u8| x as char)
}

/// Identifiers joined by dots.
pub open spec fn dotted(p: Seq<Seq<u8>>) -> Seq<char>
    decreases p.len(),
{
    if p.len() == 0 {
        Seq::empty()
    } else if p.len() == 1 {
        ascii_chars(p[0])
    } else {
        dotted(p.drop_last()).push('.') + ascii_chars(p.last())
    }
}

/// The text of an operator as it prefixes a comparator.
pub open spec fn op_text(op: Op) -> Seq<char> {
    match op {
        Op::Exact => "="@,
        Op::Greater => ">"@,
        Op::GreaterEq => ">="@,
        Op::Less => "<"@,
        Op::LessEq => "<="@,
        Op::Tilde => "~"@,
        Op::Caret => "^"@,
        Op::Wildcard => ""@,
    }
}

/// The text of a comparator, such as `>=1.2.3-alpha`, `^1.2` or `1.*`.
pub open spec fn comparator_text(c: Comparator) -> Seq<char> {
    let head = op_text(c.op) + decimal(c.major as nat);
    match c.minor {
        Some(minor) => {
            let with_minor = head.push('.') + decimal(minor as nat);
            match c.patch {
                Some(patch) => {
                    let with_patch = with_minor.push('.') + decimal(patch as nat);
                    if c.pre@.len() > 0 {
                        with_patch.push('-') + dotted(c.pre@)
                    } else {
                        with_patch
                    }
                },
                None => if c.op == Op::Wildcard {
                    with_minor + ".*"@
                } else {
                    with_minor
                },
            }
        },
        None => if c.op == Op::Wildcard {
            head + ".*"@
        } else {
            head
        },
    }
}

/// The comparators' texts joined by `, `.
pub open spec fn comparators_text(cs: Seq<Comparator>) -> Seq<char>
    decreases cs.len(),
{
    if cs.len() == 0 {
        Seq::empty()
    } else if cs.len() == 1 {
        comparator_text(cs[0])
    } else {
        comparators_text(cs.drop_last()) + ", "@ + comparator_text(cs.last())
    }
}

/// The text of a requirement: `*` without comparators, else the
/// comparators joined by `, `.
pub open spec fn req_text(r: VersionReq) -> Seq<char> {
    if r.comparators@.len() == 0 {
        "*"@
    } else {
        comparators_text(r.comparators@)
    }
}

/// The text of a version, `major.minor.patch[-pre][+build]`.
pub open spec fn version_text(v: Version) -> Seq<char> {
    let core = decimal(v.major as nat).push('.') + decimal(v.minor as nat).push('.') + decimal(
        v.patch as nat,
    );
    let with_pre = if v.pre@.len() > 0 {
        core.push('-') + dotted(v.pre@)
    } else {
        core
    };
    if v.build@.len() > 0 {
        with_pre.push('+') + ascii_chars(v.build@)
    } else {
        with_pre
    }
}

/// The explanation of a conflict reason.
pub open spec fn reason_text(r: ConflictReason) -> Seq<char> {
    match r {
        ConflictReason::DisjointBounds => "the requirements have disjoint version bounds"@,
        ConflictReason::VersionSpaceExhausted =>
            "satisfying the requirements would exceed the maximum u64 version component"@,
    }
}

/// The message of a conflict.
pub open spec fn conflict_text(c: Conflict) -> Seq<char> {
    "no version satisfies both `"@ + c.first@ + "` and `"@ + c.second@ + "`: "@ + reason_text(
        c.reason,
    )
}

fn push_decimal(s: &mut String, n: u64)
    ensures
        final(s)@ == old(s)@ + decimal(n as nat),
    decreases n,
{
    if n >= 10 {
        push_decimal(s, n / 10);
    }
    let d: u8 = (n % 10) as u8;
    push_char(s, (48u8 + d) as char);
    proof {
        if n >= 10 {
            assert(decimal(n as nat) == decimal((n / 10) as nat).push(digit_char((n % 10) as nat)));
        }
    }
    assert(final(s)@ =~= old(s)@ + decimal(n as nat));
}

fn push_ascii(s: &mut String, bytes: &Vec<u8>)
    ensures
        final(s)@ == old(s)@ + ascii_chars(bytes@),
{
    let mut i: usize = 0;
    while i < bytes.len()
        invariant
            i <= bytes@.len(),
            s@ == old(s)@ + ascii_chars(bytes@.subrange(0, i as int)),
        decreases bytes.len() - i,
    {
        push_char(s, bytes[i] as char);
        assert(ascii_chars(bytes@.subrange(0, i + 1)) =~= ascii_chars(bytes@.subrange(0, i as int)).push(
            bytes@[i as int] as char,
        ));
        i += 1;
    }
    assert(bytes@.subrange(0, bytes@.len() as int) =~= bytes@);
}

fn push_pre(s: &mut String, pre: &Prerelease)
    ensures
        final(s)@ == old(s)@ + dotted(pre@),
{
    let idents = pre.idents();
    let mut i: usize = 0;
    while i < idents.len()
        invariant
            i <= idents@.len(),
            idents@.map_values(|id: Vec<u8>| id@) == pre@,
            s@ == old(s)@ + dotted(pre@.subrange(0, i as int)),
        decreases idents.len() - i,
    {
        let ghost prev = s@;
        if i > 0 {
            push_char(s, '.');
        }
        push_ascii(s, &idents[i]);
        proof {
            let sub = pre@.subrange(0, i + 1);
            assert(sub.drop_last() =~= pre@.subrange(0, i as int));
            assert(sub.last() == idents@[i as int]@);
            if i == 0 {
                assert(dotted(sub) == ascii_chars(sub[0]));
                assert(pre@.subrange(0, 0) =~= Seq::<Seq<u8>>::empty());
            }
            assert(s@ =~= old(s)@ + dotted(sub));
        }
        i += 1;
    }
    assert(pre@.subrange(0, pre@.len() as int) =~= pre@);
}

impl Prerelease {
    /// The text of the pre-release, identifiers joined by dots.
    pub fn to_string(&self) -> (r: String)
        ensures
            r@ == dotted(self@),
    {
        let mut s = String::new();
        push_pre(&mut s, self);
        assert(s@ =~= dotted(self@));
        s
    }
}

impl BuildMetadata {
    /// The text of the build metadata.
    pub fn to_string(&self) -> (r: String)
        ensures
            r@ == ascii_chars(self@),
    {
        let mut s = String::new();
        push_ascii(&mut s, self.as_bytes());
        assert(s@ =~= ascii_chars(self@));
        s
    }
}

fn push_op(s: &mut String, op: Op)
    ensures
        final(s)@ == old(s)@ + op_text(op),
{
    match op {
        Op::Exact => s.append("="),
        Op::Greater => s.append(">"),
        Op::GreaterEq => s.append(">="),
        Op::Less => s.append("<"),
        Op::LessEq => s.append("<="),
        Op::Tilde => s.append("~"),
        Op::Caret => s.append("^"),
        Op::Wildcard => s.append(""),
    }
}

fn push_comparator(s: &mut String, c: &Comparator)
    ensures
        final(s)@ == old(s)@ + comparator_text(*c),
{
    let ghost start = s@;
    push_op(s, c.op);
    push_decimal(s, c.major);
    let ghost head = op_text(c.op) + decimal(c.major as nat);
    assert(s@ =~= start + head);
    match c.minor {
        Some(minor) => {
            push_char(s, '.');
            push_decimal(s, minor);
            let ghost with_minor = head.push('.') + decimal(minor as nat);
            assert(s@ =~= start + with_minor);
            match c.patch {
                Some(patch) => {
                    push_char(s, '.');
                    push_decimal(s, patch);
                    let ghost with_patch = with_minor.push('.') + decimal(patch as nat);
                    assert(s@ =~= start + with_patch);
                    if !c.pre.is_empty() {
                        push_char(s, '-');
                        push_pre(s, &c.pre);
                        assert(s@ =~= start + (with_patch.push('-') + dotted(c.pre@)));
                    }
                },
                None => {
                    if c.op == Op::Wildcard {
                        s.append(".*");
                        assert(s@ =~= start + (with_minor + ".*"@));
                    }
                },
            }
        },
        None => {
            if c.op == Op::Wildcard {
                s.append(".*");
                assert(s@ =~= start + (head + ".*"@));
            }
        },
    }
}

impl Comparator {
    /// The text of the comparator, such as `>=1.2.3-alpha`.
    pub fn to_string(&self) -> (r: String)
        ensures
            r@ == comparator_text(*self),
    {
        let mut s = String::new();
        push_comparator(&mut s, self);
        assert(s@ =~= comparator_text(*self));
        s
    }
}

impl VersionReq {
    /// The text of the requirement: `*`, or its comparators joined by `, `.
    pub fn to_string(&self) -> (r: String)
        ensures
            r@ == req_text(*self),
    {
        if self.comparators.len() == 0 {
            return String::from_str("*");
        }
        let mut s = String::new();
        let mut i: usize = 0;
        while i < self.comparators.len()
            invariant
                i <= self.comparators@.len(),
                self.comparators@.len() > 0,
                s@ == comparators_text(self.comparators@.subrange(0, i as int)),
            decreases self.comparators.len() - i,
        {
            let ghost prev = s@;
            if i > 0 {
                s.append(", ");
            }
            push_comparator(&mut s, &self.comparators[i]);
            proof {
                let sub = self.comparators@.subrange(0, i + 1);
                assert(sub.drop_last() =~= self.comparators@.subrange(0, i as int));
                assert(sub.last() == self.comparators@[i as int]);
                if i == 0 {
                    assert(self.comparators@.subrange(0, 0) =~= Seq::<Comparator>::empty());
                }
                assert(s@ =~= comparators_text(sub));
            }
            i += 1;
        }
        assert(self.comparators@.subrange(0, self.comparators@.len() as int) =~= self.comparators@);
        s
    }
}

impl Version {
    /// The text of the version, `major.minor.patch[-pre][+build]`.
    pub fn to_string(&self) -> (r: String)
        ensures
            r@ == version_text(*self),
    {
        let mut s = String::new();
        push_decimal(&mut s, self.major);
        push_char(&mut s, '.');
        push_decimal(&mut s, self.minor);
        push_char(&mut s, '.');
        push_decimal(&mut s, self.patch);
        let ghost core = decimal(self.major as nat).push('.') + decimal(self.minor as nat).push('.')
            + decimal(self.patch as nat);
        assert(s@ =~= core);
        if !self.pre.is_empty() {
            push_char(&mut s, '-');
            push_pre(&mut s, &self.pre);
        }
        let ghost with_pre = if self.pre@.len() > 0 {
            core.push('-') + dotted(self.pre@)
        } else {
            core
        };
        assert(s@ =~= with_pre);
        if !self.build.is_empty() {
            push_char(&mut s, '+');
            push_ascii(&mut s, self.build.as_bytes());
        }
        assert(s@ =~= version_text(*self));
        s
    }
}

impl ConflictReason {
    /// The explanation of the reason.
    pub fn to_string(&self) -> (r: String)
        ensures
            r@ == reason_text(*self),
    {
        match self {
            ConflictReason::DisjointBounds => String::from_str(
                "the requirements have disjoint version bounds",
            ),
            ConflictReason::VersionSpaceExhausted => String::from_str(
                "satisfying the requirements would exceed the maximum u64 version component",
            ),
        }
    }
}

impl Conflict {
    /// The message of the conflict: both requirements and the reason.
    pub fn to_string(&self) -> (r: String)
        ensures
            r@ == conflict_text(*self),
    {
        let mut s = String::from_str("no version satisfies both `");
        s.append(self.first.as_str());
        s.append("` and `");
        s.append(self.second.as_str());
        s.append("`: ");
        let reason = self.reason.to_string();
        s.append(reason.as_str());
        s
    }
}

} // verus!
