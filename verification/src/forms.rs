//! Every way the parser accepts of writing a comparator or a requirement:
//! spaces around comparators and operators, `^` left out, `*`, `x` or `X`
//! in place of a left-out minor or patch number, and build metadata after
//! the patch number, which a comparator does not keep.
use crate::grammar::{build_ok, canonical_comparator, decimal_bytes, dotted_bytes, spaces, written_op};
use crate::version::{Comparator, Op};
use vstd::prelude::*;

verus! {

/// A wildcard byte: `*`, `x` or `X`.
pub open spec fn is_star(b: u8) -> bool {
    b == 42u8 || b == 120u8 || b == 88u8
}

/// How one comparator is laid out in a text.
pub struct Form {
    /// Spaces before the comparator.
    pub lead: nat,
    /// Whether the operator is written.
    pub op_written: bool,
    /// Spaces after the operator.
    pub mid: nat,
    /// The wildcard byte written after a dot where the minor number is left out.
    pub minor_star: Option<u8>,
    /// The wildcard byte written after a dot where the patch number is left out.
    pub patch_star: Option<u8>,
    /// Build metadata written after `+`.
    pub build: Option<Seq<u8>>,
    /// Spaces after the comparator.
    pub trail: nat,
}

/// A minor or patch part: a dot and the number, a dot and a wildcard byte,
/// or nothing.
pub open spec fn part_bytes(n: Option<u64>, star: Option<u8>) -> Seq<u8> {
    match n {
        Some(v) => seq![46u8] + decimal_bytes(v as nat),
        None => match star {
            Some(x) => seq![46u8, x],
            None => Seq::empty(),
        },
    }
}

/// The pre-release part: `-` and the identifiers, or nothing.
pub open spec fn pre_piece(c: Comparator) -> Seq<u8> {
    if c.pre@.len() > 0 {
        seq![45u8] + dotted_bytes(c.pre@)
    } else {
        Seq::empty()
    }
}

/// The build part: `+` and the metadata, or nothing.
pub open spec fn build_piece(f: Form) -> Seq<u8> {
    match f.build {
        Some(b) => seq![43u8] + b,
        None => Seq::empty(),
    }
}

/// The bytes after the operator and its spaces, up to the trailing
/// spaces: the numbers, the pre-release and the build metadata.
pub open spec fn form_number_bytes(c: Comparator, f: Form) -> Seq<u8> {
    decimal_bytes(c.major as nat) + part_bytes(c.minor, f.minor_star) + part_bytes(c.patch, f.patch_star)
        + pre_piece(c) + build_piece(f)
}

/// The bytes of a comparator laid out as `f`.
pub open spec fn form_bytes(c: Comparator, f: Form) -> Seq<u8> {
    spaces(f.lead) + written_op(c, f.op_written) + spaces(f.mid) + form_number_bytes(c, f) + spaces(f.trail)
}

/// The layout `f` writes the comparator `c` as the parser reads it: a
/// wildcard byte only where a number is left out, a patch part only after
/// a minor part, build metadata only after a patch number, and without an
/// operator `c` is `^`, or a wildcard where a wildcard byte is written.
pub open spec fn form_ok(c: Comparator, f: Form) -> bool {
    &&& canonical_comparator(c)
    &&& (f.minor_star matches Some(x) ==> c.minor is None && is_star(x))
    &&& (f.patch_star matches Some(x) ==> c.patch is None && is_star(x) && (c.minor is Some
        || f.minor_star is Some))
    &&& (f.build matches Some(b) ==> c.patch is Some && b.len() > 0 && build_ok(b))
    &&& if f.op_written {
        c.op != Op::Wildcard
    } else {
        c.op == (if f.minor_star is Some || f.patch_star is Some {
            Op::Wildcard
        } else {
            Op::Caret
        })
    }
}

/// One layout per comparator, each as the parser reads it.
pub open spec fn forms_ok(cs: Seq<Comparator>, fs: Seq<Form>) -> bool {
    &&& fs.len() == cs.len()
    &&& forall|k: int| 0 <= k < cs.len() ==> form_ok(#[trigger] cs[k], fs[k])
}

/// Comparators laid out as `fs`, joined by commas.
pub open spec fn form_list(cs: Seq<Comparator>, fs: Seq<Form>) -> Seq<u8>
    decreases cs.len(),
{
    if cs.len() == 0 {
        Seq::empty()
    } else if cs.len() == 1 {
        form_bytes(cs[0], fs[0])
    } else {
        form_list(cs.drop_last(), fs.drop_last()).push(44u8) + form_bytes(cs.last(), fs.last())
    }
}

/// A wildcard byte alone, with spaces before and after it.
pub open spec fn lone_star(lead: nat, x: u8, trail: nat) -> Seq<u8> {
    spaces(lead) + seq![x] + spaces(trail)
}

/// A run of spaces in the input reads as spaces.
pub proof fn lemma_space_bytes(s: Seq<u8>, a: int, b: int)
    requires
        0 <= a <= b <= s.len(),
        forall|k: int| a <= k < b ==> s[k] == 32u8,
    ensures
        s.subrange(a, b) == spaces((b - a) as nat),
{
    assert(s.subrange(a, b) =~= spaces((b - a) as nat));
}

/// The number pieces of a layout, one after the other in the input from
/// `a` to `z`, span its number bytes.
pub proof fn lemma_number_pieces(s: Seq<u8>, c: Comparator, f: Form, a: int, p: (int, int, int, int), z: int)
    requires
        0 <= a <= p.0 <= p.1 <= p.2 <= p.3 <= z <= s.len(),
        s.subrange(a, p.0) == decimal_bytes(c.major as nat),
        s.subrange(p.0, p.1) == part_bytes(c.minor, f.minor_star),
        s.subrange(p.1, p.2) == part_bytes(c.patch, f.patch_star),
        s.subrange(p.2, p.3) == pre_piece(c),
        s.subrange(p.3, z) == build_piece(f),
    ensures
        s.subrange(a, z) == form_number_bytes(c, f),
{
    assert(s.subrange(a, z) =~= s.subrange(a, p.0) + s.subrange(p.0, p.1) + s.subrange(p.1, p.2)
        + s.subrange(p.2, p.3) + s.subrange(p.3, z));
}

/// The pieces of a layout, one after the other in the input from `a` to
/// `z`, span its bytes.
pub proof fn lemma_form_pieces(s: Seq<u8>, c: Comparator, f: Form, a: int, p: (int, int, int), z: int)
    requires
        0 <= a <= p.0 <= p.1 <= p.2 <= z <= s.len(),
        s.subrange(a, p.0) == spaces(f.lead) + written_op(c, f.op_written),
        s.subrange(p.0, p.1) == spaces(f.mid),
        s.subrange(p.1, p.2) == form_number_bytes(c, f),
        s.subrange(p.2, z) == spaces(f.trail),
    ensures
        s.subrange(a, z) == form_bytes(c, f),
{
    assert(s.subrange(a, z) =~= s.subrange(a, p.0) + s.subrange(p.0, p.1) + s.subrange(p.1, p.2)
        + s.subrange(p.2, z));
}

/// The layout `f` with `n` spaces before the comparator.
pub open spec fn with_lead(f: Form, n: nat) -> Form {
    Form {
        lead: n,
        op_written: f.op_written,
        mid: f.mid,
        minor_star: f.minor_star,
        patch_star: f.patch_star,
        build: f.build,
        trail: f.trail,
    }
}

/// Spaces before a comparator laid out without leading spaces make up its
/// leading spaces.
pub proof fn lemma_form_lead(s: Seq<u8>, c: Comparator, f: Form, a: int, b: int, z: int)
    requires
        0 <= a <= b <= z <= s.len(),
        f.lead == 0,
        forall|k: int| a <= k < b ==> s[k] == 32u8,
        s.subrange(b, z) == form_bytes(c, f),
    ensures
        s.subrange(a, z) == form_bytes(c, with_lead(f, (b - a) as nat)),
        form_ok(c, with_lead(f, (b - a) as nat)) == form_ok(c, f),
{
    lemma_space_bytes(s, a, b);
    assert(s.subrange(a, z) =~= s.subrange(a, b) + s.subrange(b, z));
    assert(form_bytes(c, with_lead(f, (b - a) as nat)) =~= spaces((b - a) as nat) + form_bytes(c, f));
}

/// Appending one more comparator to a list appends a comma, where the
/// list is not empty, and its bytes.
pub proof fn lemma_form_list_push(cs: Seq<Comparator>, fs: Seq<Form>, c: Comparator, f: Form)
    requires
        fs.len() == cs.len(),
    ensures
        form_list(cs.push(c), fs.push(f)) == (if cs.len() == 0 {
            form_bytes(c, f)
        } else {
            form_list(cs, fs).push(44u8) + form_bytes(c, f)
        }),
{
    assert(cs.push(c).drop_last() =~= cs);
    assert(fs.push(f).drop_last() =~= fs);
    if cs.len() == 0 {
        assert(cs.push(c)[0] == c);
    }
}

/// The input up to `at` holds the comparators `cs` laid out as `fs`, each
/// followed by a comma, and then spaces from `seg` on.
#[verifier::opaque]
pub open spec fn laid_out(s: Seq<u8>, cs: Seq<Comparator>, fs: Seq<Form>, seg: int, at: int) -> bool {
    &&& forms_ok(cs, fs)
    &&& 0 <= seg <= at <= s.len()
    &&& forall|k: int| seg <= k < at ==> s[k] == 32u8
    &&& cs.len() == 0 ==> seg == 0
    &&& cs.len() > 0 ==> s.subrange(0, seg) == form_list(cs, fs).push(44u8)
}

/// Spaces at the start of the input are laid out as no comparators.
pub proof fn lemma_laid_out_start(s: Seq<u8>, at: int)
    requires
        0 <= at <= s.len(),
        forall|k: int| 0 <= k < at ==> s[k] == 32u8,
    ensures
        laid_out(s, Seq::empty(), Seq::empty(), 0, at),
{
    reveal(laid_out);
}

/// A comma and spaces after comparators laid out up to `end`.
pub proof fn lemma_laid_out_next(s: Seq<u8>, cs: Seq<Comparator>, fs: Seq<Form>, end: int, next: int)
    requires
        forms_ok(cs, fs),
        cs.len() > 0,
        0 <= end < next <= s.len(),
        s.subrange(0, end) == form_list(cs, fs),
        s[end] == 44u8,
        forall|k: int| end + 1 <= k < next ==> s[k] == 32u8,
    ensures
        laid_out(s, cs, fs, end + 1, next),
{
    reveal(laid_out);
    assert(s.subrange(0, end + 1) =~= s.subrange(0, end).push(44u8));
}

/// A comparator read after the comparators laid out so far, with spaces
/// before it, extends them.
pub proof fn lemma_form_list_step(
    s: Seq<u8>,
    cs: Seq<Comparator>,
    fs: Seq<Form>,
    c: Comparator,
    f: Form,
    seg: int,
    at: int,
    end: int,
)
    requires
        laid_out(s, cs, fs, seg, at),
        at <= end <= s.len(),
        f.lead == 0,
        form_ok(c, f),
        s.subrange(at, end) == form_bytes(c, f),
    ensures
        forms_ok(cs.push(c), fs.push(with_lead(f, (at - seg) as nat))),
        s.subrange(0, end) == form_list(cs.push(c), fs.push(with_lead(f, (at - seg) as nat))),
{
    reveal(laid_out);
    let g = with_lead(f, (at - seg) as nat);
    lemma_form_lead(s, c, f, seg, at, end);
    lemma_form_list_push(cs, fs, c, g);
    if cs.len() > 0 {
        assert(s.subrange(0, end) =~= s.subrange(0, seg) + s.subrange(seg, end));
    } else {
        assert(s.subrange(0, end) =~= s.subrange(seg, end));
    }
    assert forall|k: int| 0 <= k < cs.push(c).len() implies form_ok(#[trigger] cs.push(c)[k], fs.push(g)[k]) by {
        if k < cs.len() {
            assert(form_ok(cs[k], fs[k]));
        }
    }
}

} // verus!
