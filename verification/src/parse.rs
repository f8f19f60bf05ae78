//! Parsing of versions, pre-releases and version requirements from text.
use crate::grammar::{
    all_digits, canonical_digits, decimal_at, decimal_bytes, digit_value, dotted_at, dotted_bytes,
    idents_ok, lemma_canonical_digits, lemma_decimal_bytes, lemma_digit_value_positive,
    lemma_digit_value_prefix, lemma_dotted_extend, lemma_dotted_prefix, stops_at, build_ok, core_at,
    core_bytes, pre_end, version_bytes, lemma_decimal_at_unique, lemma_dotted_at_unique,
    lemma_dotted_bytes_kind, lemma_version_layout, lemma_version_chars, lemma_ascii_encode,
    lemma_valid_idents_ok, lemma_version_text_of_bytes, lemma_core_at_parts, lemma_core_at_of_parts,
    lemma_core_at_unique, lemma_dotted_first_byte, lemma_version_bytes_of_parts,
    lemma_version_parse_unique, lemma_dotted_chars, lemma_text_of_ascii, lemma_build_ascii,
    lemma_dotted_injective, op_bytes, op_prefix, canonical_comparator, comparator_bytes,
    canonical_req, same_req, lemma_comparator_chars, lemma_comparator_bytes_split,
    lemma_number_layout, lemma_spelling_layout, n_major_end, n_minor_end, n_patch_end, number_bytes,
    number_start, spelled_at, spelled_bytes, spelled_end, written_op, lemma_space_run,
    lemma_spelled_unique, written_comparator, spelling_ok, lemma_spelled_ascii,
    lemma_written_comparator_layout, read_start, read_mid, spaces, written_req, spellings_ok,
    written_list, elem_start, lemma_written_list_ascii, lemma_written_layout, lemma_elem_layout,
    number_at, lemma_number_at_unique, lemma_spelled_first_byte, lemma_written_list_unique, lemma_printed_req, printed_spelling,
};
use vstd::utf8::encode_utf8;
use crate::forms::{
    build_piece, forms_ok, form_list, is_star, lemma_form_lead, lemma_form_list_step, lemma_laid_out_next, lemma_laid_out_start, laid_out, lone_star, with_lead,
    form_bytes, form_number_bytes, form_ok, lemma_form_pieces, lemma_number_pieces, lemma_space_bytes, part_bytes, pre_piece, Form,
};
use crate::prerelease::{is_digit, is_ident_byte, is_numeric, valid_ident, valid_pre, Prerelease};
use crate::text::{ascii_chars, comparator_text, dotted, req_text, version_text};
use crate::version::{same_comparator, same_version, BuildMetadata, Comparator, Op, Version, VersionReq};
use vstd::prelude::*;

verus! {

/// Which part of a version the parser was reading.
#[derive(Clone, Copy, Debug, PartialEq, Eq, Structural)]
pub enum Position {
    Major,
    Minor,
    Patch,
    Pre,
    Build,
}

/// Why a text is not a valid version, pre-release or requirement.
#[derive(Clone, Copy, Debug, PartialEq, Eq)]
pub enum Error {
    /// The text is empty.
    Empty,
    /// The text ends where a part was expected.
    UnexpectedEnd(Position),
    /// A character that cannot start the expected part.
    UnexpectedChar(Position, char),
    /// A character that cannot follow the part just read.
    UnexpectedCharAfter(Position, char),
    /// Another character where a comma separating comparators was expected.
    ExpectedCommaFound(Position, char),
    /// A numeric part with a leading zero.
    LeadingZero(Position),
    /// A number larger than `u64::MAX`.
    Overflow(Position),
    /// An empty dot-separated identifier.
    EmptySegment(Position),
    /// A character that is not allowed in an identifier.
    IllegalCharacter(Position),
    /// A wildcard requirement combined with other comparators.
    WildcardNotTheOnlyComparator(char),
    /// Text after a wildcard requirement.
    UnexpectedAfterWildcard,
    /// More comparators than a requirement may have.
    ExcessiveComparators,
}


/// The position after any spaces from `i` on.
fn skip_spaces(input: &[u8], i: usize) -> (r: usize)
    requires
        i <= input@.len(),
    ensures
        i <= r <= input@.len(),
        i == input@.len() || input@[i as int] != 32u8 ==> r == i,
        forall|k: int| i <= k < r ==> input@[k] == 32u8,
        r == input@.len() || input@[r as int] != 32u8,
{
    let mut k = i;
    while k < input.len() && input[k] == 32u8
        invariant
            i <= k <= input@.len(),
            i == input@.len() || input@[i as int] != 32u8 ==> k == i,
            forall|j: int| i <= j < k ==> input@[j] == 32u8,
        decreases input.len() - k,
    {
        k += 1;
    }
    k
}

/// The bytes `input[from..to]`.
fn copy_range(input: &[u8], from: usize, to: usize) -> (r: Vec<u8>)
    requires
        from <= to <= input@.len(),
    ensures
        r@ == input@.subrange(from as int, to as int),
{
    let mut r: Vec<u8> = Vec::new();
    let mut k = from;
    while k < to
        invariant
            from <= k <= to,
            to <= input@.len(),
            r@ == input@.subrange(from as int, k as int),
        decreases to - k,
    {
        r.push(input[k]);
        k += 1;
        assert(r@ =~= input@.subrange(from as int, k as int));
    }
    r
}

/// The character at position `i`, as the parser reports it.
fn char_at(input: &[u8], i: usize) -> (r: char)
    requires
        i < input@.len(),
    ensures
        r == input@[i as int] as char,
{
    input[i] as char
}

/// A number without leading zeros that fits in `u64`, starting at `i`: the
/// longest run of digits there.
fn numeric_identifier(input: &[u8], i: usize, pos: Position) -> (r: Result<(u64, usize), Error>)
    requires
        i <= input@.len(),
    ensures
        r matches Ok((value, end)) ==> i < end <= input@.len() && end == i + decimal_bytes(
            value as nat,
        ).len() && decimal_at(input@, i as int, value as nat),
        (exists|m: u64| #[trigger] decimal_at(input@, i as int, m as nat)) ==> r is Ok,
{
    let ghost target: Option<u64> = if exists|m: u64| #[trigger] decimal_at(input@, i as int, m as nat) {
        Some(choose|m: u64| #[trigger] decimal_at(input@, i as int, m as nat))
    } else {
        None
    };
    proof {
        if let Some(m) = target {
            lemma_decimal_bytes(m as nat);
        }
        assert(input@.subrange(i as int, i as int) =~= Seq::<u8>::empty());
    }
    let n = input.len();
    let mut len: usize = 0;
    let mut value: u64 = 0;
    while i + len < n && 48u8 <= input[i + len] && input[i + len] <= 57u8
        invariant
            n == input@.len(),
            i + len <= n,
            all_digits(input@.subrange(i as int, (i + len) as int)),
            value == digit_value(input@.subrange(i as int, (i + len) as int)),
            len > 1 ==> input@[i as int] != 48,
            (exists|m: u64| #[trigger] decimal_at(input@, i as int, m as nat)) ==> target is Some,
            target matches Some(m) ==> {
                &&& decimal_at(input@, i as int, m as nat)
                &&& canonical_digits(decimal_bytes(m as nat))
                &&& digit_value(decimal_bytes(m as nat)) == m
                &&& len <= decimal_bytes(m as nat).len()
                &&& input@.subrange(i as int, (i + len) as int) == decimal_bytes(m as nat).take(len as int)
            },
        decreases input.len() - (i + len),
    {
        let digit = input[i + len];
        let ghost run = input@.subrange(i as int, (i + len) as int);
        let ghost next = input@.subrange(i as int, (i + len + 1) as int);
        proof {
            assert(next.drop_last() =~= run);
            assert(next.last() == digit);
            if let Some(m) = target {
                let d = decimal_bytes(m as nat);
                if len == d.len() {
                    assert(!is_digit(input@[(i + len) as int]));
                }
                assert(len < d.len());
                assert(next =~= d.take(len + 1)) by {
                    assert forall|k: int| 0 <= k < len + 1 implies next[k] == d.take(len + 1)[k] by {
                        assert(input@.subrange(i as int, i + d.len())[k] == d[k]);
                    }
                }
                lemma_digit_value_prefix(d, len + 1);
                if len > 0 {
                    assert(run[0] == d[0]);
                    assert(d.len() > 1);
                    assert(all_digits(run));
                    lemma_digit_value_positive(run);
                }
            }
        }
        if value == 0 && len > 0 {
            return Err(Error::LeadingZero(pos));
        }
        match value.checked_mul(10) {
            Some(tens) => match tens.checked_add((digit - 48u8) as u64) {
                Some(sum) => {
                    value = sum;
                },
                None => {
                    return Err(Error::Overflow(pos));
                },
            },
            None => {
                return Err(Error::Overflow(pos));
            },
        }
        proof {
            assert(all_digits(next)) by {
                assert forall|k: int| 0 <= k < next.len() implies is_digit(#[trigger] next[k]) by {
                    if k < run.len() {
                        assert(next[k] == run[k]);
                    }
                }
            }
            if len > 0 {
                assert(next[0] == run[0]);
                if run[0] == 48 {
                    assert(run.len() == 1);
                    assert(run.drop_last() =~= Seq::<u8>::empty());
                    assert(digit_value(Seq::<u8>::empty()) == 0);
                }
            }
        }
        len += 1;
    }
    if len > 0 {
        proof {
            let run = input@.subrange(i as int, (i + len) as int);
            if len > 1 {
                assert(run[0] == input@[i as int]);
            }
            lemma_canonical_digits(run);
            assert(input@.subrange(i as int, i + decimal_bytes(value as nat).len()) == run);
        }
        Ok((value, i + len))
    } else if i < input.len() {
        proof {
            if let Some(m) = target {
                assert(input@[i as int] == decimal_bytes(m as nat)[0]) by {
                    assert(input@.subrange(i as int, i + decimal_bytes(m as nat).len())[0] == decimal_bytes(m as nat)[0]);
                }
            }
        }
        Err(Error::UnexpectedChar(pos, char_at(input, i)))
    } else {
        Err(Error::UnexpectedEnd(pos))
    }
}

/// A wildcard `*`, `x` or `X` at position `i`.
fn wildcard(input: &[u8], i: usize) -> (r: Option<(char, usize)>)
    requires
        i <= input@.len(),
    ensures
        r matches Some((_, end)) ==> end == i + 1 && end <= input@.len(),
        r is Some <==> (i < input@.len() && (input@[i as int] == 42u8 || input@[i as int] == 120u8
            || input@[i as int] == 88u8)),
{
    if i < input.len() && (input[i] == 42u8 || input[i] == 120u8 || input[i] == 88u8) {
        Some((char_at(input, i), i + 1))
    } else {
        None
    }
}

/// A dot at position `i`.
fn dot(input: &[u8], i: usize, pos: Position) -> (r: Result<usize, Error>)
    requires
        i <= input@.len(),
    ensures
        r matches Ok(end) ==> end == i + 1 && end <= input@.len(),
        r is Ok <==> (i < input@.len() && input@[i as int] == 46u8),
{
    if i < input.len() && input[i] == 46u8 {
        Ok(i + 1)
    } else if i < input.len() {
        Err(Error::UnexpectedCharAfter(pos, char_at(input, i)))
    } else {
        Err(Error::UnexpectedEnd(pos))
    }
}

/// Dot-separated identifiers starting at `i`, up to the first byte that is
/// neither an identifier byte nor a dot; for a pre-release, numeric
/// identifiers may not have leading zeros. No identifier at all is read as
/// an empty list ending at `i`.
#[verifier::rlimit(80)]
fn identifier(input: &[u8], i: usize, pos: Position) -> (r: Result<(Vec<Vec<u8>>, usize), Error>)
    requires
        i <= input@.len(),
    ensures
        r matches Ok((ids, end)) ==> {
            &&& i <= end <= input@.len()
            &&& idents_ok(ids@.map_values(|id: Vec<u8>| id@))
            &&& (pos == Position::Pre ==> valid_pre(ids@.map_values(|id: Vec<u8>| id@)))
            &&& input@.subrange(i as int, end as int) == dotted_bytes(ids@.map_values(|id: Vec<u8>| id@))
            &&& stops_at(input@, end as int)
        },
        (exists|p: Seq<Seq<u8>>| #[trigger] dotted_at(input@, i as int, p) && (pos == Position::Pre
            ==> valid_pre(p))) ==> r is Ok,
        stops_at(input@, i as int) ==> r is Ok,
{
    let ghost target: Option<Seq<Seq<u8>>> = if exists|p: Seq<Seq<u8>>| #[trigger] dotted_at(input@, i as int, p)
        && (pos == Position::Pre ==> valid_pre(p)) {
        Some(choose|p: Seq<Seq<u8>>| #[trigger] dotted_at(input@, i as int, p) && (pos == Position::Pre
            ==> valid_pre(p)))
    } else {
        None
    };
    let n = input.len();
    let mut ids: Vec<Vec<u8>> = Vec::new();
    let mut acc: usize = i;
    let mut seg: usize = 0;
    let mut has_nondigit = false;
    proof {
        assert(ids@.map_values(|id: Vec<u8>| id@) =~= Seq::<Seq<u8>>::empty());
        if let Some(p) = target {
            assert(p.take(0) =~= Seq::<Seq<u8>>::empty());
            lemma_dotted_prefix(p, 1, p.len() as int);
            lemma_dotted_extend(p, 0);
            assert(p.take(p.len() as int) =~= p);
        }
    }
    loop
        invariant
            n == input@.len(),
            i <= acc,
            acc + seg <= n,
            ids@.len() == 0 ==> acc == i,
            stops_at(input@, i as int) ==> acc == i && seg == 0 && ids@.len() == 0,
            ids@.len() > 0 ==> input@.subrange(i as int, acc as int) == dotted_bytes(
                ids@.map_values(|id: Vec<u8>| id@),
            ).push(46u8),
            forall|k: int| acc <= k < acc + seg ==> is_ident_byte(#[trigger] input@[k]),
            !has_nondigit ==> forall|k: int| acc <= k < acc + seg ==> is_digit(#[trigger] input@[k]),
            has_nondigit ==> exists|k: int| acc <= k < acc + seg && !is_digit(#[trigger] input@[k]),
            idents_ok(ids@.map_values(|id: Vec<u8>| id@)),
            pos == Position::Pre ==> valid_pre(ids@.map_values(|id: Vec<u8>| id@)),
            (exists|p: Seq<Seq<u8>>| #[trigger] dotted_at(input@, i as int, p) && (pos == Position::Pre
                ==> valid_pre(p))) ==> target is Some,
            target matches Some(p) ==> {
                let k = ids@.len() as int;
                let v = ids@.map_values(|id: Vec<u8>| id@);
                &&& dotted_at(input@, i as int, p)
                &&& (pos == Position::Pre ==> valid_pre(p))
                &&& k < p.len()
                &&& v == p.take(k)
                &&& seg <= p[k].len()
                &&& input@.subrange(acc as int, (acc + seg) as int) == p[k].take(seg as int)
            },
        decreases input@.len() - (acc + seg),
    {
        let at = acc + seg;
        let b: Option<u8> = if at < n {
            Some(input[at])
        } else {
            None
        };
        let letter = match b {
            Some(x) => (65u8 <= x && x <= 90u8) || (97u8 <= x && x <= 122u8) || x == 45u8,
            None => false,
        };
        let digit = match b {
            Some(x) => 48u8 <= x && x <= 57u8,
            None => false,
        };
        let ghost v0 = ids@.map_values(|id: Vec<u8>| id@);
        proof {
            if let Some(p) = target {
                let k = ids@.len() as int;
                let d = dotted_bytes(p);
                let dk1 = dotted_bytes(p.take(k + 1));
                lemma_dotted_extend(p, k);
                lemma_dotted_prefix(p, k + 1, p.len() as int);
                assert(p.take(p.len() as int) =~= p);
                // The bytes read so far start the dotted form of `p`.
                let start = acc - i;
                if k == 0 {
                    assert(start == 0);
                } else {
                    assert(input@.subrange(i as int, acc as int) == dotted_bytes(p.take(k)).push(46u8));
                    assert(start == dotted_bytes(p.take(k)).len() + 1);
                }
                assert(dk1.len() == start + p[k].len());
                assert forall|j: int| 0 <= j < p[k].len() implies input@[acc + j] == p[k][j] by {
                    assert(d[start + j] == dk1[start + j]);
                    if k > 0 {
                        assert(dk1[start + j] == p[k][j]);
                    }
                    assert(input@.subrange(i as int, i + d.len())[start + j] == d[start + j]);
                }
                if seg < p[k].len() {
                    assert(input@[at as int] == p[k][seg as int]);
                    assert(is_ident_byte(p[k][seg as int]));
                } else if k + 1 < p.len() {
                    assert(d[dk1.len() as int] == 46u8);
                    assert(input@.subrange(i as int, i + d.len())[dk1.len() as int] == d[dk1.len() as int]);
                    assert(input@[at as int] == 46u8);
                } else {
                    assert(dk1 == d) by {
                        assert(p.take(k + 1) =~= p);
                    }
                    assert(at == i + d.len());
                }
            }
        }
        if letter {
            seg += 1;
            has_nondigit = true;
            proof {
                if let Some(p) = target {
                    let k = ids@.len() as int;
                    assert(input@.subrange(acc as int, (acc + seg) as int) =~= p[k].take(seg as int)) by {
                        assert forall|j: int| 0 <= j < seg implies input@.subrange(acc as int, (acc + seg) as int)[j]
                            == p[k].take(seg as int)[j] by {
                            if j < seg - 1 {
                                assert(input@.subrange(acc as int, (acc + seg - 1) as int)[j] == p[k].take(seg - 1)[j]);
                            }
                        }
                    }
                }
            }
        } else if digit {
            seg += 1;
            proof {
                if let Some(p) = target {
                    let k = ids@.len() as int;
                    assert(input@.subrange(acc as int, (acc + seg) as int) =~= p[k].take(seg as int)) by {
                        assert forall|j: int| 0 <= j < seg implies input@.subrange(acc as int, (acc + seg) as int)[j]
                            == p[k].take(seg as int)[j] by {
                            if j < seg - 1 {
                                assert(input@.subrange(acc as int, (acc + seg - 1) as int)[j] == p[k].take(seg - 1)[j]);
                            }
                        }
                    }
                }
            }
        } else {
            let is_dot = match b {
                Some(x) => x == 46u8,
                None => false,
            };
            if seg == 0 {
                if acc == i && !is_dot {
                    proof {
                        assert(input@.subrange(i as int, i as int) =~= Seq::<u8>::empty());
                        assert(dotted_bytes(ids@.map_values(|id: Vec<u8>| id@)) =~= Seq::<u8>::empty());
                    }
                    return Ok((ids, i));
                } else {
                    return Err(Error::EmptySegment(pos));
                }
            }
            if pos == Position::Pre && seg > 1 && !has_nondigit && input[acc] == 48u8 {
                proof {
                    if let Some(p) = target {
                        let k = ids@.len() as int;
                        assert(p[k] =~= input@.subrange(acc as int, (acc + seg) as int));
                        assert(valid_ident(p[k]));
                        assert(is_numeric(p[k])) by {
                            assert forall|j: int| 0 <= j < p[k].len() implies is_digit(#[trigger] p[k][j]) by {
                                assert(p[k][j] == input@[acc + j]);
                            }
                        }
                        assert(p[k][0] == input@[acc as int]);
                    }
                }
                return Err(Error::LeadingZero(pos));
            }
            let id = copy_range(input, acc, acc + seg);
            proof {
                let v = input@.subrange(acc as int, (acc + seg) as int);
                assert forall|j: int| 0 <= j < v.len() implies is_ident_byte(#[trigger] v[j]) by {
                    assert(v[j] == input@[acc + j]);
                }
                if !has_nondigit {
                    assert forall|j: int| 0 <= j < v.len() implies is_digit(#[trigger] v[j]) by {
                        assert(v[j] == input@[acc + j]);
                    }
                    assert(is_numeric(v));
                } else {
                    let k = choose|k: int| acc <= k < acc + seg && !is_digit(#[trigger] input@[k]);
                    assert(v[k - acc] == input@[k]);
                }
                if pos == Position::Pre {
                    if is_numeric(v) && v.len() > 1 {
                        assert(v[0] == input@[acc as int]);
                    }
                    assert(valid_ident(v)) by {
                        if is_numeric(v) && v.len() > 1 {
                            assert(!has_nondigit || !is_numeric(v));
                        }
                    }
                }
            }
            ids.push(id);
            let ghost v1 = ids@.map_values(|id: Vec<u8>| id@);
            proof {
                let seg_bytes = input@.subrange(acc as int, (acc + seg) as int);
                assert(v1 =~= v0.push(seg_bytes));
                assert(v1.drop_last() =~= v0);
                // The bytes read so far are the dotted form of the list.
                if v0.len() == 0 {
                    assert(input@.subrange(i as int, (acc + seg) as int) =~= dotted_bytes(v1));
                } else {
                    assert(dotted_bytes(v1) == dotted_bytes(v0).push(46u8) + seg_bytes);
                    assert(input@.subrange(i as int, (acc + seg) as int) =~= input@.subrange(
                        i as int,
                        acc as int,
                    ) + seg_bytes);
                }
                if let Some(p) = target {
                    let k = v0.len() as int;
                    if seg < p[k].len() {
                        assert(is_ident_byte(input@[(acc + seg) as int]));
                    }
                    assert(seg_bytes =~= p[k]);
                    assert(v1 =~= p.take(k + 1));
                }
            }
            acc = acc + seg;
            if is_dot {
                proof {
                    assert(input@.subrange(i as int, (acc + 1) as int) =~= input@.subrange(
                        i as int,
                        acc as int,
                    ).push(46u8));
                    if let Some(p) = target {
                        let k = v0.len() as int;
                        if k + 1 == p.len() {
                            assert(acc == i + dotted_bytes(p).len()) by {
                                assert(p.take(k + 1) =~= p);
                            }
                        }
                        assert(input@.subrange((acc + 1) as int, (acc + 1) as int) =~= p[k + 1].take(0));
                    }
                }
                acc = acc + 1;
                seg = 0;
                has_nondigit = false;
            } else {
                proof {
                    if b is Some {
                        assert(!is_ident_byte(input@[acc as int]));
                    }
                }
                return Ok((ids, acc));
            }
        }
    }
}

/// The operator at position `i`; without one, `^` is implied.
fn op(input: &[u8], i: usize) -> (r: (Op, usize))
    requires
        i <= input@.len(),
    ensures
        i <= r.1 <= input@.len(),
        r.0 != Op::Wildcard,
        r.1 == i ==> r.0 == Op::Caret,
        r.1 > i ==> input@.subrange(i as int, r.1 as int) == op_bytes(r.0),
        i < input@.len() && (is_digit(input@[i as int]) || input@[i as int] == 32u8) ==> r.0
            == Op::Caret && r.1 == i,
        forall|o: Op| #[trigger] op_prefix(input@, i as int, o) ==> r.1 == i + op_bytes(o).len() && r.0
            == (if o == Op::Wildcard {
                Op::Caret
            } else {
                o
            }),
{
    let r = if i < input.len() && input[i] == 61u8 {
        (Op::Exact, i + 1)
    } else if i < input.len() && input[i] == 62u8 {
        if i + 1 < input.len() && input[i + 1] == 61u8 {
            (Op::GreaterEq, i + 2)
        } else {
            (Op::Greater, i + 1)
        }
    } else if i < input.len() && input[i] == 60u8 {
        if i + 1 < input.len() && input[i + 1] == 61u8 {
            (Op::LessEq, i + 2)
        } else {
            (Op::Less, i + 1)
        }
    } else if i < input.len() && input[i] == 126u8 {
        (Op::Tilde, i + 1)
    } else if i < input.len() && input[i] == 94u8 {
        (Op::Caret, i + 1)
    } else {
        (Op::Caret, i)
    };
    proof {
        if r.1 > i {
            assert(input@.subrange(i as int, r.1 as int) =~= op_bytes(r.0));
        }
        assert forall|o: Op| #[trigger] op_prefix(input@, i as int, o) implies r.1 == i + op_bytes(o).len()
            && r.0 == (if o == Op::Wildcard {
            Op::Caret
        } else {
            o
        }) by {
            let b = op_bytes(o);
            if b.len() > 0 {
                assert(input@[i as int] == b[0]) by {
                    assert(input@.subrange(i as int, i + b.len())[0] == b[0]);
                }
            }
            if b.len() > 1 {
                assert(input@[i + 1] == b[1]) by {
                    assert(input@.subrange(i as int, i + b.len())[1] == b[1]);
                }
            }
            match o {
                Op::Greater => {
                    assert(is_digit(input@[i + 1]) || input@[i + 1] == 32u8);
                },
                Op::Less => {
                    assert(is_digit(input@[i + 1]) || input@[i + 1] == 32u8);
                },
                Op::Wildcard => {
                    assert(is_digit(input@[i as int]) || input@[i as int] == 32u8);
                },
                _ => {},
            }
        }
    }
    r
}

/// The numbers, pre-release and build metadata of a comparator, read from
/// position `at`, after its operator and the spaces after it. Without an
/// operator the comparator is `^`, or a wildcard where a wildcard byte
/// stands for a left-out number.
#[verifier::rlimit(100)]
#[verifier::spinoff_prover]
fn comparator_number(input: &[u8], at: usize, default_op: bool, op: Op) -> (r: Result<
    (Comparator, Position, usize),
    Error,
>)
    requires
        at <= input@.len(),
        op != Op::Wildcard,
        default_op ==> op == Op::Caret,
    ensures
        r matches Ok((c, _, e)) ==> canonical_comparator(c) && at < e <= input@.len() && (!default_op
            ==> c.op == op),
        r matches Ok((c, _, e)) ==> exists|f: Form|
            f.op_written == !default_op && form_ok(c, f) && #[trigger] form_number_bytes(c, f)
                == input@.subrange(at as int, e as int),
        forall|d: Comparator|
            canonical_comparator(d) && #[trigger] number_at(input@, at as int, d) && (if default_op {
                d.op == Op::Caret || d.op == Op::Wildcard
            } else {
                d.op == op
            }) ==> (r matches Ok((c, _, e)) && same_comparator(c, d) && e == at + number_bytes(d).len()),
{
    let ghost s = input@;
    let ghost j = at as int;
    let ghost target: Option<Comparator> = if exists|d: Comparator|
        canonical_comparator(d) && #[trigger] number_at(s, j, d) && (if default_op {
            d.op == Op::Caret || d.op == Op::Wildcard
        } else {
            d.op == op
        }) {
        Some(
            choose|d: Comparator|
                canonical_comparator(d) && #[trigger] number_at(s, j, d) && (if default_op {
                    d.op == Op::Caret || d.op == Op::Wildcard
                } else {
                    d.op == op
                }),
        )
    } else {
        None
    };
    proof {
        if let Some(d) = target {
            lemma_number_layout(s, j, d);
        }
    }
    let mut op = op;
    let mut pos = Position::Major;
    let ghost mut ms: Option<u8> = None;
    let ghost mut ps: Option<u8> = None;
    let ghost mut bd: Option<Seq<u8>> = None;
    let (major, text) = numeric_identifier(input, at, pos)?;
    let ghost p_major = text;
    proof {
        if let Some(d) = target {
            lemma_decimal_at_unique(s, j, major as nat, d.major as nat);
            assert(text == j + n_major_end(d));
        }
    }
    let mut has_wildcard = false;
    let (minor, text) = if text < input.len() && input[text] == 46u8 {
        let text = text + 1;
        pos = Position::Minor;
        if let Some((_, text)) = wildcard(input, text) {
            has_wildcard = true;
            if default_op {
                op = Op::Wildcard;
            }
            proof {
                ms = Some(s[p_major + 1]);
                assert(s.subrange(p_major as int, text as int) == seq![46u8, s[p_major + 1]]) by {
                    assert(s.subrange(p_major as int, text as int) =~= seq![46u8, s[p_major + 1]]);
                }
            }
            (None, text)
        } else {
            let (minor, text) = numeric_identifier(input, text, pos)?;
            proof {
                assert(s.subrange(p_major as int, text as int) == seq![46u8] + decimal_bytes(minor as nat)) by {
                    assert(s.subrange(p_major as int, text as int) =~= seq![46u8] + decimal_bytes(minor as nat));
                }

                if let Some(d) = target {
                    lemma_decimal_at_unique(s, j + n_major_end(d) + 1, minor as nat, d.minor->0 as nat);
                }
            }
            (Some(minor), text)
        }
    } else {
        (None, text)
    };
    let ghost p_minor = text;
    proof {
        assert(s.subrange(p_major as int, p_minor as int) == part_bytes(minor, ms));
        if let Some(d) = target {
            assert(minor == d.minor);
            assert(has_wildcard == (d.minor is None && d.op == Op::Wildcard));
            assert(d.minor is Some ==> text == j + n_minor_end(d));
            assert(d.minor is None ==> text == j + number_bytes(d).len());
        }
        assert(op == Op::Wildcard ==> has_wildcard || !default_op);
        assert(has_wildcard ==> minor is None);
    }
    let (patch, text) = if text < input.len() && input[text] == 46u8 {
        let text = text + 1;
        pos = Position::Patch;
        if let Some((_, text)) = wildcard(input, text) {
            if default_op {
                op = Op::Wildcard;
            }
            proof {
                ps = Some(s[p_minor + 1]);
                assert(s.subrange(p_minor as int, text as int) == seq![46u8, s[p_minor + 1]]) by {
                    assert(s.subrange(p_minor as int, text as int) =~= seq![46u8, s[p_minor + 1]]);
                }
            }
            (None, text)
        } else if has_wildcard {
            return Err(Error::UnexpectedAfterWildcard);
        } else {
            let (patch, text) = numeric_identifier(input, text, pos)?;
            proof {
                assert(s.subrange(p_minor as int, text as int) == seq![46u8] + decimal_bytes(patch as nat)) by {
                    assert(s.subrange(p_minor as int, text as int) =~= seq![46u8] + decimal_bytes(patch as nat));
                }
                if let Some(d) = target {
                    lemma_decimal_at_unique(s, j + n_minor_end(d) + 1, patch as nat, d.patch->0 as nat);
                }
            }
            (Some(patch), text)
        }
    } else {
        (None, text)
    };
    let ghost p_patch = text;
    proof {
        assert(s.subrange(p_minor as int, p_patch as int) == part_bytes(patch, ps));
        if let Some(d) = target {
            assert(patch == d.patch);
            assert(d.patch is Some ==> text == j + n_patch_end(d));
            assert(d.patch is None ==> text == j + number_bytes(d).len());
            assert(op == d.op);
        }
        assert(op == Op::Wildcard ==> patch is None);
        assert(patch is Some ==> minor is Some);
    }
    let (pre, text) = if patch.is_some() && text < input.len() && input[text] == 45u8 {
        pos = Position::Pre;
        let start = text + 1;
        proof {
            if let Some(d) = target {
                assert(dotted_at(s, start as int, d.pre@) && (Position::Pre == Position::Pre ==> valid_pre(d.pre@)));
            }
        }
        let (ids, text) = identifier(input, start, pos)?;
        let ghost v = ids@.map_values(|id: Vec<u8>| id@);
        if ids.len() == 0 {
            proof {
                if let Some(d) = target {
                    lemma_dotted_first_byte(s, start as int, d.pre@);
                    assert(v =~= Seq::<Seq<u8>>::empty());
                    assert(s.subrange(start as int, text as int).len() == 0);
                }
            }
            return Err(Error::EmptySegment(pos));
        }
        let pre = Prerelease::from_idents(ids);
        proof {
            assert(s.subrange(p_patch as int, text as int) == seq![45u8] + dotted_bytes(pre@)) by {
                assert(s.subrange(p_patch as int, text as int) =~= seq![45u8] + dotted_bytes(pre@));
            }
            if let Some(d) = target {
                assert(dotted_at(s, start as int, v));
                lemma_dotted_at_unique(s, start as int, v, d.pre@);
            }
        }
        (pre, text)
    } else {
        (Prerelease::empty(), text)
    };
    let ghost p_pre = text;
    proof {
        assert(s.subrange(p_patch as int, p_pre as int) == pre_piece(Comparator { op, major, minor, patch, pre }));
        if let Some(d) = target {
            assert(pre@ =~= d.pre@);
            assert(text == j + number_bytes(d).len());
        }
    }
    let text = if patch.is_some() && text < input.len() && input[text] == 43u8 {
        pos = Position::Build;
        let (ids, text) = identifier(input, text + 1, pos)?;
        if ids.len() == 0 {
            return Err(Error::EmptySegment(pos));
        }
        proof {
            let v = ids@.map_values(|id: Vec<u8>| id@);
            lemma_dotted_bytes_kind(v);
            assert(v.len() > 0 && idents_ok(v) && dotted_bytes(v) == dotted_bytes(v));
            bd = Some(dotted_bytes(v));
            assert(s.subrange(p_pre as int, text as int) == seq![43u8] + dotted_bytes(v)) by {
                assert(s.subrange(p_pre as int, text as int) =~= seq![43u8] + dotted_bytes(v));
            }
        }
        text
    } else {
        text
    };
    let c = Comparator { op, major, minor, patch, pre };
    proof {
        if let Some(d) = target {
            assert(same_comparator(c, d));
            if text != j + number_bytes(d).len() {
                assert(s[j + number_bytes(d).len()] == 43u8);
            }
            assert forall|d2: Comparator|
                canonical_comparator(d2) && #[trigger] number_at(s, j, d2) && (if default_op {
                    d2.op == Op::Caret || d2.op == Op::Wildcard
                } else {
                    d2.op == op
                }) implies same_comparator(c, d2) && text == j + number_bytes(d2).len() by {
                lemma_number_at_unique(s, j, d, d2);
            }
        }
        assert(c.wf());
        assert(canonical_comparator(c));
    }
    assert(exists|f: Form|
        f.op_written == !default_op && form_ok(c, f) && #[trigger] form_number_bytes(c, f) == s.subrange(
            j,
            text as int,
        )) by {
        let f = Form {
            lead: 0,
            op_written: !default_op,
            mid: 0,
            minor_star: ms,
            patch_star: ps,
            build: bd,
            trail: 0,
        };
        assert(s.subrange(p_pre as int, text as int) == build_piece(f));
        lemma_number_pieces(s, c, f, j, (p_major as int, p_minor as int, p_patch as int, p_pre as int), text as int);
        assert(form_ok(c, f));
    }
    Ok((c, pos, text))
}

/// One comparator starting at position `i`, followed by any spaces. A
/// comparator written with its operator or, for `^`, without it, with
/// spaces after the operator and after the comparator, is read back as that
/// comparator.
fn comparator(input: &[u8], i: usize) -> (r: Result<(Comparator, Position, usize), Error>)
    requires
        i <= input@.len(),
    ensures
        r matches Ok((c, _, end)) ==> canonical_comparator(c) && i < end <= input@.len(),
        forall|d: Comparator, w: bool, mid: nat, trail: nat| #[trigger]
            spelled_at(input@, i as int, d, w, mid, trail) ==> (r matches Ok((c, _, end))
                && same_comparator(c, d) && end == spelled_end(i as int, d, w, mid, trail)),
        r matches Ok((c, _, end)) ==> exists|f: Form|
            f.lead == 0 && form_ok(c, f) && #[trigger] form_bytes(c, f) == input@.subrange(i as int, end as int),
{
    let ghost s = input@;
    let ghost ii = i as int;
    let ghost target: Option<(Comparator, bool, nat, nat)> = if exists|d: Comparator, w: bool, m: nat, t: nat|
        #[trigger] spelled_at(s, ii, d, w, m, t) {
        Some(choose|d: Comparator, w: bool, m: nat, t: nat| #[trigger] spelled_at(s, ii, d, w, m, t))
    } else {
        None
    };
    let ghost j: int = match target {
        Some((d, w, m, t)) => number_start(ii, d, w, m),
        None => 0,
    };
    proof {
        if let Some((d, w, m, t)) = target {
            lemma_spelling_layout(s, ii, d, w, m, t);
            if written_op(d, w).len() > 0 {
                assert(written_op(d, w) == op_bytes(d.op));
            }
        }
    }
    let (op, text) = op(input, i);
    let default_op = text == i;
    let ghost after_op = text;
    let text = skip_spaces(input, text);
    proof {
        if let Some((d, w, m, t)) = target {
            assert(after_op == ii + written_op(d, w).len());
            lemma_number_layout(s, j, d);
            assert(s[j] != 32u8);
            lemma_space_run(s, after_op as int, text as int, j);
            assert(default_op == (written_op(d, w).len() == 0));
            assert(number_at(s, text as int, d));
        }
    }
    let (c, pos, e) = comparator_number(input, text, default_op, op)?;
    let end = skip_spaces(input, e);
    proof {
        if let Some((d, w, m, t)) = target {
            let en = spelled_end(ii, d, w, m, t);
            assert(en == s.len() || s[en] != 32u8);
            lemma_space_run(s, e as int, end as int, en);
            assert forall|d2: Comparator, w2: bool, m2: nat, t2: nat| #[trigger]
                spelled_at(s, ii, d2, w2, m2, t2) implies same_comparator(c, d2) && end == spelled_end(
                ii,
                d2,
                w2,
                m2,
                t2,
            ) by {
                lemma_spelled_unique(s, ii, (d, w, m, t), (d2, w2, m2, t2));
            }
        }
    }
    assert(exists|f: Form|
        f.lead == 0 && form_ok(c, f) && #[trigger] form_bytes(c, f) == s.subrange(ii, end as int)) by {
        let g = choose|f: Form|
            f.op_written == !default_op && form_ok(c, f) && #[trigger] form_number_bytes(c, f) == s.subrange(
                text as int,
                e as int,
            );
        let f = Form {
            lead: 0,
            op_written: !default_op,
            mid: (text - after_op) as nat,
            minor_star: g.minor_star,
            patch_star: g.patch_star,
            build: g.build,
            trail: (end - e) as nat,
        };
        assert(form_number_bytes(c, f) == form_number_bytes(c, g));
        assert(s.subrange(ii, after_op as int) =~= spaces(0) + written_op(c, f.op_written));
        lemma_space_bytes(s, after_op as int, text as int);
        lemma_space_bytes(s, e as int, end as int);
        lemma_form_pieces(s, c, f, ii, (after_op as int, text as int, e as int), end as int);
        assert(form_ok(c, f));
    }
    Ok((c, pos, end))
}

/// The most comparators a requirement may have.
pub const MAX_COMPARATORS: usize = 32;

/// Reads a requirement whose comparators are written each with any spaces
/// around it and, for `^`, with or without its operator, joined by commas;
/// or `*` alone.
#[verifier::rlimit(100)]
#[verifier::spinoff_prover]
fn requirement(text: &str) -> (r: Result<VersionReq, Error>)
    ensures
        r matches Ok(req) ==> req.wf() && canonical_req(req) && req.comparators@.len()
            <= MAX_COMPARATORS,
        text@ == "*"@ ==> (r matches Ok(req) && req.comparators@.len() == 0),
        forall|q: VersionReq, sp: Seq<(nat, bool, nat, nat)>|
            canonical_req(q) && 0 < q.comparators@.len() <= MAX_COMPARATORS && spellings_ok(
                q.comparators@,
                sp,
            ) && #[trigger] written_req(q, sp) == text@ ==> (r matches Ok(req) && same_req(req, q)),
        r matches Ok(req) ==> (req.comparators@.len() == 0 && exists|a: nat, x: u8, b: nat|
            is_star(x) && #[trigger] lone_star(a, x, b) == encode_utf8(text@)) || exists|fs: Seq<Form>|
            forms_ok(req.comparators@, fs) && #[trigger] form_list(req.comparators@, fs) == encode_utf8(text@),
{
    let input = text.as_bytes();
    let ghost s = input@;
    let ghost written: Option<(VersionReq, Seq<(nat, bool, nat, nat)>)> = if exists|
        q: VersionReq,
        sp: Seq<(nat, bool, nat, nat)>,
    |
        canonical_req(q) && 0 < q.comparators@.len() <= MAX_COMPARATORS && spellings_ok(
            q.comparators@,
            sp,
        ) && #[trigger] written_req(q, sp) == text@ {
        Some(
            choose|q: VersionReq, sp: Seq<(nat, bool, nat, nat)>|
                canonical_req(q) && 0 < q.comparators@.len() <= MAX_COMPARATORS && spellings_ok(
                    q.comparators@,
                    sp,
                ) && #[trigger] written_req(q, sp) == text@,
        )
    } else {
        None
    };
    let ghost ws: Seq<Comparator> = match written {
        Some((q, sp)) => q.comparators@,
        None => Seq::empty(),
    };
    let ghost wsp: Seq<(nat, bool, nat, nat)> = match written {
        Some((q, sp)) => sp,
        None => Seq::empty(),
    };
    proof {
        if text@ == "*"@ {
            reveal_strlit("*");
            assert(ascii_chars(seq![42u8]) =~= "*"@);
            lemma_ascii_encode(seq![42u8]);
            assert(s == seq![42u8]);
        }
        if let Some((q, sp)) = written {
            lemma_written_list_ascii(ws, wsp);
            lemma_ascii_encode(written_list(ws, wsp));
            assert(s == written_list(ws, wsp));
            lemma_written_layout(ws, wsp, 0);
            assert(canonical_comparator(ws[0]));
            assert(spelling_ok(ws[0], wsp[0].1));
            lemma_elem_layout(s, 0, wsp[0].0, ws[0], wsp[0].1, wsp[0].2, wsp[0].3);
            lemma_spelled_first_byte(
                s,
                read_start(wsp[0].0, ws[0], wsp[0].1, wsp[0].2) as int,
                ws[0],
                wsp[0].1,
                read_mid(ws[0], wsp[0].1, wsp[0].2),
                wsp[0].3,
            );
        }
    }
    let start = skip_spaces(input, 0);
    proof {
        if let Some((q, sp)) = written {
            lemma_space_run(s, 0, start as int, read_start(wsp[0].0, ws[0], wsp[0].1, wsp[0].2) as int);
        }
    }
    if let Some((ch, rest)) = wildcard(input, start) {
        let rest = skip_spaces(input, rest);
        if rest == input.len() {
            proof {
                let x = s[start as int];
                lemma_space_bytes(s, 0, start as int);
                lemma_space_bytes(s, start + 1, rest as int);
                assert(s =~= s.subrange(0, start as int) + seq![x] + s.subrange(start + 1, rest as int));
                assert(is_star(x) && lone_star(start as nat, x, (rest - start - 1) as nat) == s);
            }
            return Ok(VersionReq::star());
        } else if input[rest] == 44u8 {
            return Err(Error::WildcardNotTheOnlyComparator(ch));
        } else {
            return Err(Error::UnexpectedAfterWildcard);
        }
    }
    let mut comparators: Vec<Comparator> = Vec::new();
    let mut at = start;
    let ghost mut fs: Seq<Form> = Seq::empty();
    let ghost mut seg: int = 0;
    proof {
        lemma_laid_out_start(s, start as int);
    }
    loop
        invariant
            s == input@,
            laid_out(s, comparators@, fs, seg, at as int),
            s == encode_utf8(text@),
            text@ != "*"@,
            at <= input@.len(),
            forall|k: int| 0 <= k < comparators@.len() ==> canonical_comparator(#[trigger] comparators@[k]),
            comparators@.len() < MAX_COMPARATORS,
            (exists|q: VersionReq, sp: Seq<(nat, bool, nat, nat)>|
                canonical_req(q) && 0 < q.comparators@.len() <= MAX_COMPARATORS && spellings_ok(
                    q.comparators@,
                    sp,
                ) && #[trigger] written_req(q, sp) == text@) ==> written is Some,
            written matches Some((q, sp)) ==> {
                &&& ws == q.comparators@
                &&& wsp == sp
                &&& written_req(q, sp) == text@
                &&& canonical_req(q)
                &&& spellings_ok(ws, wsp)
                &&& 0 < ws.len() <= MAX_COMPARATORS
                &&& s == written_list(ws, wsp)
                &&& comparators@.len() < ws.len()
                &&& at == elem_start(ws, wsp, comparators@.len() as int) + read_start(
                    wsp[comparators@.len() as int].0,
                    ws[comparators@.len() as int],
                    wsp[comparators@.len() as int].1,
                    wsp[comparators@.len() as int].2,
                )
                &&& forall|k: int|
                    0 <= k < comparators@.len() ==> same_comparator(#[trigger] comparators@[k], ws[k])
            },
        decreases input@.len() - at,
    {
        let ghost k = comparators@.len() as int;
        proof {
            if let Some((q, sp)) = written {
                lemma_written_layout(ws, wsp, k);
                assert(canonical_comparator(ws[k]));
                assert(spelling_ok(ws[k], wsp[k].1));
                lemma_elem_layout(s, elem_start(ws, wsp, k), wsp[k].0, ws[k], wsp[k].1, wsp[k].2, wsp[k].3);
                assert(spelled_at(s, at as int, ws[k], wsp[k].1, read_mid(ws[k], wsp[k].1, wsp[k].2), wsp[k].3));
            }
        }
        let (c, pos, rest) = match comparator(input, at) {
            Ok(success) => success,
            Err(error) => {
                if let Some((ch, rest)) = wildcard(input, at) {
                    let rest = skip_spaces(input, rest);
                    if rest == input.len() || input[rest] == 44u8 {
                        return Err(Error::WildcardNotTheOnlyComparator(ch));
                    }
                }
                return Err(error);
            },
        };
        let ghost before = comparators@;
        let ghost before_fs = fs;
        comparators.push(c);
        proof {
            let f = choose|f: Form|
                f.lead == 0 && form_ok(c, f) && #[trigger] form_bytes(c, f) == s.subrange(at as int, rest as int);
            let g = with_lead(f, (at - seg) as nat);
            assert(forms_ok(before.push(c), before_fs.push(g)) && s.subrange(0, rest as int) == form_list(
                before.push(c),
                before_fs.push(g),
            )) by {
                lemma_form_list_step(s, before, before_fs, c, f, seg, at as int, rest as int);
            }
            fs = before_fs.push(g);
            assert(comparators@ == before.push(c));
            assert forall|j: int| 0 <= j < comparators@.len() implies canonical_comparator(
                #[trigger] comparators@[j],
            ) by {
                if j < before.len() {
                    assert(comparators@[j] == before[j]);
                }
            }
            if let Some((q, sp)) = written {
                assert forall|j: int| 0 <= j < comparators@.len() implies same_comparator(
                    #[trigger] comparators@[j],
                    ws[j],
                ) by {
                    if j < before.len() {
                        assert(comparators@[j] == before[j]);
                    }
                }
            }
        }
        if rest == input.len() {
            let req = VersionReq { comparators };
            proof {
                assert(req.wf()) by {
                    assert forall|j: int| 0 <= j < req.comparators@.len() implies (
                    #[trigger] req.comparators@[j]).wf() by {
                        assert(canonical_comparator(req.comparators@[j]));
                    }
                }
                if let Some((wq, wp)) = written {
                    if k + 1 < ws.len() {
                        lemma_written_layout(ws, wsp, k + 1);
                    }
                    assert(k + 1 == ws.len());
                    lemma_same_written(s, text@, req, ws, wsp);
                }
            }
            proof {
                assert(s.subrange(0, s.len() as int) =~= s);
                assert(forms_ok(req.comparators@, fs) && form_list(req.comparators@, fs) == encode_utf8(text@));
            }
            return Ok(req);
        }
        if input[rest] != 44u8 {
            return Err(Error::ExpectedCommaFound(pos, char_at(input, rest)));
        }
        if comparators.len() == MAX_COMPARATORS {
            return Err(Error::ExcessiveComparators);
        }
        let next = skip_spaces(input, rest + 1);
        proof {
            lemma_laid_out_next(s, comparators@, fs, rest as int, next as int);
            seg = rest + 1;
            if let Some((q, sp)) = written {
                assert(k + 1 < ws.len());
                assert(next == elem_start(ws, wsp, k + 1) + read_start(
                    wsp[k + 1].0,
                    ws[k + 1],
                    wsp[k + 1].1,
                    wsp[k + 1].2,
                )) by {
                lemma_written_layout(ws, wsp, k + 1);
                assert(canonical_comparator(ws[k + 1]));
                assert(spelling_ok(ws[k + 1], wsp[k + 1].1));
                lemma_elem_layout(
                    s,
                    elem_start(ws, wsp, k + 1),
                    wsp[k + 1].0,
                    ws[k + 1],
                    wsp[k + 1].1,
                    wsp[k + 1].2,
                    wsp[k + 1].3,
                );
                lemma_space_run(
                    s,
                    rest + 1,
                    next as int,
                    elem_start(ws, wsp, k + 1) + read_start(wsp[k + 1].0, ws[k + 1], wsp[k + 1].1, wsp[k + 1].2),
                );
                }
            }
        }
        at = next;
    }
}

/// A requirement whose comparators agree one by one with those of one
/// written form of the text agrees with those of every written form of it.
proof fn lemma_same_written(
    s: Seq<u8>,
    text: Seq<char>,
    req: VersionReq,
    ws: Seq<Comparator>,
    wsp: Seq<(nat, bool, nat, nat)>,
)
    requires
        s == encode_utf8(text),
        s == written_list(ws, wsp),
        spellings_ok(ws, wsp),
        0 < ws.len(),
        forall|j: int| 0 <= j < ws.len() ==> canonical_comparator(#[trigger] ws[j]),
        req.comparators@.len() == ws.len(),
        forall|j: int| 0 <= j < ws.len() ==> same_comparator(#[trigger] req.comparators@[j], ws[j]),
    ensures
        forall|q: VersionReq, sp: Seq<(nat, bool, nat, nat)>|
            canonical_req(q) && 0 < q.comparators@.len() && spellings_ok(q.comparators@, sp)
                && #[trigger] written_req(q, sp) == text ==> same_req(req, q),
{
    assert forall|q: VersionReq, sp: Seq<(nat, bool, nat, nat)>|
        canonical_req(q) && 0 < q.comparators@.len() && spellings_ok(q.comparators@, sp)
            && #[trigger] written_req(q, sp) == text implies same_req(req, q) by {
        let ys = q.comparators@;
        assert forall|j: int| 0 <= j < ys.len() implies canonical_comparator(#[trigger] ys[j]) by {
            assert(canonical_comparator(q.comparators@[j]));
        }
        lemma_written_list_ascii(ys, sp);
        lemma_ascii_encode(written_list(ys, sp));
        assert(s == written_list(ys, sp));
        lemma_written_list_unique(s, ws, wsp, ys, sp, 0);
        assert forall|j: int| 0 <= j < req.comparators@.len() implies same_comparator(
            #[trigger] req.comparators@[j],
            q.comparators@[j],
        ) by {
            assert(same_comparator(req.comparators@[j], ws[j]));
            assert(same_comparator(ws[j], ys[j]));
        }
    }
}

impl VersionReq {
    /// Parses a requirement such as `>=1.2.3, <2.0.0`, `^1.5`, `1.2.*` or
    /// `*`. Every comparator of a parsed requirement is as the parser
    /// produces it, and there are at most `MAX_COMPARATORS` of them. A
    /// requirement written with any spaces around its comparators and
    /// operators, and with `^` left out or not, is read back as that
    /// requirement; so is its printed form. A text read successfully is
    /// `*`, `x` or `X` alone, with spaces around it, for the requirement
    /// without comparators, or else the comparators read, each laid out in
    /// one of the ways `forms_ok` allows, joined by commas.
    pub fn parse(text: &str) -> (r: Result<VersionReq, Error>)
        ensures
            r matches Ok(req) ==> req.wf() && canonical_req(req) && req.comparators@.len()
                <= MAX_COMPARATORS,
            forall|q: VersionReq|
                canonical_req(q) && q.comparators@.len() <= MAX_COMPARATORS && #[trigger] req_text(q)
                    == text@ ==> (r matches Ok(req) && same_req(req, q)),
            forall|q: VersionReq, sp: Seq<(nat, bool, nat, nat)>|
                canonical_req(q) && 0 < q.comparators@.len() <= MAX_COMPARATORS && spellings_ok(
                    q.comparators@,
                    sp,
                ) && #[trigger] written_req(q, sp) == text@ ==> (r matches Ok(req) && same_req(req, q)),
            r matches Ok(req) ==> (req.comparators@.len() == 0 && exists|a: nat, x: u8, b: nat|
                is_star(x) && #[trigger] lone_star(a, x, b) == encode_utf8(text@)) || exists|fs: Seq<Form>|
                forms_ok(req.comparators@, fs) && #[trigger] form_list(req.comparators@, fs) == encode_utf8(
                    text@,
                ),
    {
        let r = requirement(text);
        proof {
            assert forall|q: VersionReq|
                canonical_req(q) && q.comparators@.len() <= MAX_COMPARATORS && #[trigger] req_text(q)
                    == text@ implies (r matches Ok(req) && same_req(req, q)) by {
                if q.comparators@.len() == 0 {
                    assert(text@ == "*"@);
                } else {
                    lemma_printed_req(q);
                    assert(written_req(q, printed_spelling(q.comparators@.len())) == text@);
                }
            }
        }
        r
    }
}

impl Comparator {
    /// Parses a single comparator such as `>=1.2.3` or `~1.2`. A parsed
    /// comparator is as the parser produces it. A comparator written with
    /// its operator, or for `^` without it, with any spaces before it, after
    /// its operator and after it, is read back as that comparator; so is its
    /// printed form. A text read successfully is the comparator read, laid
    /// out in one of the ways `form_ok` allows.
    pub fn parse(text: &str) -> (r: Result<Comparator, Error>)
        ensures
            r matches Ok(c) ==> canonical_comparator(c),
            forall|lead: nat, d: Comparator, w: bool, mid: nat, trail: nat|
                canonical_comparator(d) && spelling_ok(d, w) && #[trigger] written_comparator(
                    lead,
                    d,
                    w,
                    mid,
                    trail,
                ) == text@ ==> (r matches Ok(c) && same_comparator(c, d)),
            forall|d: Comparator|
                canonical_comparator(d) && #[trigger] comparator_text(d) == text@ ==> (r matches Ok(c)
                    && same_comparator(c, d)),
            r matches Ok(c) ==> exists|f: Form| form_ok(c, f) && #[trigger] form_bytes(c, f) == encode_utf8(text@),
    {
        let input = text.as_bytes();
        let ghost s = input@;
        proof {
            assert forall|d: Comparator|
                canonical_comparator(d) && #[trigger] comparator_text(d) == text@ implies written_comparator(
                0,
                d,
                true,
                0,
                0,
            ) == text@ by {
                lemma_comparator_bytes_split(d);
                lemma_valid_idents_ok(d.pre@);
                lemma_comparator_chars(d);
                assert(spaces(0) + spelled_bytes(d, true, 0, 0) =~= comparator_bytes(d));
            }
        }
        let ghost target: Option<(nat, Comparator, bool, nat, nat)> = if exists|
            lead: nat,
            d: Comparator,
            w: bool,
            mid: nat,
            trail: nat,
        |
            canonical_comparator(d) && spelling_ok(d, w) && #[trigger] written_comparator(
                lead,
                d,
                w,
                mid,
                trail,
            ) == text@ {
            Some(
                choose|lead: nat, d: Comparator, w: bool, mid: nat, trail: nat|
                    canonical_comparator(d) && spelling_ok(d, w) && #[trigger] written_comparator(
                        lead,
                        d,
                        w,
                        mid,
                        trail,
                    ) == text@,
            )
        } else {
            None
        };
        proof {
            if let Some((lead, d, w, mid, trail)) = target {
                lemma_spelled_ascii(lead, d, w, mid, trail);
                lemma_ascii_encode(spaces(lead) + spelled_bytes(d, w, mid, trail));
                assert(s == spaces(lead) + spelled_bytes(d, w, mid, trail));
                lemma_written_comparator_layout(s, lead, d, w, mid, trail);
            }
        }
        let start = skip_spaces(input, 0);
        proof {
            if let Some((lead, d, w, mid, trail)) = target {
                lemma_space_run(s, 0, start as int, read_start(lead, d, w, mid) as int);
                assert(spelled_at(s, start as int, d, w, read_mid(d, w, mid), trail));
            }
        }
        let (c, pos, rest) = comparator(input, start)?;
        if rest < input.len() {
            return Err(Error::UnexpectedCharAfter(pos, char_at(input, rest)));
        }
        proof {
            if let Some((lead, d, w, mid, trail)) = target {
                assert forall|lead2: nat, d2: Comparator, w2: bool, mid2: nat, trail2: nat|
                    canonical_comparator(d2) && spelling_ok(d2, w2) && #[trigger] written_comparator(
                        lead2,
                        d2,
                        w2,
                        mid2,
                        trail2,
                    ) == text@ implies same_comparator(c, d2) by {
                    lemma_spelled_ascii(lead2, d2, w2, mid2, trail2);
                    lemma_ascii_encode(spaces(lead2) + spelled_bytes(d2, w2, mid2, trail2));
                    lemma_written_comparator_layout(s, lead2, d2, w2, mid2, trail2);
                    lemma_space_run(s, 0, start as int, read_start(lead2, d2, w2, mid2) as int);
                }
            }
            let f = choose|f: Form|
                f.lead == 0 && form_ok(c, f) && #[trigger] form_bytes(c, f) == s.subrange(start as int, rest as int);
            lemma_form_lead(s, c, f, 0, start as int, rest as int);
            assert(s.subrange(0, rest as int) =~= s);
            assert(form_ok(c, with_lead(f, start as nat)) && form_bytes(c, with_lead(f, start as nat)) == encode_utf8(text@));
        }
        Ok(c)
    }
}

impl Prerelease {
    /// Parses a pre-release such as `alpha.1`; the empty text is the empty
    /// pre-release. The text is accepted exactly when it is the text of a
    /// well-formed pre-release, and then that pre-release is returned.
    pub fn new(text: &str) -> (r: Result<Prerelease, Error>)
        ensures
            r matches Ok(p) ==> valid_pre(p@) && dotted(p@) == text@,
            forall|q: Seq<Seq<u8>>|
                valid_pre(q) && #[trigger] dotted(q) == text@ ==> (r matches Ok(p) && p@ == q),
    {
        let input = text.as_bytes();
        let ghost s = input@;
        let ghost target: Option<Seq<Seq<u8>>> = if exists|q: Seq<Seq<u8>>|
            valid_pre(q) && #[trigger] dotted(q) == text@ {
            Some(choose|q: Seq<Seq<u8>>| valid_pre(q) && #[trigger] dotted(q) == text@)
        } else {
            None
        };
        proof {
            if let Some(q) = target {
                lemma_valid_idents_ok(q);
                lemma_dotted_chars(q);
                lemma_ascii_encode(dotted_bytes(q));
                assert(s == dotted_bytes(q));
                if q.len() > 0 {
                    assert(s.subrange(0, s.len() as int) =~= s);
                    assert(dotted_at(s, 0, q));
                }
            }
        }
        let (ids, end) = identifier(input, 0, Position::Pre)?;
        let ghost v = ids@.map_values(|id: Vec<u8>| id@);
        proof {
            if let Some(q) = target {
                if q.len() == 0 {
                    assert(s.len() == 0);
                } else if v.len() == 0 {
                    lemma_dotted_first_byte(s, 0, q);
                    assert(s.subrange(0, end as int).len() == 0);
                } else {
                    assert(dotted_at(s, 0, v));
                    lemma_dotted_at_unique(s, 0, q, v);
                }
            }
        }
        if end != input.len() {
            return Err(Error::IllegalCharacter(Position::Pre));
        }
        let p = Prerelease::from_idents(ids);
        proof {
            assert(s.subrange(0, end as int) =~= s);
            lemma_dotted_chars(v);
            lemma_text_of_ascii(text@, dotted_bytes(v));
            assert forall|q: Seq<Seq<u8>>| valid_pre(q) && #[trigger] dotted(q) == text@ implies p@ == q by {
                lemma_valid_idents_ok(q);
                lemma_dotted_chars(q);
                lemma_ascii_encode(dotted_bytes(q));
                lemma_ascii_encode(dotted_bytes(v));
                lemma_dotted_injective(q, v);
            }
        }
        Ok(p)
    }
}

impl BuildMetadata {
    /// Parses build metadata such as `build.5`; the empty text is empty
    /// build metadata. The text is accepted exactly when it is the text of
    /// well-formed build metadata, and then its bytes are kept.
    pub fn new(text: &str) -> (r: Result<BuildMetadata, Error>)
        ensures
            r matches Ok(b) ==> build_ok(b@) && ascii_chars(b@) == text@,
            forall|q: Seq<u8>| build_ok(q) && #[trigger] ascii_chars(q) == text@ ==> (r matches Ok(b) && b@ == q),
    {
        let input = text.as_bytes();
        let ghost s = input@;
        let ghost target: Option<Seq<u8>> = if exists|q: Seq<u8>| build_ok(q) && #[trigger] ascii_chars(q)
            == text@ {
            Some(choose|q: Seq<u8>| build_ok(q) && #[trigger] ascii_chars(q) == text@)
        } else {
            None
        };
        proof {
            if let Some(q) = target {
                lemma_build_ascii(q);
                lemma_ascii_encode(q);
                assert(s == q);
                if q.len() > 0 {
                    let ids = choose|ids: Seq<Seq<u8>>|
                        ids.len() > 0 && idents_ok(ids) && #[trigger] dotted_bytes(ids) == q;
                    assert(s.subrange(0, s.len() as int) =~= s);
                    assert(dotted_at(s, 0, ids));
                }
            }
        }
        let (ids, end) = identifier(input, 0, Position::Build)?;
        let ghost v = ids@.map_values(|id: Vec<u8>| id@);
        proof {
            if let Some(q) = target {
                if q.len() > 0 {
                    let qids = choose|ids: Seq<Seq<u8>>|
                        ids.len() > 0 && idents_ok(ids) && #[trigger] dotted_bytes(ids) == q;
                    assert(dotted_at(s, 0, qids));
                    if v.len() == 0 {
                        lemma_dotted_first_byte(s, 0, qids);
                        assert(s.subrange(0, end as int).len() == 0);
                    } else {
                        assert(dotted_at(s, 0, v));
                        lemma_dotted_at_unique(s, 0, qids, v);
                    }
                }
            }
        }
        if end != input.len() {
            return Err(Error::IllegalCharacter(Position::Build));
        }
        let bytes = copy_range(input, 0, end);
        proof {
            assert(s.subrange(0, end as int) =~= s);
            assert(bytes@ == dotted_bytes(v));
            if v.len() == 0 {
                assert(bytes@.len() == 0);
            } else {
                assert(v.len() > 0 && idents_ok(v) && dotted_bytes(v) == bytes@);
            }
        }
        let b = BuildMetadata::from_bytes(bytes);
        proof {
            assert(s.subrange(0, end as int) =~= s);
            assert(b@ == dotted_bytes(v));
            if v.len() == 0 {
                assert(b@.len() == 0);
            }
            assert(build_ok(b@));
            lemma_build_ascii(b@);
            lemma_text_of_ascii(text@, b@);
            assert forall|q: Seq<u8>| build_ok(q) && #[trigger] ascii_chars(q) == text@ implies b@ == q by {
                lemma_build_ascii(q);
                lemma_ascii_encode(q);
                lemma_ascii_encode(b@);
            }
        }
        Ok(b)
    }
}

/// The numbers `major.minor.patch` at the start of the input.
fn version_core(input: &[u8]) -> (r: Result<(u64, u64, u64, usize), Error>)
    ensures
        r matches Ok((major, minor, patch, end)) ==> end == core_bytes(major, minor, patch).len()
            && core_at(input@, major, minor, patch),
        (exists|a: u64, b: u64, c: u64| #[trigger] core_at(input@, a, b, c)) ==> r is Ok,
{
    let ghost target: Option<(u64, u64, u64)> = if exists|a: u64, b: u64, c: u64| #[trigger]
        core_at(input@, a, b, c) {
        Some(choose|a: u64, b: u64, c: u64| #[trigger] core_at(input@, a, b, c))
    } else {
        None
    };
    proof {
        if let Some((a, b, c)) = target {
            lemma_core_at_parts(input@, a, b, c);
        }
    }
    let (major, text) = numeric_identifier(input, 0, Position::Major)?;
    proof {
        if let Some((a, b, c)) = target {
            lemma_decimal_at_unique(input@, 0, major as nat, a as nat);
        }
    }
    let text = dot(input, text, Position::Major)?;
    let (minor, text) = numeric_identifier(input, text, Position::Minor)?;
    proof {
        if let Some((a, b, c)) = target {
            lemma_decimal_at_unique(input@, text - decimal_bytes(minor as nat).len(), minor as nat, b as nat);
        }
    }
    let text = dot(input, text, Position::Minor)?;
    let (patch, text) = numeric_identifier(input, text, Position::Patch)?;
    proof {
        lemma_core_at_of_parts(input@, major, minor, patch);
    }
    Ok((major, minor, patch, text))
}

/// The pre-release after the `-` at position `at`.
fn pre_part(input: &[u8], at: usize) -> (r: Result<(Prerelease, usize), Error>)
    requires
        at < input@.len(),
    ensures
        r matches Ok((pre, end)) ==> {
            &&& valid_pre(pre@)
            &&& dotted_at(input@, at + 1, pre@)
            &&& end == at + 1 + dotted_bytes(pre@).len()
            &&& forall|q: Seq<Seq<u8>>| #[trigger] dotted_at(input@, at + 1, q) ==> q == pre@
        },
        (exists|q: Seq<Seq<u8>>| #[trigger] dotted_at(input@, at + 1, q) && valid_pre(q)) ==> r is Ok,
{
    let n = input.len();
    let start = at + 1;
    proof {
        if exists|q: Seq<Seq<u8>>| #[trigger] dotted_at(input@, at + 1, q) && valid_pre(q) {
            let q = choose|q: Seq<Seq<u8>>| #[trigger] dotted_at(input@, at + 1, q) && valid_pre(q);
            assert(dotted_at(input@, start as int, q) && (Position::Pre == Position::Pre ==> valid_pre(q)));
        }
    }
    let (ids, end) = identifier(input, start, Position::Pre)?;
    if ids.len() == 0 {
        proof {
            if exists|q: Seq<Seq<u8>>| #[trigger] dotted_at(input@, at + 1, q) && valid_pre(q) {
                let q = choose|q: Seq<Seq<u8>>| #[trigger] dotted_at(input@, at + 1, q) && valid_pre(q);
                lemma_dotted_first_byte(input@, at + 1, q);
                assert(ids@.map_values(|id: Vec<u8>| id@) =~= Seq::<Seq<u8>>::empty());
                assert(input@.subrange(start as int, end as int).len() == 0);
            }
        }
        return Err(Error::EmptySegment(Position::Pre));
    }
    let pre = Prerelease::from_idents(ids);
    proof {
        assert(dotted_at(input@, at + 1, pre@));
        assert forall|q: Seq<Seq<u8>>| #[trigger] dotted_at(input@, at + 1, q) implies q == pre@ by {
            lemma_dotted_at_unique(input@, at + 1, q, pre@);
        }
    }
    Ok((pre, end))
}

/// The build metadata after the `+` at position `at`.
fn build_part(input: &[u8], at: usize) -> (r: Result<(BuildMetadata, usize), Error>)
    requires
        at < input@.len(),
    ensures
        r matches Ok((build, end)) ==> {
            &&& build@.len() > 0
            &&& build_ok(build@)
            &&& end == at + 1 + build@.len()
            &&& end <= input@.len()
            &&& input@.subrange(at + 1, end as int) == build@
            &&& forall|q: Seq<Seq<u8>>| #[trigger] dotted_at(input@, at + 1, q) ==> dotted_bytes(q) == build@
        },
        (exists|q: Seq<Seq<u8>>| #[trigger] dotted_at(input@, at + 1, q)) ==> r is Ok,
{
    let n = input.len();
    let start = at + 1;
    proof {
        if exists|q: Seq<Seq<u8>>| #[trigger] dotted_at(input@, at + 1, q) {
            let q = choose|q: Seq<Seq<u8>>| #[trigger] dotted_at(input@, at + 1, q);
            assert(dotted_at(input@, start as int, q) && (Position::Build == Position::Pre ==> valid_pre(q)));
        }
    }
    let (ids, end) = identifier(input, start, Position::Build)?;
    if ids.len() == 0 {
        proof {
            if exists|q: Seq<Seq<u8>>| #[trigger] dotted_at(input@, at + 1, q) {
                let q = choose|q: Seq<Seq<u8>>| #[trigger] dotted_at(input@, at + 1, q);
                lemma_dotted_first_byte(input@, at + 1, q);
                assert(ids@.map_values(|id: Vec<u8>| id@) =~= Seq::<Seq<u8>>::empty());
                assert(input@.subrange(start as int, end as int).len() == 0);
            }
        }
        return Err(Error::EmptySegment(Position::Build));
    }
    let bytes = copy_range(input, at + 1, end);
    proof {
        let v = ids@.map_values(|id: Vec<u8>| id@);
        assert(v.len() > 0 && idents_ok(v) && dotted_bytes(v) == bytes@);
    }
    let build = BuildMetadata::from_bytes(bytes);
    proof {
        let v = ids@.map_values(|id: Vec<u8>| id@);
        assert(dotted_at(input@, at + 1, v));
        assert(dotted_bytes(v) == build@);
        assert(build_ok(build@));
        lemma_dotted_bytes_kind(v);
        assert forall|q: Seq<Seq<u8>>| #[trigger] dotted_at(input@, at + 1, q) implies dotted_bytes(q)
            == build@ by {
            lemma_dotted_at_unique(input@, at + 1, q, v);
        }
    }
    Ok((build, end))
}

impl Version {
    /// Parses a version such as `1.2.3-alpha.1+build.5`. The text is
    /// accepted exactly when it is the text of a well-formed version, and
    /// then that version is returned.
    pub fn parse(text: &str) -> (r: Result<Version, Error>)
        ensures
            r matches Ok(v) ==> v.wf() && build_ok(v.build@) && version_text(v) == text@,
            forall|w: Version|
                w.wf() && build_ok(w.build@) && #[trigger] version_text(w) == text@ ==> (r matches Ok(v)
                    && same_version(v, w)),
    {
        let input = text.as_bytes();
        let ghost s = input@;
        let ghost target: Option<Version> = if exists|w: Version|
            w.wf() && build_ok(w.build@) && #[trigger] version_text(w) == text@ {
            Some(choose|w: Version| w.wf() && build_ok(w.build@) && #[trigger] version_text(w) == text@)
        } else {
            None
        };
        proof {
            if let Some(w) = target {
                lemma_valid_idents_ok(w.pre@);
                lemma_version_chars(w);
                lemma_ascii_encode(version_bytes(w));
                assert(s == version_bytes(w));
                lemma_version_layout(w);
                lemma_decimal_bytes(w.major as nat);
            }
        }
        if input.len() == 0 {
            return Err(Error::Empty);
        }
        let (major, minor, patch, lc) = version_core(input)?;
        proof {
            if let Some(w) = target {
                lemma_core_at_unique(s, major, minor, patch, w.major, w.minor, w.patch);
            }
        }
        if lc == input.len() {
            let v = Version::new(major, minor, patch);
            proof {
                assert(v.pre@ =~= Seq::<Seq<u8>>::empty());
                assert(v.build@ =~= Seq::<u8>::empty());
                lemma_version_bytes_of_parts(s, v);
                lemma_version_text_of_bytes(v, text@);
                lemma_version_parse_unique(v, text@);
            }
            return Ok(v);
        }
        let mut pos = Position::Patch;
        let (pre, lp) = if input[lc] == 45u8 {
            pos = Position::Pre;
            pre_part(input, lc)?
        } else {
            (Prerelease::empty(), lc)
        };
        proof {
            if let Some(w) = target {
                assert(w.pre@ == pre@ && pre_end(w) == lp) by {
                    if input[lc as int] != 45u8 {
                        assert(pre@ =~= Seq::<Seq<u8>>::empty());
                    }
                }
            }
        }
        let (build, end) = if lp < input.len() && input[lp] == 43u8 {
            pos = Position::Build;
            build_part(input, lp)?
        } else {
            (BuildMetadata::empty(), lp)
        };
        proof {
            if let Some(w) = target {
                assert(w.build@ == build@) by {
                    if !(lp < input.len() && input[lp as int] == 43u8) {
                        assert(build@ =~= Seq::<u8>::empty());
                    } else if w.build@.len() > 0 {
                        let ids = choose|ids: Seq<Seq<u8>>| #[trigger]
                            dotted_at(s, pre_end(w) + 1, ids) && dotted_bytes(ids) == w.build@;
                        assert(dotted_at(s, lp + 1, ids));
                    }
                }
            }
        }
        if end < input.len() {
            return Err(Error::UnexpectedCharAfter(pos, char_at(input, end)));
        }
        let v = Version { major, minor, patch, pre, build };
        proof {
            lemma_version_bytes_of_parts(s, v);
            lemma_valid_idents_ok(v.pre@);
            lemma_version_text_of_bytes(v, text@);
            lemma_version_parse_unique(v, text@);
        }
        Ok(v)
    }
}

} // verus!
