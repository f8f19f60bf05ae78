//! The byte-level grammar of version texts: decimal numbers without
//! leading zeros, dot-separated identifiers, and whole versions, with the
//! facts that tie each form to the value it denotes.
use crate::prerelease::{is_digit, is_ident_byte, valid_ident, valid_pre};
use crate::text::{ascii_chars, comparator_text, comparators_text, decimal, digit_char, dotted, op_text, req_text, version_text};
use crate::version::{same_comparator, same_version, Comparator, Op, Version, VersionReq};
use vstd::prelude::*;
use vstd::utf8::{encode_utf8, encode_utf8_decode_utf8, is_ascii_chars, is_ascii_chars_encode_utf8};

verus! {

/// The decimal digits of a number, without leading zeros, as ASCII bytes.
pub open spec fn decimal_bytes(n: nat) -> Seq<u8>
    decreases n,
{
    if n < 10 {
        seq![(48 + n) as u8]
    } else {
        decimal_bytes(n / 10).push((48 + n % 10) as u8)
    }
}

/// The number that a sequence of ASCII digits denotes.
pub open spec fn digit_value(s: Seq<u8>) -> nat
    decreases s.len(),
{
    if s.len() == 0 {
        0
    } else {
        digit_value(s.drop_last()) * 10 + (s.last() - 48) as nat
    }
}

/// Every byte is an ASCII digit.
pub open spec fn all_digits(s: Seq<u8>) -> bool {
    forall|k: int| 0 <= k < s.len() ==> is_digit(#[trigger] s[k])
}

/// A non-empty run of digits without a leading zero.
pub open spec fn canonical_digits(s: Seq<u8>) -> bool {
    &&& s.len() > 0
    &&& all_digits(s)
    &&& (s.len() > 1 ==> s[0] != 48)
}

proof fn lemma_div_mod_10(n: nat)
    ensures
        n == (n / 10) * 10 + n % 10,
        n % 10 < 10,
        n >= 10 ==> n / 10 >= 1,
        n / 10 < n || n == 0,
{
    assert(n == (n / 10) * 10 + n % 10) by (nonlinear_arith);
    assert(n % 10 < 10) by (nonlinear_arith);
    assert(n >= 10 ==> n / 10 >= 1) by (nonlinear_arith);
    assert(n / 10 < n || n == 0) by (nonlinear_arith);
}

proof fn lemma_div_of_step(v: nat, d: nat)
    requires
        d < 10,
    ensures
        (v * 10 + d) / 10 == v,
        (v * 10 + d) % 10 == d,
{
    assert((v * 10 + d) / 10 == v) by (nonlinear_arith)
        requires
            d < 10,
    ;
    assert((v * 10 + d) % 10 == d) by (nonlinear_arith)
        requires
            d < 10,
    ;
}

/// The decimal digits of `n` are canonical and denote `n`; the first digit
/// is `0` only for `n == 0`.
pub proof fn lemma_decimal_bytes(n: nat)
    ensures
        canonical_digits(decimal_bytes(n)),
        digit_value(decimal_bytes(n)) == n,
        (decimal_bytes(n)[0] == 48) == (n == 0),
    decreases n,
{
    lemma_div_mod_10(n);
    if n < 10 {
        assert(decimal_bytes(n).drop_last() =~= Seq::<u8>::empty());
        assert(digit_value(Seq::<u8>::empty()) == 0);
    } else {
        lemma_decimal_bytes(n / 10);
        let s = decimal_bytes(n);
        let t = decimal_bytes(n / 10);
        assert(s.drop_last() =~= t);
        assert(s.last() == (48 + n % 10) as u8);
        assert(digit_value(s) == digit_value(t) * 10 + n % 10);
        assert(s[0] == t[0]);
        assert forall|k: int| 0 <= k < s.len() implies is_digit(#[trigger] s[k]) by {
            if k < t.len() {
                assert(s[k] == t[k]);
            }
        }
    }
}

/// A prefix of a digit run denotes at most what the run denotes.
pub proof fn lemma_digit_value_prefix(s: Seq<u8>, k: int)
    requires
        all_digits(s),
        0 <= k <= s.len(),
    ensures
        digit_value(s.take(k)) <= digit_value(s),
    decreases s.len() - k,
{
    if k < s.len() {
        lemma_digit_value_prefix(s, k + 1);
        assert(s.take(k + 1).drop_last() =~= s.take(k));
        assert(is_digit(s[k]));
    } else {
        assert(s.take(k) =~= s);
    }
}

/// A digit run whose first digit is not `0` denotes at least 1.
pub proof fn lemma_digit_value_positive(s: Seq<u8>)
    requires
        all_digits(s),
        s.len() > 0,
        s[0] != 48,
    ensures
        digit_value(s) >= 1,
    decreases s.len(),
{
    if s.len() > 1 {
        let t = s.drop_last();
        assert(t[0] == s[0]);
        assert(all_digits(t)) by {
            assert forall|k: int| 0 <= k < t.len() implies is_digit(#[trigger] t[k]) by {
                assert(t[k] == s[k]);
            }
        }
        lemma_digit_value_positive(t);
    }
}

/// A canonical digit run is the decimal form of the number it denotes.
pub proof fn lemma_canonical_digits(s: Seq<u8>)
    requires
        canonical_digits(s),
    ensures
        decimal_bytes(digit_value(s)) == s,
    decreases s.len(),
{
    let v = digit_value(s);
    if s.len() == 1 {
        assert(s.drop_last() =~= Seq::<u8>::empty());
        assert(digit_value(Seq::<u8>::empty()) == 0);
        assert(is_digit(s[0]));
        assert(v == (s[0] - 48) as nat);
        assert(v < 10);
        assert(decimal_bytes(v) == seq![(48 + v) as u8]);
        assert(decimal_bytes(v) =~= s);
    } else {
        let t = s.drop_last();
        assert(t[0] == s[0]);
        assert(all_digits(t)) by {
            assert forall|k: int| 0 <= k < t.len() implies is_digit(#[trigger] t[k]) by {
                assert(t[k] == s[k]);
            }
        }
        lemma_digit_value_positive(t);
        lemma_canonical_digits(t);
        let d = (s.last() - 48) as nat;
        assert(is_digit(s[s.len() - 1]));
        lemma_div_of_step(digit_value(t), d);
        assert(v >= 10);
        assert(decimal_bytes(v) =~= t.push(s.last()));
        assert(t.push(s.last()) =~= s);
    }
}

/// The decimal form of `n` starts at `i` and no digit follows it.
pub open spec fn decimal_at(input: Seq<u8>, i: int, n: nat) -> bool {
    let d = decimal_bytes(n);
    &&& 0 <= i
    &&& i + d.len() <= input.len()
    &&& input.subrange(i, i + d.len()) == d
    &&& (i + d.len() == input.len() || !is_digit(input[i + d.len()]))
}

/// At most one number has its decimal form at a given position.
pub proof fn lemma_decimal_at_unique(input: Seq<u8>, i: int, a: nat, b: nat)
    requires
        decimal_at(input, i, a),
        decimal_at(input, i, b),
    ensures
        a == b,
{
    let da = decimal_bytes(a);
    let db = decimal_bytes(b);
    lemma_decimal_bytes(a);
    lemma_decimal_bytes(b);
    if da.len() < db.len() {
        assert(input[i + da.len()] == db[da.len() as int]);
        assert(is_digit(db[da.len() as int]));
    } else if db.len() < da.len() {
        assert(input[i + db.len()] == da[db.len() as int]);
        assert(is_digit(da[db.len() as int]));
    }
    assert(da =~= db);
}

/// Identifiers joined by dots, as bytes.
pub open spec fn dotted_bytes(p: Seq<Seq<u8>>) -> Seq<u8>
    decreases p.len(),
{
    if p.len() == 0 {
        Seq::empty()
    } else if p.len() == 1 {
        p[0]
    } else {
        dotted_bytes(p.drop_last()).push(46u8) + p.last()
    }
}

/// Every identifier is non-empty and made of identifier bytes.
pub open spec fn idents_ok(ids: Seq<Seq<u8>>) -> bool {
    forall|i: int|
        0 <= i < ids.len() ==> (#[trigger] ids[i]).len() > 0 && forall|j: int|
            0 <= j < ids[i].len() ==> is_ident_byte(#[trigger] ids[i][j])
}

/// A position where a run of identifiers ends: the end of the input, or a
/// byte that is neither an identifier byte nor a dot.
pub open spec fn stops_at(input: Seq<u8>, k: int) -> bool {
    k == input.len() || !(is_ident_byte(input[k]) || input[k] == 46)
}

/// Appending one more identifier to a list appends a dot and the
/// identifier to its dotted form.
pub proof fn lemma_dotted_extend(p: Seq<Seq<u8>>, k: int)
    requires
        0 <= k < p.len(),
    ensures
        k == 0 ==> dotted_bytes(p.take(k + 1)) == p[0],
        k > 0 ==> dotted_bytes(p.take(k + 1)) == dotted_bytes(p.take(k)).push(46u8) + p[k],
{
    assert(p.take(k + 1).drop_last() =~= p.take(k));
    assert(p.take(k + 1).last() == p[k]);
    if k == 0 {
        assert(p.take(1).len() == 1);
    }
}

/// The dotted form of a shorter prefix of the list starts the dotted form
/// of a longer one, followed there by a dot.
pub proof fn lemma_dotted_prefix(p: Seq<Seq<u8>>, k: int, m: int)
    requires
        0 <= k <= m <= p.len(),
    ensures
        dotted_bytes(p.take(k)).len() <= dotted_bytes(p.take(m)).len(),
        dotted_bytes(p.take(m)).take(dotted_bytes(p.take(k)).len() as int) == dotted_bytes(p.take(k)),
        0 < k < m ==> dotted_bytes(p.take(k)).len() < dotted_bytes(p.take(m)).len()
            && dotted_bytes(p.take(m))[dotted_bytes(p.take(k)).len() as int] == 46u8,
    decreases m - k,
{
    let dk = dotted_bytes(p.take(k));
    if k == m {
        assert(dotted_bytes(p.take(m)).take(dk.len() as int) =~= dk);
    } else {
        lemma_dotted_prefix(p, k, m - 1);
        lemma_dotted_extend(p, m - 1);
        let dm1 = dotted_bytes(p.take(m - 1));
        let dm = dotted_bytes(p.take(m));
        if m - 1 == 0 {
            assert(k == 0);
            assert(p.take(0) =~= Seq::<Seq<u8>>::empty());
            assert(dm.take(0) =~= Seq::<u8>::empty());
        } else {
            assert(dm =~= dm1.push(46u8) + p[m - 1]);
            assert(dm.take(dk.len() as int) =~= dm1.take(dk.len() as int));
            if 0 < k && k < m - 1 {
                assert(dm[dk.len() as int] == dm1[dk.len() as int]);
            }
            if k == m - 1 {
                assert(dk =~= dm1);
                assert(dm[dm1.len() as int] == 46u8);
            }
        }
    }
}

/// Every byte of the dotted form of well-formed identifiers is an
/// identifier byte or a dot.
pub proof fn lemma_dotted_bytes_kind(p: Seq<Seq<u8>>)
    requires
        idents_ok(p),
    ensures
        forall|k: int|
            0 <= k < dotted_bytes(p).len() ==> is_ident_byte(#[trigger] dotted_bytes(p)[k])
                || dotted_bytes(p)[k] == 46,
        p.len() > 0 ==> dotted_bytes(p).len() > 0,
    decreases p.len(),
{
    if p.len() == 1 {
        assert(p[0].len() > 0);
        assert forall|k: int| 0 <= k < dotted_bytes(p).len() implies is_ident_byte(
            #[trigger] dotted_bytes(p)[k],
        ) || dotted_bytes(p)[k] == 46 by {
            assert(is_ident_byte(p[0][k]));
        }
    } else if p.len() > 1 {
        let q = p.drop_last();
        assert(idents_ok(q)) by {
            assert forall|i: int| 0 <= i < q.len() implies (#[trigger] q[i]).len() > 0 && forall|j: int|
                0 <= j < q[i].len() ==> is_ident_byte(#[trigger] q[i][j]) by {
                assert(q[i] == p[i]);
            }
        }
        lemma_dotted_bytes_kind(q);
        let d = dotted_bytes(p);
        let dq = dotted_bytes(q);
        assert(d =~= dq.push(46u8) + p.last());
        assert forall|k: int| 0 <= k < d.len() implies is_ident_byte(#[trigger] d[k]) || d[k] == 46 by {
            if k < dq.len() {
                assert(d[k] == dq[k]);
            } else if k > dq.len() {
                assert(d[k] == p.last()[k - dq.len() - 1]);
                assert(is_ident_byte(p[p.len() - 1][k - dq.len() - 1]));
            }
        }
    }
}

/// The dotted form determines the list of well-formed identifiers.
pub proof fn lemma_dotted_injective(a: Seq<Seq<u8>>, b: Seq<Seq<u8>>)
    requires
        idents_ok(a),
        idents_ok(b),
        dotted_bytes(a) == dotted_bytes(b),
    ensures
        a == b,
    decreases a.len() + b.len(),
{
    let s = dotted_bytes(a);
    if a.len() == 0 || b.len() == 0 {
        if a.len() > 0 {
            lemma_dotted_bytes_kind(a);
        }
        if b.len() > 0 {
            lemma_dotted_bytes_kind(b);
        }
        assert(a =~= b);
    } else if a.len() == 1 && b.len() == 1 {
        assert(a =~= b);
    } else if a.len() == 1 || b.len() == 1 {
        // One form has a dot, the other has none.
        let (one, many) = if a.len() == 1 {
            (a, b)
        } else {
            (b, a)
        };
        let q = many.drop_last();
        let dq = dotted_bytes(q);
        assert(dotted_bytes(many) =~= dq.push(46u8) + many.last());
        assert(dotted_bytes(many)[dq.len() as int] == 46u8);
        assert(one[0][dq.len() as int] == 46u8);
        assert(is_ident_byte(one[0][dq.len() as int]));
    } else {
        let qa = a.drop_last();
        let qb = b.drop_last();
        let da = dotted_bytes(qa);
        let db = dotted_bytes(qb);
        let la = a.last();
        let lb = b.last();
        assert(s =~= da.push(46u8) + la);
        assert(s =~= db.push(46u8) + lb);
        assert(idents_ok(qa)) by {
            assert forall|i: int| 0 <= i < qa.len() implies (#[trigger] qa[i]).len() > 0 && forall|j: int|
                0 <= j < qa[i].len() ==> is_ident_byte(#[trigger] qa[i][j]) by {
                assert(qa[i] == a[i]);
            }
        }
        assert(idents_ok(qb)) by {
            assert forall|i: int| 0 <= i < qb.len() implies (#[trigger] qb[i]).len() > 0 && forall|j: int|
                0 <= j < qb[i].len() ==> is_ident_byte(#[trigger] qb[i][j]) by {
                assert(qb[i] == b[i]);
            }
        }
        if la.len() < lb.len() {
            let k = s.len() - la.len() - 1;
            assert(s[k] == 46u8);
            assert(s[k] == lb[k - db.len() - 1]);
            assert(is_ident_byte(b[b.len() - 1][k - db.len() - 1]));
        } else if lb.len() < la.len() {
            let k = s.len() - lb.len() - 1;
            assert(s[k] == 46u8);
            assert(s[k] == la[k - da.len() - 1]);
            assert(is_ident_byte(a[a.len() - 1][k - da.len() - 1]));
        }
        assert(la =~= lb) by {
            assert forall|j: int| 0 <= j < la.len() implies la[j] == lb[j] by {
                assert(s[da.len() + 1 + j] == la[j]);
                assert(s[db.len() + 1 + j] == lb[j]);
            }
        }
        assert(da =~= db) by {
            assert forall|j: int| 0 <= j < da.len() implies da[j] == db[j] by {
                assert(s[j] == da[j]);
                assert(s[j] == db[j]);
            }
        }
        lemma_dotted_injective(qa, qb);
        assert(a =~= qa.push(la));
        assert(b =~= qb.push(lb));
    }
}

/// A non-empty list of well-formed identifiers has its dotted form at `i`,
/// and the run of identifiers ends right after it.
pub open spec fn dotted_at(input: Seq<u8>, i: int, p: Seq<Seq<u8>>) -> bool {
    let d = dotted_bytes(p);
    &&& p.len() > 0
    &&& idents_ok(p)
    &&& 0 <= i
    &&& i + d.len() <= input.len()
    &&& input.subrange(i, i + d.len()) == d
    &&& stops_at(input, i + d.len())
}

/// At most one list of identifiers has its dotted form at a position.
pub proof fn lemma_dotted_at_unique(input: Seq<u8>, i: int, a: Seq<Seq<u8>>, b: Seq<Seq<u8>>)
    requires
        dotted_at(input, i, a),
        dotted_at(input, i, b),
    ensures
        a == b,
{
    let da = dotted_bytes(a);
    let db = dotted_bytes(b);
    lemma_dotted_bytes_kind(a);
    lemma_dotted_bytes_kind(b);
    if da.len() < db.len() {
        assert(input[i + da.len()] == db[da.len() as int]);
    } else if db.len() < da.len() {
        assert(input[i + db.len()] == da[db.len() as int]);
    }
    assert(da =~= db);
    lemma_dotted_injective(a, b);
}

/// Build metadata as the parser accepts it: empty, or the dotted form of
/// non-empty identifiers.
pub open spec fn build_ok(b: Seq<u8>) -> bool {
    b.len() == 0 || exists|ids: Seq<Seq<u8>>|
        ids.len() > 0 && idents_ok(ids) && #[trigger] dotted_bytes(ids) == b
}

/// The bytes of `major.minor.patch`.
pub open spec fn core_bytes(major: u64, minor: u64, patch: u64) -> Seq<u8> {
    decimal_bytes(major as nat).push(46u8) + decimal_bytes(minor as nat).push(46u8) + decimal_bytes(
        patch as nat,
    )
}

/// The bytes of a version, `major.minor.patch[-pre][+build]`.
pub open spec fn version_bytes(v: Version) -> Seq<u8> {
    let core = core_bytes(v.major, v.minor, v.patch);
    let with_pre = if v.pre@.len() > 0 {
        core.push(45u8) + dotted_bytes(v.pre@)
    } else {
        core
    };
    if v.build@.len() > 0 {
        with_pre.push(43u8) + v.build@
    } else {
        with_pre
    }
}

/// Every byte is below 128.
pub open spec fn ascii_bytes(b: Seq<u8>) -> bool {
    forall|k: int| 0 <= k < b.len() ==> #[trigger] b[k] < 128
}

/// Reading bytes as characters commutes with appending.
proof fn lemma_ascii_chars_add(a: Seq<u8>, b: Seq<u8>)
    ensures
        ascii_chars(a + b) == ascii_chars(a) + ascii_chars(b),
        ascii_chars(a.push(b[0])) == ascii_chars(a).push(b[0] as char) || b.len() == 0,
{
    assert(ascii_chars(a + b) =~= ascii_chars(a) + ascii_chars(b));
    if b.len() > 0 {
        assert(ascii_chars(a.push(b[0])) =~= ascii_chars(a).push(b[0] as char));
    }
}

proof fn lemma_ascii_chars_push(a: Seq<u8>, x: u8)
    ensures
        ascii_chars(a.push(x)) == ascii_chars(a).push(x as char),
{
    assert(ascii_chars(a.push(x)) =~= ascii_chars(a).push(x as char));
}

/// The decimal text of a number is its decimal bytes read as characters.
pub proof fn lemma_decimal_chars(n: nat)
    ensures
        decimal(n) == ascii_chars(decimal_bytes(n)),
        ascii_bytes(decimal_bytes(n)),
    decreases n,
{
    lemma_decimal_bytes(n);
    if n < 10 {
        assert(ascii_chars(decimal_bytes(n)) =~= seq![digit_char(n)]);
    } else {
        lemma_decimal_chars(n / 10);
        lemma_ascii_chars_push(decimal_bytes(n / 10), (48 + n % 10) as u8);
        assert(((48 + n % 10) as u8) as char == digit_char(n % 10));
    }
    assert forall|k: int| 0 <= k < decimal_bytes(n).len() implies #[trigger] decimal_bytes(n)[k] < 128 by {
        assert(is_digit(decimal_bytes(n)[k]));
    }
}

/// The dotted text of identifiers is their dotted bytes read as
/// characters.
pub proof fn lemma_dotted_chars(p: Seq<Seq<u8>>)
    requires
        idents_ok(p),
    ensures
        dotted(p) == ascii_chars(dotted_bytes(p)),
        ascii_bytes(dotted_bytes(p)),
    decreases p.len(),
{
    lemma_dotted_bytes_kind(p);
    if p.len() > 1 {
        let q = p.drop_last();
        assert(idents_ok(q)) by {
            assert forall|i: int| 0 <= i < q.len() implies (#[trigger] q[i]).len() > 0 && forall|j: int|
                0 <= j < q[i].len() ==> is_ident_byte(#[trigger] q[i][j]) by {
                assert(q[i] == p[i]);
            }
        }
        lemma_dotted_chars(q);
        lemma_ascii_chars_push(dotted_bytes(q), 46u8);
        lemma_ascii_chars_add(dotted_bytes(q).push(46u8), p.last());
    }
    assert forall|k: int| 0 <= k < dotted_bytes(p).len() implies #[trigger] dotted_bytes(p)[k] < 128 by {
        assert(is_ident_byte(dotted_bytes(p)[k]) || dotted_bytes(p)[k] == 46);
    }
}

/// The bytes of build metadata as the parser accepts it are ASCII.
pub proof fn lemma_build_ascii(b: Seq<u8>)
    requires
        build_ok(b),
    ensures
        ascii_bytes(b),
{
    if b.len() > 0 {
        let ids = choose|ids: Seq<Seq<u8>>|
            ids.len() > 0 && idents_ok(ids) && #[trigger] dotted_bytes(ids) == b;
        lemma_dotted_bytes_kind(ids);
        assert forall|k: int| 0 <= k < b.len() implies #[trigger] b[k] < 128 by {
            assert(is_ident_byte(b[k]) || b[k] == 46);
        }
    }
}

/// Appending ASCII byte sequences keeps them ASCII.
proof fn lemma_ascii_bytes_add(a: Seq<u8>, b: Seq<u8>)
    requires
        ascii_bytes(a),
        ascii_bytes(b),
    ensures
        ascii_bytes(a + b),
{
    assert forall|k: int| 0 <= k < (a + b).len() implies #[trigger] (a + b)[k] < 128 by {
        if k < a.len() {
            assert((a + b)[k] == a[k]);
        } else {
            assert((a + b)[k] == b[k - a.len()]);
        }
    }
}

/// The text of a version is its bytes read as characters, and those bytes
/// are ASCII.
pub proof fn lemma_version_chars(v: Version)
    requires
        idents_ok(v.pre@),
        build_ok(v.build@),
    ensures
        version_text(v) == ascii_chars(version_bytes(v)),
        ascii_bytes(version_bytes(v)),
{
    lemma_decimal_chars(v.major as nat);
    lemma_decimal_chars(v.minor as nat);
    lemma_decimal_chars(v.patch as nat);
    lemma_dotted_chars(v.pre@);
    lemma_build_ascii(v.build@);
    let dm = decimal_bytes(v.major as nat);
    let dn = decimal_bytes(v.minor as nat);
    let dp = decimal_bytes(v.patch as nat);
    lemma_ascii_chars_push(dm, 46u8);
    lemma_ascii_chars_push(dn, 46u8);
    lemma_ascii_chars_add(dm.push(46u8), dn.push(46u8));
    lemma_ascii_chars_add(dm.push(46u8) + dn.push(46u8), dp);
    let core = core_bytes(v.major, v.minor, v.patch);
    lemma_ascii_chars_push(core, 45u8);
    lemma_ascii_chars_add(core.push(45u8), dotted_bytes(v.pre@));
    let with_pre = if v.pre@.len() > 0 {
        core.push(45u8) + dotted_bytes(v.pre@)
    } else {
        core
    };
    lemma_ascii_chars_push(with_pre, 43u8);
    lemma_ascii_chars_add(with_pre.push(43u8), v.build@);
    assert(ascii_chars(v.build@) =~= v.build@.map_values(|x: u8| x as char));
    assert(ascii_bytes(seq![46u8]));
    assert(ascii_bytes(seq![45u8]));
    assert(ascii_bytes(seq![43u8]));
    assert(dm.push(46u8) =~= dm + seq![46u8]);
    assert(dn.push(46u8) =~= dn + seq![46u8]);
    assert(core.push(45u8) =~= core + seq![45u8]);
    assert(with_pre.push(43u8) =~= with_pre + seq![43u8]);
    lemma_ascii_bytes_add(dm, seq![46u8]);
    lemma_ascii_bytes_add(dn, seq![46u8]);
    lemma_ascii_bytes_add(dm.push(46u8), dn.push(46u8));
    lemma_ascii_bytes_add(dm.push(46u8) + dn.push(46u8), dp);
    lemma_ascii_bytes_add(core, seq![45u8]);
    lemma_ascii_bytes_add(core.push(45u8), dotted_bytes(v.pre@));
    lemma_ascii_bytes_add(with_pre, seq![43u8]);
    lemma_ascii_bytes_add(with_pre.push(43u8), v.build@);
}

/// ASCII bytes read as characters encode back to the same bytes.
pub proof fn lemma_ascii_encode(b: Seq<u8>)
    requires
        ascii_bytes(b),
    ensures
        encode_utf8(ascii_chars(b)) == b,
{
    let c = ascii_chars(b);
    assert(is_ascii_chars(c)) by {
        assert forall|i: int| 0 <= i < c.len() implies '\0' <= #[trigger] c[i] <= '\u{7f}' by {
            assert(b[i] < 128);
        }
    }
    is_ascii_chars_encode_utf8(c);
    assert(encode_utf8(c) =~= b);
}

/// `major.minor.patch` starts the input, and no digit follows it.
pub open spec fn core_at(input: Seq<u8>, major: u64, minor: u64, patch: u64) -> bool {
    let c = core_bytes(major, minor, patch);
    &&& c.len() <= input.len()
    &&& input.subrange(0, c.len() as int) == c
    &&& (c.len() == input.len() || !is_digit(input[c.len() as int]))
}

/// The length of the bytes of `major.minor.patch` of a version.
pub open spec fn core_len(v: Version) -> int {
    core_bytes(v.major, v.minor, v.patch).len() as int
}

/// Where the pre-release part of a version's bytes ends.
pub open spec fn pre_end(v: Version) -> int {
    if v.pre@.len() > 0 {
        core_len(v) + 1 + dotted_bytes(v.pre@).len()
    } else {
        core_len(v)
    }
}

/// What `core_at` says of the three numbers, one at a time.
pub proof fn lemma_core_at_parts(input: Seq<u8>, a: u64, b: u64, c: u64)
    requires
        core_at(input, a, b, c),
    ensures
        decimal_at(input, 0, a as nat),
        input[decimal_bytes(a as nat).len() as int] == 46u8,
        decimal_at(input, (decimal_bytes(a as nat).len() + 1) as int, b as nat),
        input[(decimal_bytes(a as nat).len() + 1 + decimal_bytes(b as nat).len()) as int] == 46u8,
        decimal_at(
            input,
            (decimal_bytes(a as nat).len() + 1 + decimal_bytes(b as nat).len() + 1) as int,
            c as nat,
        ),
{
    let da = decimal_bytes(a as nat);
    let db = decimal_bytes(b as nat);
    let dc = decimal_bytes(c as nat);
    let cb = core_bytes(a, b, c);
    let t = input.subrange(0, cb.len() as int);
    let s1 = (da.len() + 1) as int;
    let s2 = (da.len() + 1 + db.len() + 1) as int;
    assert forall|k: int| 0 <= k < cb.len() implies input[k] == cb[k] by {
        assert(t[k] == cb[k]);
    }
    assert(input.subrange(0, da.len() as int) =~= da) by {
        assert forall|k: int| 0 <= k < da.len() implies input.subrange(0, da.len() as int)[k] == da[k] by {
            assert(input[k] == cb[k]);
        }
    }
    assert(input[da.len() as int] == cb[da.len() as int]);
    assert(input.subrange(s1, s1 + db.len()) =~= db) by {
        assert forall|k: int| 0 <= k < db.len() implies input.subrange(s1, s1 + db.len())[k] == db[k] by {
            assert(input[s1 + k] == cb[s1 + k]);
        }
    }
    assert(input[s1 + db.len()] == cb[s1 + db.len()]);
    assert(input.subrange(s2, s2 + dc.len()) =~= dc) by {
        assert forall|k: int| 0 <= k < dc.len() implies input.subrange(s2, s2 + dc.len())[k] == dc[k] by {
            assert(input[s2 + k] == cb[s2 + k]);
        }
    }
}

/// The three numbers, each followed by a dot but the last, start the
/// input: then `major.minor.patch` does.
pub proof fn lemma_core_at_of_parts(input: Seq<u8>, a: u64, b: u64, c: u64)
    requires
        decimal_at(input, 0, a as nat),
        input[decimal_bytes(a as nat).len() as int] == 46u8,
        decimal_at(input, (decimal_bytes(a as nat).len() + 1) as int, b as nat),
        input[(decimal_bytes(a as nat).len() + 1 + decimal_bytes(b as nat).len()) as int] == 46u8,
        decimal_at(
            input,
            (decimal_bytes(a as nat).len() + 1 + decimal_bytes(b as nat).len() + 1) as int,
            c as nat,
        ),
    ensures
        core_at(input, a, b, c),
{
    let da = decimal_bytes(a as nat);
    let db = decimal_bytes(b as nat);
    let dc = decimal_bytes(c as nat);
    let cb = core_bytes(a, b, c);
    let s1 = (da.len() + 1) as int;
    let s2 = (da.len() + 1 + db.len() + 1) as int;
    assert(input.subrange(0, cb.len() as int) =~= cb) by {
        assert forall|k: int| 0 <= k < cb.len() implies input.subrange(0, cb.len() as int)[k] == cb[k] by {
            if k < da.len() {
                assert(input.subrange(0, da.len() as int)[k] == da[k]);
            } else if k == da.len() || k == s2 - 1 {
            } else if k < s2 - 1 {
                assert(input.subrange(s1, s1 + db.len())[k - s1] == db[k - s1]);
            } else {
                assert(input.subrange(s2, s2 + dc.len())[k - s2] == dc[k - s2]);
            }
        }
    }
}

/// At most one triple of numbers starts the input.
pub proof fn lemma_core_at_unique(input: Seq<u8>, a: u64, b: u64, c: u64, x: u64, y: u64, z: u64)
    requires
        core_at(input, a, b, c),
        core_at(input, x, y, z),
    ensures
        a == x && b == y && c == z,
{
    lemma_core_at_parts(input, a, b, c);
    lemma_core_at_parts(input, x, y, z);
    lemma_decimal_at_unique(input, 0, a as nat, x as nat);
    lemma_decimal_at_unique(input, (decimal_bytes(a as nat).len() + 1) as int, b as nat, y as nat);
    lemma_decimal_at_unique(
        input,
        (decimal_bytes(a as nat).len() + 1 + decimal_bytes(b as nat).len() + 1) as int,
        c as nat,
        z as nat,
    );
}

/// Where the parts of a version's bytes lie: the numbers, then the
/// pre-release after a `-`, then the build metadata after a `+`.
pub proof fn lemma_version_layout(v: Version)
    requires
        idents_ok(v.pre@),
        build_ok(v.build@),
    ensures
        core_at(version_bytes(v), v.major, v.minor, v.patch),
        pre_end(v) <= version_bytes(v).len(),
        v.pre@.len() > 0 ==> version_bytes(v)[core_len(v)] == 45u8,
        v.pre@.len() > 0 ==> dotted_at(version_bytes(v), core_len(v) + 1, v.pre@),
        v.pre@.len() == 0 && core_len(v) < version_bytes(v).len() ==> version_bytes(v)[core_len(v)]
            != 45u8,
        v.build@.len() > 0 ==> version_bytes(v)[pre_end(v)] == 43u8,
        v.build@.len() > 0 ==> version_bytes(v).len() == pre_end(v) + 1 + v.build@.len(),
        v.build@.len() > 0 ==> version_bytes(v).subrange(pre_end(v) + 1, version_bytes(v).len() as int)
            == v.build@,
        v.build@.len() > 0 ==> exists|ids: Seq<Seq<u8>>| #[trigger]
            dotted_at(version_bytes(v), pre_end(v) + 1, ids) && dotted_bytes(ids) == v.build@,
        v.build@.len() == 0 ==> version_bytes(v).len() == pre_end(v),
{
    let vb = version_bytes(v);
    let core = core_bytes(v.major, v.minor, v.patch);
    let lc = core.len() as int;
    let d = dotted_bytes(v.pre@);
    lemma_decimal_bytes(v.patch as nat);
    let with_pre = if v.pre@.len() > 0 {
        core.push(45u8) + d
    } else {
        core
    };
    let lp = with_pre.len() as int;
    assert(vb.subrange(0, lc) =~= core);
    assert(with_pre.subrange(0, lc) =~= core);
    if v.pre@.len() > 0 {
        lemma_dotted_bytes_kind(v.pre@);
        assert(with_pre.subrange(lc + 1, lp) =~= d);
        assert(vb.subrange(lc + 1, lc + 1 + d.len()) =~= d);
        assert(vb[lc] == with_pre[lc]);
    }
    if v.build@.len() > 0 {
        let ids = choose|ids: Seq<Seq<u8>>|
            ids.len() > 0 && idents_ok(ids) && #[trigger] dotted_bytes(ids) == v.build@;
        assert(vb.subrange(lp + 1, vb.len() as int) =~= v.build@);
        assert(dotted_at(vb, lp + 1, ids));
        if v.pre@.len() > 0 {
            assert(vb[lp] == 43u8);
        }
    }
    // What follows the numbers is `-`, `+` or the end: no digit.
    assert(lc == vb.len() || vb[lc] == 45u8 || vb[lc] == 43u8);
    // What follows the pre-release is `+` or the end.
    if v.pre@.len() > 0 {
        assert(lp == vb.len() || vb[lp] == 43u8);
    }
}

/// Well-formed pre-release identifiers are well-formed identifiers.
pub proof fn lemma_valid_idents_ok(p: Seq<Seq<u8>>)
    requires
        valid_pre(p),
    ensures
        idents_ok(p),
{
    assert forall|i: int| 0 <= i < p.len() implies (#[trigger] p[i]).len() > 0 && forall|j: int|
        0 <= j < p[i].len() ==> is_ident_byte(#[trigger] p[i][j]) by {
        assert(valid_ident(p[i]));
    }
}

/// A text whose bytes are the bytes of a version is the text of that
/// version.
pub proof fn lemma_version_text_of_bytes(v: Version, text: Seq<char>)
    requires
        idents_ok(v.pre@),
        build_ok(v.build@),
        encode_utf8(text) == version_bytes(v),
    ensures
        version_text(v) == text,
{
    lemma_version_chars(v);
    lemma_ascii_encode(version_bytes(v));
    encode_utf8_decode_utf8(text);
    encode_utf8_decode_utf8(version_text(v));
}

/// Input laid out as the parts of a version is the bytes of that version.
pub proof fn lemma_version_bytes_of_parts(input: Seq<u8>, v: Version)
    requires
        core_at(input, v.major, v.minor, v.patch),
        pre_end(v) <= input.len(),
        v.pre@.len() > 0 ==> input[core_len(v)] == 45u8 && input.subrange(core_len(v) + 1, pre_end(v))
            == dotted_bytes(v.pre@),
        v.build@.len() > 0 ==> input[pre_end(v)] == 43u8 && input.len() == pre_end(v) + 1
            + v.build@.len() && input.subrange(pre_end(v) + 1, input.len() as int) == v.build@,
        v.build@.len() == 0 ==> input.len() == pre_end(v),
    ensures
        input == version_bytes(v),
{
    let core = core_bytes(v.major, v.minor, v.patch);
    let lc = core_len(v);
    let lp = pre_end(v);
    let with_pre = if v.pre@.len() > 0 {
        core.push(45u8) + dotted_bytes(v.pre@)
    } else {
        core
    };
    assert(input.subrange(0, lp) =~= with_pre) by {
        assert forall|k: int| 0 <= k < lp implies input.subrange(0, lp)[k] == with_pre[k] by {
            if k < lc {
                assert(input.subrange(0, lc)[k] == core[k]);
            } else if k > lc {
                assert(input.subrange(lc + 1, lp)[k - lc - 1] == dotted_bytes(v.pre@)[k - lc - 1]);
            }
        }
    }
    assert(input =~= version_bytes(v)) by {
        assert forall|k: int| 0 <= k < input.len() implies input[k] == version_bytes(v)[k] by {
            if k < lp {
                assert(input.subrange(0, lp)[k] == with_pre[k]);
            } else if k > lp {
                assert(input.subrange(lp + 1, input.len() as int)[k - lp - 1] == v.build@[k - lp - 1]);
            }
        }
    }
}

/// The bytes of a version determine it, among versions with well-formed
/// identifiers and build metadata.
pub proof fn lemma_version_bytes_injective(a: Version, b: Version)
    requires
        idents_ok(a.pre@),
        build_ok(a.build@),
        idents_ok(b.pre@),
        build_ok(b.build@),
        version_bytes(a) == version_bytes(b),
    ensures
        same_version(a, b),
{
    let s = version_bytes(a);
    lemma_version_layout(a);
    lemma_version_layout(b);
    lemma_core_at_unique(s, a.major, a.minor, a.patch, b.major, b.minor, b.patch);
    assert(core_len(a) == core_len(b));
    if a.pre@.len() > 0 && b.pre@.len() > 0 {
        lemma_dotted_at_unique(s, core_len(a) + 1, a.pre@, b.pre@);
    }
    assert(a.pre@ =~= b.pre@);
    assert(pre_end(a) == pre_end(b));
    if a.build@.len() > 0 && b.build@.len() > 0 {
        assert(a.build@ =~= b.build@);
    }
    assert(a.build@ =~= b.build@);
}

/// The first byte of a dotted form is an identifier byte, so no run of
/// identifiers ends where one begins.
pub proof fn lemma_dotted_first_byte(input: Seq<u8>, i: int, q: Seq<Seq<u8>>)
    requires
        dotted_at(input, i, q),
    ensures
        i < input.len(),
        is_ident_byte(input[i]),
        !stops_at(input, i),
{
    lemma_dotted_bytes_kind(q);
    let d = dotted_bytes(q);
    if q.len() == 1 {
        assert(d[0] == q[0][0]);
    } else {
        lemma_dotted_prefix(q, 1, q.len() as int);
        lemma_dotted_extend(q, 0);
        assert(q.take(q.len() as int) =~= q);
        assert(d[0] == dotted_bytes(q.take(1))[0]);
        assert(d[0] == q[0][0]);
    }
    assert(is_ident_byte(q[0][0]));
    assert(input.subrange(i, i + d.len())[0] == d[0]);
}

/// A text that is the text of the well-formed version `v` is the text of
/// no other such version.
pub proof fn lemma_version_parse_unique(v: Version, text: Seq<char>)
    requires
        idents_ok(v.pre@),
        build_ok(v.build@),
        version_text(v) == text,
    ensures
        forall|w: Version|
            valid_pre(w.pre@) && build_ok(w.build@) && #[trigger] version_text(w) == text ==> same_version(v, w),
{
    assert forall|w: Version|
        valid_pre(w.pre@) && build_ok(w.build@) && #[trigger] version_text(w) == text implies same_version(v, w) by {
        lemma_valid_idents_ok(w.pre@);
        lemma_version_chars(v);
        lemma_version_chars(w);
        lemma_ascii_encode(version_bytes(v));
        lemma_ascii_encode(version_bytes(w));
        lemma_version_bytes_injective(v, w);
    }
}

/// A text whose encoding is ASCII bytes is those bytes read as
/// characters.
pub proof fn lemma_text_of_ascii(text: Seq<char>, b: Seq<u8>)
    requires
        ascii_bytes(b),
        encode_utf8(text) == b,
    ensures
        text == ascii_chars(b),
{
    lemma_ascii_encode(b);
    encode_utf8_decode_utf8(text);
    encode_utf8_decode_utf8(ascii_chars(b));
}

/// The bytes of an operator as it prefixes a comparator.
pub open spec fn op_bytes(op: Op) -> Seq<u8> {
    match op {
        Op::Exact => seq![61u8],
        Op::Greater => seq![62u8],
        Op::GreaterEq => seq![62u8, 61u8],
        Op::Less => seq![60u8],
        Op::LessEq => seq![60u8, 61u8],
        Op::Tilde => seq![126u8],
        Op::Caret => seq![94u8],
        Op::Wildcard => Seq::empty(),
    }
}

/// The operator's bytes start at `i`, and a digit or a space follows them.
pub open spec fn op_prefix(input: Seq<u8>, i: int, o: Op) -> bool {
    let b = op_bytes(o);
    &&& 0 <= i
    &&& i + b.len() < input.len()
    &&& input.subrange(i, i + b.len()) == b
    &&& (is_digit(input[i + b.len()]) || input[i + b.len()] == 32u8)
}

/// The bytes `.*` that end a wildcard comparator.
pub open spec fn star_bytes() -> Seq<u8> {
    seq![46u8, 42u8]
}

/// The bytes of a comparator, such as `>=1.2.3-alpha`, `^1.2` or `1.*`.
pub open spec fn comparator_bytes(c: Comparator) -> Seq<u8> {
    let head = op_bytes(c.op) + decimal_bytes(c.major as nat);
    match c.minor {
        Some(minor) => {
            let with_minor = head.push(46u8) + decimal_bytes(minor as nat);
            match c.patch {
                Some(patch) => {
                    let with_patch = with_minor.push(46u8) + decimal_bytes(patch as nat);
                    if c.pre@.len() > 0 {
                        with_patch.push(45u8) + dotted_bytes(c.pre@)
                    } else {
                        with_patch
                    }
                },
                None => if c.op == Op::Wildcard {
                    with_minor + star_bytes()
                } else {
                    with_minor
                },
            }
        },
        None => if c.op == Op::Wildcard {
            head + star_bytes()
        } else {
            head
        },
    }
}

/// A comparator as the parser produces it: well formed, and a wildcard
/// only in place of the minor or patch number.
pub open spec fn canonical_comparator(c: Comparator) -> bool {
    c.wf() && (c.op == Op::Wildcard ==> c.patch is None)
}

/// The text of an operator is its bytes read as characters.
proof fn lemma_op_chars(op: Op)
    ensures
        op_text(op) == ascii_chars(op_bytes(op)),
        ascii_bytes(op_bytes(op)),
{
    reveal_strlit("=");
    reveal_strlit(">");
    reveal_strlit(">=");
    reveal_strlit("<");
    reveal_strlit("<=");
    reveal_strlit("~");
    reveal_strlit("^");
    reveal_strlit("");
    assert(op_text(op) =~= ascii_chars(op_bytes(op)));
}

/// The text of a comparator is its bytes read as characters, and those
/// bytes are ASCII.
pub proof fn lemma_comparator_chars(c: Comparator)
    requires
        idents_ok(c.pre@),
    ensures
        comparator_text(c) == ascii_chars(comparator_bytes(c)),
        ascii_bytes(comparator_bytes(c)),
{
    reveal_strlit(".*");
    lemma_op_chars(c.op);
    lemma_decimal_chars(c.major as nat);
    let ob = op_bytes(c.op);
    let head = ob + decimal_bytes(c.major as nat);
    lemma_ascii_chars_add(ob, decimal_bytes(c.major as nat));
    lemma_ascii_bytes_add(ob, decimal_bytes(c.major as nat));
    assert(ascii_chars(star_bytes()) =~= ".*"@);
    assert(ascii_bytes(star_bytes()));
    assert(ascii_bytes(seq![46u8]));
    assert(ascii_bytes(seq![45u8]));
    lemma_ascii_chars_add(head, star_bytes());
    lemma_ascii_bytes_add(head, star_bytes());
    if let Some(minor) = c.minor {
        lemma_decimal_chars(minor as nat);
        lemma_ascii_chars_push(head, 46u8);
        assert(head.push(46u8) =~= head + seq![46u8]);
        lemma_ascii_bytes_add(head, seq![46u8]);
        let dn = decimal_bytes(minor as nat);
        lemma_ascii_chars_add(head.push(46u8), dn);
        lemma_ascii_bytes_add(head.push(46u8), dn);
        let with_minor = head.push(46u8) + dn;
        lemma_ascii_chars_add(with_minor, star_bytes());
        lemma_ascii_bytes_add(with_minor, star_bytes());
        if let Some(patch) = c.patch {
            lemma_decimal_chars(patch as nat);
            let dp = decimal_bytes(patch as nat);
            lemma_ascii_chars_push(with_minor, 46u8);
            assert(with_minor.push(46u8) =~= with_minor + seq![46u8]);
            lemma_ascii_bytes_add(with_minor, seq![46u8]);
            lemma_ascii_chars_add(with_minor.push(46u8), dp);
            lemma_ascii_bytes_add(with_minor.push(46u8), dp);
            let with_patch = with_minor.push(46u8) + dp;
            lemma_dotted_chars(c.pre@);
            lemma_ascii_chars_push(with_patch, 45u8);
            assert(with_patch.push(45u8) =~= with_patch + seq![45u8]);
            lemma_ascii_bytes_add(with_patch, seq![45u8]);
            lemma_ascii_chars_add(with_patch.push(45u8), dotted_bytes(c.pre@));
            lemma_ascii_bytes_add(with_patch.push(45u8), dotted_bytes(c.pre@));
        }
    }
}

/// A sequence of bytes inside the input, read at its offsets.
proof fn lemma_read_inside(input: Seq<u8>, i: int, b: Seq<u8>)
    requires
        0 <= i,
        i + b.len() <= input.len(),
        input.subrange(i, i + b.len()) == b,
    ensures
        forall|k: int| 0 <= k < b.len() ==> input[i + k] == #[trigger] b[k],
{
    assert forall|k: int| 0 <= k < b.len() implies input[i + k] == #[trigger] b[k] by {
        assert(input.subrange(i, i + b.len())[k] == b[k]);
    }
}

/// A part of a sequence of bytes inside the input is inside the input at
/// the matching offset.
proof fn lemma_part_inside(input: Seq<u8>, i: int, b: Seq<u8>, k: int, part: Seq<u8>)
    requires
        0 <= i,
        i + b.len() <= input.len(),
        input.subrange(i, i + b.len()) == b,
        0 <= k,
        k + part.len() <= b.len(),
        b.subrange(k, k + part.len()) == part,
    ensures
        input.subrange(i + k, i + k + part.len()) == part,
{
    lemma_read_inside(input, i, b);
    assert(input.subrange(i + k, i + k + part.len()) =~= part) by {
        assert forall|j: int| 0 <= j < part.len() implies input.subrange(i + k, i + k + part.len())[j]
            == part[j] by {
            assert(b.subrange(k, k + part.len())[j] == part[j]);
            assert(input[i + (k + j)] == b[k + j]);
        }
    }
}

/// The bytes of a comparator after its operator: the numbers, then the
/// pre-release after a `-`, or `.*` for a wildcard.
pub open spec fn number_bytes(c: Comparator) -> Seq<u8> {
    let head = decimal_bytes(c.major as nat);
    match c.minor {
        Some(minor) => {
            let with_minor = head.push(46u8) + decimal_bytes(minor as nat);
            match c.patch {
                Some(patch) => {
                    let with_patch = with_minor.push(46u8) + decimal_bytes(patch as nat);
                    if c.pre@.len() > 0 {
                        with_patch.push(45u8) + dotted_bytes(c.pre@)
                    } else {
                        with_patch
                    }
                },
                None => if c.op == Op::Wildcard {
                    with_minor + star_bytes()
                } else {
                    with_minor
                },
            }
        },
        None => if c.op == Op::Wildcard {
            head + star_bytes()
        } else {
            head
        },
    }
}

/// A comparator's bytes are its operator's bytes, then the rest.
pub proof fn lemma_comparator_bytes_split(c: Comparator)
    ensures
        comparator_bytes(c) == op_bytes(c.op) + number_bytes(c),
{
    assert(comparator_bytes(c) =~= op_bytes(c.op) + number_bytes(c));
}

/// Where the major number ends in the bytes after the operator.
pub open spec fn n_major_end(c: Comparator) -> int {
    decimal_bytes(c.major as nat).len() as int
}

/// Where the minor number ends in the bytes after the operator.
pub open spec fn n_minor_end(c: Comparator) -> int {
    n_major_end(c) + 1 + decimal_bytes(c.minor->0 as nat).len()
}

/// Where the patch number ends in the bytes after the operator.
pub open spec fn n_patch_end(c: Comparator) -> int {
    n_minor_end(c) + 1 + decimal_bytes(c.patch->0 as nat).len()
}

/// The bytes of a comparator after its operator start at `j`, followed by
/// a space, a comma or the end.
pub open spec fn number_at(input: Seq<u8>, j: int, c: Comparator) -> bool {
    let b = number_bytes(c);
    &&& 0 <= j
    &&& j + b.len() <= input.len()
    &&& input.subrange(j, j + b.len()) == b
    &&& (j + b.len() == input.len() || input[j + b.len()] == 32u8 || input[j + b.len()] == 44u8)
}

/// The major number of a comparator in the input.
proof fn lemma_number_head(input: Seq<u8>, j: int, c: Comparator)
    requires
        number_at(input, j, c),
    ensures
        input.subrange(j, j + n_major_end(c)) == decimal_bytes(c.major as nat),
        n_major_end(c) <= number_bytes(c).len(),
        c.minor is Some || c.op == Op::Wildcard ==> n_major_end(c) < number_bytes(c).len()
            && input[j + n_major_end(c)] == 46u8,
        c.minor is None && c.op == Op::Wildcard ==> input[j + n_major_end(c) + 1] == 42u8
            && number_bytes(c).len() == n_major_end(c) + 2,
        c.minor is None && c.op != Op::Wildcard ==> number_bytes(c).len() == n_major_end(c),
{
    let nb = number_bytes(c);
    lemma_read_inside(input, j, nb);
    let head = decimal_bytes(c.major as nat);
    assert(nb.subrange(0, head.len() as int) =~= head);
    lemma_part_inside(input, j, nb, 0, head);
    if c.minor is None {
        if c.op == Op::Wildcard {
            assert(nb =~= head + star_bytes());
            assert(nb[head.len() as int] == 46u8);
            assert(nb[(head.len() + 1) as int] == 42u8);
        } else {
            assert(nb =~= head);
        }
    } else {
        let dn = decimal_bytes(c.minor->0 as nat);
        let with_minor = head.push(46u8) + dn;
        assert(nb.subrange(0, with_minor.len() as int) =~= with_minor);
        assert(nb[head.len() as int] == with_minor[head.len() as int]);
    }
}

/// The minor number of a comparator in the input.
proof fn lemma_number_minor(input: Seq<u8>, j: int, c: Comparator)
    requires
        number_at(input, j, c),
        c.minor is Some,
    ensures
        input.subrange(j + n_major_end(c) + 1, j + n_minor_end(c)) == decimal_bytes(c.minor->0 as nat),
        n_minor_end(c) <= number_bytes(c).len(),
        c.patch is Some || c.op == Op::Wildcard ==> n_minor_end(c) < number_bytes(c).len()
            && input[j + n_minor_end(c)] == 46u8,
        c.patch is None && c.op == Op::Wildcard ==> input[j + n_minor_end(c) + 1] == 42u8
            && number_bytes(c).len() == n_minor_end(c) + 2,
        c.patch is None && c.op != Op::Wildcard ==> number_bytes(c).len() == n_minor_end(c),
{
    let nb = number_bytes(c);
    lemma_read_inside(input, j, nb);
    let head = decimal_bytes(c.major as nat);
    let dn = decimal_bytes(c.minor->0 as nat);
    let with_minor = head.push(46u8) + dn;
    assert(nb.subrange(0, with_minor.len() as int) =~= with_minor);
    assert(nb.subrange((head.len() + 1) as int, with_minor.len() as int) =~= dn);
    lemma_part_inside(input, j, nb, (head.len() + 1) as int, dn);
    if c.patch is None {
        if c.op == Op::Wildcard {
            assert(nb =~= with_minor + star_bytes());
            assert(nb[with_minor.len() as int] == 46u8);
            assert(nb[(with_minor.len() + 1) as int] == 42u8);
        } else {
            assert(nb =~= with_minor);
        }
    } else {
        let dp = decimal_bytes(c.patch->0 as nat);
        let with_patch = with_minor.push(46u8) + dp;
        assert(nb.subrange(0, with_patch.len() as int) =~= with_patch);
        assert(nb[with_minor.len() as int] == with_patch[with_minor.len() as int]);
    }
}

/// The patch number and the pre-release of a comparator in the input.
proof fn lemma_number_patch(input: Seq<u8>, j: int, c: Comparator)
    requires
        number_at(input, j, c),
        c.minor is Some,
        c.patch is Some,
    ensures
        input.subrange(j + n_minor_end(c) + 1, j + n_patch_end(c)) == decimal_bytes(c.patch->0 as nat),
        n_patch_end(c) <= number_bytes(c).len(),
        c.pre@.len() > 0 ==> input[j + n_patch_end(c)] == 45u8 && input.subrange(
            j + n_patch_end(c) + 1,
            j + number_bytes(c).len(),
        ) == dotted_bytes(c.pre@) && number_bytes(c).len() == n_patch_end(c) + 1 + dotted_bytes(
            c.pre@,
        ).len(),
        c.pre@.len() == 0 ==> number_bytes(c).len() == n_patch_end(c),
{
    let nb = number_bytes(c);
    lemma_read_inside(input, j, nb);
    let head = decimal_bytes(c.major as nat);
    let with_minor = head.push(46u8) + decimal_bytes(c.minor->0 as nat);
    let dp = decimal_bytes(c.patch->0 as nat);
    let with_patch = with_minor.push(46u8) + dp;
    assert(nb.subrange(0, with_patch.len() as int) =~= with_patch);
    assert(nb.subrange((with_minor.len() + 1) as int, with_patch.len() as int) =~= dp);
    lemma_part_inside(input, j, nb, (with_minor.len() + 1) as int, dp);
    if c.pre@.len() > 0 {
        let d = dotted_bytes(c.pre@);
        assert(nb =~= with_patch.push(45u8) + d);
        assert(nb[with_patch.len() as int] == 45u8);
        assert(nb.subrange((with_patch.len() + 1) as int, nb.len() as int) =~= d);
        lemma_part_inside(input, j, nb, (with_patch.len() + 1) as int, d);
    } else {
        assert(nb =~= with_patch);
    }
}

/// A number whose digits lie in the input, followed there by a byte that
/// is not a digit, or by the end.
proof fn lemma_decimal_inside(input: Seq<u8>, k: int, n: nat)
    requires
        0 <= k,
        k + decimal_bytes(n).len() <= input.len(),
        input.subrange(k, k + decimal_bytes(n).len()) == decimal_bytes(n),
        k + decimal_bytes(n).len() == input.len() || !is_digit(input[k + decimal_bytes(n).len()]),
    ensures
        decimal_at(input, k, n),
{
}

/// Where the parts of a comparator's bytes after its operator lie in the
/// input.
pub proof fn lemma_number_layout(input: Seq<u8>, j: int, c: Comparator)
    requires
        number_at(input, j, c),
        canonical_comparator(c),
    ensures
        decimal_at(input, j, c.major as nat),
        is_digit(input[j]),
        c.minor is Some ==> input[j + n_major_end(c)] == 46u8 && decimal_at(
            input,
            j + n_major_end(c) + 1,
            c.minor->0 as nat,
        ) && is_digit(input[j + n_major_end(c) + 1]),
        c.minor is None && c.op == Op::Wildcard ==> input[j + n_major_end(c)] == 46u8 && input[j
            + n_major_end(c) + 1] == 42u8 && number_bytes(c).len() == n_major_end(c) + 2,
        c.minor is None && c.op != Op::Wildcard ==> number_bytes(c).len() == n_major_end(c),
        c.patch is Some ==> input[j + n_minor_end(c)] == 46u8 && decimal_at(
            input,
            j + n_minor_end(c) + 1,
            c.patch->0 as nat,
        ) && is_digit(input[j + n_minor_end(c) + 1]),
        c.minor is Some && c.patch is None && c.op == Op::Wildcard ==> input[j + n_minor_end(c)]
            == 46u8 && input[j + n_minor_end(c) + 1] == 42u8 && number_bytes(c).len() == n_minor_end(c)
            + 2,
        c.minor is Some && c.patch is None && c.op != Op::Wildcard ==> number_bytes(c).len()
            == n_minor_end(c),
        c.patch is Some && c.pre@.len() > 0 ==> input[j + n_patch_end(c)] == 45u8 && dotted_at(
            input,
            j + n_patch_end(c) + 1,
            c.pre@,
        ) && number_bytes(c).len() == n_patch_end(c) + 1 + dotted_bytes(c.pre@).len(),
        c.patch is Some && c.pre@.len() == 0 ==> number_bytes(c).len() == n_patch_end(c),
{
    let e = j + number_bytes(c).len();
    lemma_number_head(input, j, c);
    lemma_decimal_bytes(c.major as nat);
    lemma_decimal_inside(input, j, c.major as nat);
    assert(input.subrange(j, j + n_major_end(c))[0] == decimal_bytes(c.major as nat)[0]);
    if c.minor is Some {
        lemma_number_minor(input, j, c);
        lemma_decimal_bytes(c.minor->0 as nat);
        lemma_decimal_inside(input, j + n_major_end(c) + 1, c.minor->0 as nat);
        assert(input.subrange(j + n_major_end(c) + 1, j + n_minor_end(c))[0] == decimal_bytes(
            c.minor->0 as nat,
        )[0]);
        if c.patch is Some {
            lemma_number_patch(input, j, c);
            lemma_decimal_bytes(c.patch->0 as nat);
            lemma_decimal_inside(input, j + n_minor_end(c) + 1, c.patch->0 as nat);
            assert(input.subrange(j + n_minor_end(c) + 1, j + n_patch_end(c))[0] == decimal_bytes(
                c.patch->0 as nat,
            )[0]);
            if c.pre@.len() > 0 {
                lemma_valid_idents_ok(c.pre@);
                assert(stops_at(input, e));
            }
        }
    }
}

/// At most one operator has its bytes at `i` followed by a digit.
pub proof fn lemma_op_prefix_unique(input: Seq<u8>, i: int, a: Op, b: Op)
    requires
        op_prefix(input, i, a),
        op_prefix(input, i, b),
    ensures
        a == b,
{
    let x = op_bytes(a);
    let y = op_bytes(b);
    if x.len() > 0 {
        assert(input[i] == x[0]) by {
            assert(input.subrange(i, i + x.len())[0] == x[0]);
        }
    }
    if x.len() > 1 {
        assert(input[i + 1] == x[1]) by {
            assert(input.subrange(i, i + x.len())[1] == x[1]);
        }
    }
    if y.len() > 0 {
        assert(input[i] == y[0]) by {
            assert(input.subrange(i, i + y.len())[0] == y[0]);
        }
    }
    if y.len() > 1 {
        assert(input[i + 1] == y[1]) by {
            assert(input.subrange(i, i + y.len())[1] == y[1]);
        }
    }
    assert(is_digit(input[i + x.len()]) || input[i + x.len()] == 32u8);
    assert(is_digit(input[i + y.len()]) || input[i + y.len()] == 32u8);
    match a {
        Op::Exact => {},
        Op::Greater => {},
        Op::GreaterEq => {},
        Op::Less => {},
        Op::LessEq => {},
        Op::Tilde => {},
        Op::Caret => {},
        Op::Wildcard => {},
    }
}

/// The bytes `, ` that separate the comparators of a requirement.
pub open spec fn comma_bytes() -> Seq<u8> {
    seq![44u8, 32u8]
}

/// The bytes of comparators joined by `, `.
pub open spec fn comparators_bytes(cs: Seq<Comparator>) -> Seq<u8>
    decreases cs.len(),
{
    if cs.len() == 0 {
        Seq::empty()
    } else if cs.len() == 1 {
        comparator_bytes(cs[0])
    } else {
        comparators_bytes(cs.drop_last()) + comma_bytes() + comparator_bytes(cs.last())
    }
}

/// The bytes of a requirement: `*` without comparators, else the
/// comparators joined by `, `.
pub open spec fn req_bytes(r: VersionReq) -> Seq<u8> {
    if r.comparators@.len() == 0 {
        seq![42u8]
    } else {
        comparators_bytes(r.comparators@)
    }
}

/// Every comparator of the requirement is as the parser produces it.
pub open spec fn canonical_req(r: VersionReq) -> bool {
    forall|k: int| 0 <= k < r.comparators@.len() ==> canonical_comparator(#[trigger] r.comparators@[k])
}

/// Two requirements with the same comparators.
pub open spec fn same_req(a: VersionReq, b: VersionReq) -> bool {
    &&& a.comparators@.len() == b.comparators@.len()
    &&& forall|k: int|
        0 <= k < a.comparators@.len() ==> same_comparator(
            #[trigger] a.comparators@[k],
            b.comparators@[k],
        )
}

/// The text of comparators joined by `, ` is their bytes read as
/// characters.
pub proof fn lemma_comparators_chars(cs: Seq<Comparator>)
    requires
        forall|k: int| 0 <= k < cs.len() ==> canonical_comparator(#[trigger] cs[k]),
    ensures
        comparators_text(cs) == ascii_chars(comparators_bytes(cs)),
        ascii_bytes(comparators_bytes(cs)),
    decreases cs.len(),
{
    reveal_strlit(", ");
    if cs.len() == 1 {
        lemma_valid_idents_ok(cs[0].pre@);
        lemma_comparator_chars(cs[0]);
    } else if cs.len() > 1 {
        let q = cs.drop_last();
        assert forall|k: int| 0 <= k < q.len() implies canonical_comparator(#[trigger] q[k]) by {
            assert(q[k] == cs[k]);
        }
        lemma_comparators_chars(q);
        assert(canonical_comparator(cs[cs.len() - 1]));
        lemma_valid_idents_ok(cs.last().pre@);
        lemma_comparator_chars(cs.last());
        assert(ascii_chars(comma_bytes()) =~= ", "@);
        assert(ascii_bytes(comma_bytes()));
        lemma_ascii_chars_add(comparators_bytes(q), comma_bytes());
        lemma_ascii_chars_add(comparators_bytes(q) + comma_bytes(), comparator_bytes(cs.last()));
        lemma_ascii_bytes_add(comparators_bytes(q), comma_bytes());
        lemma_ascii_bytes_add(comparators_bytes(q) + comma_bytes(), comparator_bytes(cs.last()));
    }
}

/// The text of a requirement is its bytes read as characters.
pub proof fn lemma_req_chars(r: VersionReq)
    requires
        canonical_req(r),
    ensures
        req_text(r) == ascii_chars(req_bytes(r)),
        ascii_bytes(req_bytes(r)),
{
    reveal_strlit("*");
    if r.comparators@.len() == 0 {
        assert(ascii_chars(seq![42u8]) =~= "*"@);
    } else {
        lemma_comparators_chars(r.comparators@);
    }
}

/// `n` spaces.
pub open spec fn spaces(n: nat) -> Seq<u8> {
    Seq::new(n, |k: int| 32u8)
}

/// The operator of a comparator as written: its bytes, or nothing where it
/// is left out.
pub open spec fn written_op(c: Comparator, w: bool) -> Seq<u8> {
    if w {
        op_bytes(c.op)
    } else {
        Seq::empty()
    }
}

/// The operator may be left out only where it is `^`, or where the
/// comparator is a wildcard, which writes no operator.
pub open spec fn spelling_ok(c: Comparator, w: bool) -> bool {
    w || c.op == Op::Caret || c.op == Op::Wildcard
}

/// A comparator written with its operator or without, `mid` spaces after
/// the operator, and `trail` spaces after the whole.
pub open spec fn spelled_bytes(c: Comparator, w: bool, mid: nat, trail: nat) -> Seq<u8> {
    written_op(c, w) + spaces(mid) + number_bytes(c) + spaces(trail)
}

/// A comparator as the parser produces it, written so, starts at `i` and
/// is followed by a comma or the end.
pub open spec fn spelled_at(input: Seq<u8>, i: int, c: Comparator, w: bool, mid: nat, trail: nat) -> bool {
    let b = spelled_bytes(c, w, mid, trail);
    &&& canonical_comparator(c)
    &&& spelling_ok(c, w)
    &&& 0 <= i
    &&& i + b.len() <= input.len()
    &&& input.subrange(i, i + b.len()) == b
    &&& (i + b.len() == input.len() || input[i + b.len()] == 44u8)
}

/// Where the bytes after the operator start.
pub open spec fn number_start(i: int, c: Comparator, w: bool, mid: nat) -> int {
    i + written_op(c, w).len() + mid
}

/// Where the written comparator ends, its trailing spaces included.
pub open spec fn spelled_end(i: int, c: Comparator, w: bool, mid: nat, trail: nat) -> int {
    i + spelled_bytes(c, w, mid, trail).len()
}

/// Where the parts of a written comparator lie in the input.
pub proof fn lemma_spelling_layout(input: Seq<u8>, i: int, c: Comparator, w: bool, mid: nat, trail: nat)
    requires
        spelled_at(input, i, c, w, mid, trail),
    ensures
        number_at(input, number_start(i, c, w, mid), c),
        number_start(i, c, w, mid) + number_bytes(c).len() + trail == spelled_end(i, c, w, mid, trail),
        forall|k: int| i + written_op(c, w).len() <= k < number_start(i, c, w, mid) ==> input[k] == 32u8,
        forall|k: int|
            number_start(i, c, w, mid) + number_bytes(c).len() <= k < spelled_end(i, c, w, mid, trail)
                ==> input[k] == 32u8,
        spelled_end(i, c, w, mid, trail) == input.len() || input[spelled_end(i, c, w, mid, trail)] == 44u8,
        written_op(c, w).len() > 0 ==> op_prefix(input, i, c.op),
        written_op(c, w).len() == 0 ==> i < input.len() && (is_digit(input[i]) || input[i] == 32u8),
        written_op(c, w).len() == 0 ==> c.op == Op::Caret || c.op == Op::Wildcard,
{
    let ob = written_op(c, w);
    let sp = spaces(mid);
    let nb = number_bytes(c);
    let tr = spaces(trail);
    let b = spelled_bytes(c, w, mid, trail);
    let j = number_start(i, c, w, mid);
    lemma_read_inside(input, i, b);
    assert(b.subrange(0, ob.len() as int) =~= ob);
    lemma_part_inside(input, i, b, 0, ob);
    assert(b.subrange((ob.len() + mid) as int, (ob.len() + mid + nb.len()) as int) =~= nb);
    lemma_part_inside(input, i, b, (ob.len() + mid) as int, nb);
    assert forall|k: int| i + ob.len() <= k < j implies input[k] == 32u8 by {
        assert(b[k - i] == sp[k - i - ob.len()]);
    }
    assert forall|k: int| j + nb.len() <= k < i + b.len() implies input[k] == 32u8 by {
        assert(b[k - i] == tr[k - i - ob.len() - mid - nb.len()]);
    }
    if j + nb.len() < i + b.len() {
        assert(input[j + nb.len()] == 32u8);
    }
    lemma_number_first_digit(input, j, c);
    if ob.len() > 0 {
        assert(w);
        assert(input.subrange(i, i + ob.len()) == op_bytes(c.op));
        if mid > 0 {
            assert(input[i + ob.len()] == 32u8);
        }
    } else {
        if mid > 0 {
            assert(input[i] == 32u8);
        }
        if w {
            assert(op_bytes(c.op).len() == 0);
        }
    }
}

/// The bytes after a comparator's operator start with a digit.
proof fn lemma_number_first_digit(input: Seq<u8>, j: int, c: Comparator)
    requires
        0 <= j,
        j + number_bytes(c).len() <= input.len(),
        input.subrange(j, j + number_bytes(c).len()) == number_bytes(c),
    ensures
        number_bytes(c).len() > 0,
        is_digit(input[j]),
{
    let nb = number_bytes(c);
    let dm = decimal_bytes(c.major as nat);
    lemma_decimal_bytes(c.major as nat);
    assert(nb.subrange(0, dm.len() as int) =~= dm);
    assert(nb[0] == dm[0]);
    assert(input.subrange(j, j + nb.len())[0] == nb[0]);
}

/// At most one comparator, up to whether it is a wildcard, has the bytes
/// after its operator at `j`.
pub proof fn lemma_number_at_unique(input: Seq<u8>, j: int, a: Comparator, b: Comparator)
    requires
        canonical_comparator(a),
        canonical_comparator(b),
        number_at(input, j, a),
        number_at(input, j, b),
    ensures
        a.major == b.major,
        a.minor == b.minor,
        a.patch == b.patch,
        a.pre@ == b.pre@,
        (a.op == Op::Wildcard) == (b.op == Op::Wildcard),
        number_bytes(a).len() == number_bytes(b).len(),
{
    lemma_number_layout(input, j, a);
    lemma_number_layout(input, j, b);
    lemma_decimal_at_unique(input, j, a.major as nat, b.major as nat);
    assert(n_major_end(a) == n_major_end(b));
    assert(a.minor is Some <==> b.minor is Some);
    if a.minor is Some {
        lemma_decimal_at_unique(input, j + n_major_end(a) + 1, a.minor->0 as nat, b.minor->0 as nat);
        assert(n_minor_end(a) == n_minor_end(b));
        assert(a.patch is Some <==> b.patch is Some);
        if a.patch is Some {
            lemma_decimal_at_unique(input, j + n_minor_end(a) + 1, a.patch->0 as nat, b.patch->0 as nat);
            assert(n_patch_end(a) == n_patch_end(b));
            if a.pre@.len() > 0 && b.pre@.len() > 0 {
                lemma_dotted_at_unique(input, j + n_patch_end(a) + 1, a.pre@, b.pre@);
            }
            if a.pre@.len() > 0 && b.pre@.len() == 0 {
                assert(input[j + n_patch_end(a)] == 45u8);
            }
            if b.pre@.len() > 0 && a.pre@.len() == 0 {
                assert(input[j + n_patch_end(b)] == 45u8);
            }
            assert(a.pre@ =~= b.pre@);
        } else {
            assert(a.pre@ =~= Seq::<Seq<u8>>::empty());
            assert(b.pre@ =~= Seq::<Seq<u8>>::empty());
        }
    } else {
        assert(a.pre@ =~= Seq::<Seq<u8>>::empty());
        assert(b.pre@ =~= Seq::<Seq<u8>>::empty());
    }
}

/// The first byte of an operator is neither a digit nor a space.
proof fn lemma_op_first_byte(o: Op)
    ensures
        op_bytes(o).len() > 0 ==> !is_digit(op_bytes(o)[0]) && op_bytes(o)[0] != 32u8,
{
}

/// A run of spaces from `a` ending where a byte other than a space, or the
/// end, comes: its end is determined.
pub proof fn lemma_space_run(input: Seq<u8>, a: int, x: int, y: int)
    requires
        0 <= a <= x <= input.len(),
        a <= y <= input.len(),
        forall|k: int| a <= k < x ==> input[k] == 32u8,
        forall|k: int| a <= k < y ==> input[k] == 32u8,
        x == input.len() || input[x] != 32u8,
        y == input.len() || input[y] != 32u8,
    ensures
        x == y,
{
    if x < y {
        assert(input[x] == 32u8);
    }
    if y < x {
        assert(input[y] == 32u8);
    }
}

/// A written comparator at `i` determines the comparator and where its
/// writing ends.
pub proof fn lemma_spelled_unique(
    input: Seq<u8>,
    i: int,
    a: (Comparator, bool, nat, nat),
    b: (Comparator, bool, nat, nat),
)
    requires
        spelled_at(input, i, a.0, a.1, a.2, a.3),
        spelled_at(input, i, b.0, b.1, b.2, b.3),
    ensures
        same_comparator(a.0, b.0),
        spelled_end(i, a.0, a.1, a.2, a.3) == spelled_end(i, b.0, b.1, b.2, b.3),
{
    let (c, w, m, t) = a;
    let (d, x, n, u) = b;
    lemma_spelling_layout(input, i, c, w, m, t);
    lemma_spelling_layout(input, i, d, x, n, u);
    let oa = written_op(c, w);
    let ob = written_op(d, x);
    lemma_op_first_byte(c.op);
    lemma_op_first_byte(d.op);
    if oa.len() > 0 {
        assert(input[i] == oa[0]) by {
            assert(input.subrange(i, i + oa.len())[0] == oa[0]);
        }
    }
    if ob.len() > 0 {
        assert(input[i] == ob[0]) by {
            assert(input.subrange(i, i + ob.len())[0] == ob[0]);
        }
    }
    if oa.len() > 0 && ob.len() > 0 {
        lemma_op_prefix_unique(input, i, c.op, d.op);
    }
    assert(oa.len() == ob.len());
    let ja = number_start(i, c, w, m);
    let jb = number_start(i, d, x, n);
    lemma_number_layout(input, ja, c);
    lemma_number_layout(input, jb, d);
    lemma_space_run(input, i + oa.len(), ja, jb);
    lemma_number_at_unique(input, ja, c, d);
    assert(c.op == d.op);
    let ea = spelled_end(i, c, w, m, t);
    let eb = spelled_end(i, d, x, n, u);
    let na = ja + number_bytes(c).len();
    assert(ea == input.len() || input[ea] != 32u8);
    assert(eb == input.len() || input[eb] != 32u8);
    lemma_space_run(input, na, ea, eb);
}

/// A comparator written after `lead` spaces, as text.
pub open spec fn written_comparator(lead: nat, c: Comparator, w: bool, mid: nat, trail: nat) -> Seq<char> {
    ascii_chars(spaces(lead) + spelled_bytes(c, w, mid, trail))
}

/// Where the parser starts reading a written comparator after `lead`
/// spaces: at its operator, or at its numbers where no operator is written.
pub open spec fn read_start(lead: nat, c: Comparator, w: bool, mid: nat) -> nat {
    if written_op(c, w).len() == 0 {
        lead + mid
    } else {
        lead
    }
}

/// The spaces after the operator that remain to be read from there.
pub open spec fn read_mid(c: Comparator, w: bool, mid: nat) -> nat {
    if written_op(c, w).len() == 0 {
        0
    } else {
        mid
    }
}

/// The bytes of a written comparator are ASCII.
pub proof fn lemma_spelled_ascii(lead: nat, c: Comparator, w: bool, mid: nat, trail: nat)
    requires
        canonical_comparator(c),
    ensures
        ascii_bytes(spaces(lead) + spelled_bytes(c, w, mid, trail)),
{
    lemma_valid_idents_ok(c.pre@);
    lemma_comparator_chars(c);
    lemma_comparator_bytes_split(c);
    let cb = comparator_bytes(c);
    let ob = op_bytes(c.op);
    let b = spaces(lead) + spelled_bytes(c, w, mid, trail);
    assert forall|k: int| 0 <= k < b.len() implies #[trigger] b[k] < 128 by {
        let l = lead as int;
        let o = written_op(c, w).len() as int;
        let nl = number_bytes(c).len() as int;
        if l <= k < l + o {
            assert(b[k] == cb[k - l]);
        } else if l + o + mid <= k < l + o + mid + nl {
            assert(b[k] == number_bytes(c)[k - l - o - mid]);
            assert(b[k] == cb[k - l - o - mid + ob.len()]);
        }
    }
}

/// Where a comparator written after leading spaces, at `pos` in the input
/// and followed by a comma or the end, is read from.
pub proof fn lemma_elem_layout(input: Seq<u8>, pos: int, lead: nat, c: Comparator, w: bool, mid: nat, trail: nat)
    requires
        canonical_comparator(c),
        spelling_ok(c, w),
        0 <= pos,
        pos + lead + spelled_bytes(c, w, mid, trail).len() <= input.len(),
        input.subrange(pos, pos + lead + spelled_bytes(c, w, mid, trail).len()) == spaces(lead)
            + spelled_bytes(c, w, mid, trail),
        pos + lead + spelled_bytes(c, w, mid, trail).len() == input.len() || input[pos + lead
            + spelled_bytes(c, w, mid, trail).len()] == 44u8,
    ensures
        spelled_at(input, pos + read_start(lead, c, w, mid), c, w, read_mid(c, w, mid), trail),
        spelled_end(pos + read_start(lead, c, w, mid), c, w, read_mid(c, w, mid), trail) == pos + lead
            + spelled_bytes(c, w, mid, trail).len(),
        forall|k: int| pos <= k < pos + read_start(lead, c, w, mid) ==> input[k] == 32u8,
        input[pos + read_start(lead, c, w, mid)] != 32u8,
{
    let st = pos + read_start(lead, c, w, mid);
    let m2 = read_mid(c, w, mid);
    let sb = spelled_bytes(c, w, mid, trail);
    let sb2 = spelled_bytes(c, w, m2, trail);
    let e = pos + lead + sb.len();
    let o = written_op(c, w).len() as int;
    let whole = spaces(lead) + sb;
    assert forall|k: int| pos <= k < e implies input[k] == whole[k - pos] by {
        assert(input.subrange(pos, e)[k - pos] == whole[k - pos]);
    }
    assert(st + sb2.len() == e);
    assert(input.subrange(st, e) =~= sb2) by {
        assert forall|k: int| 0 <= k < sb2.len() implies input.subrange(st, e)[k] == sb2[k] by {
            assert(input[st + k] == whole[st + k - pos]);
            if o == 0 {
                assert(whole[st + k - pos] == sb[mid + k]);
            } else {
                assert(whole[st + k - pos] == sb[k]);
            }
        }
    }
    assert(spelled_at(input, st, c, w, m2, trail));
    assert forall|k: int| pos <= k < st implies input[k] == 32u8 by {
        assert(input[k] == whole[k - pos]);
        if k - pos >= lead {
            assert(whole[k - pos] == sb[k - pos - lead]);
        }
    }
    lemma_spelling_layout(input, st, c, w, m2, trail);
    lemma_op_first_byte(c.op);
    if o > 0 {
        assert(written_op(c, w) == op_bytes(c.op));
        assert(input[st] == op_bytes(c.op)[0]) by {
            assert(input.subrange(st, st + o)[0] == op_bytes(c.op)[0]);
        }
    } else {
        lemma_number_layout(input, number_start(st, c, w, m2), c);
    }
}

/// Where a comparator written after leading spaces is read from.
pub proof fn lemma_written_comparator_layout(input: Seq<u8>, lead: nat, c: Comparator, w: bool, mid: nat, trail: nat)
    requires
        canonical_comparator(c),
        spelling_ok(c, w),
        input == spaces(lead) + spelled_bytes(c, w, mid, trail),
    ensures
        spelled_at(input, read_start(lead, c, w, mid) as int, c, w, read_mid(c, w, mid), trail),
        spelled_end(read_start(lead, c, w, mid) as int, c, w, read_mid(c, w, mid), trail) == input.len(),
        forall|k: int| 0 <= k < read_start(lead, c, w, mid) ==> input[k] == 32u8,
        input[read_start(lead, c, w, mid) as int] != 32u8,
{
    assert(input.subrange(0, input.len() as int) =~= input);
    lemma_elem_layout(input, 0, lead, c, w, mid, trail);
}

/// One element of a written requirement: spaces, then a written
/// comparator.
pub open spec fn written_elem(c: Comparator, x: (nat, bool, nat, nat)) -> Seq<u8> {
    spaces(x.0) + spelled_bytes(c, x.1, x.2, x.3)
}

/// Comparators, each written after its own spaces, joined by commas.
pub open spec fn written_list(cs: Seq<Comparator>, sp: Seq<(nat, bool, nat, nat)>) -> Seq<u8>
    decreases cs.len(),
{
    if cs.len() == 0 {
        Seq::empty()
    } else if cs.len() == 1 {
        written_elem(cs[0], sp[0])
    } else {
        written_list(cs.drop_last(), sp.drop_last()).push(44u8) + written_elem(cs.last(), sp.last())
    }
}

/// A requirement written so, as text.
pub open spec fn written_req(r: VersionReq, sp: Seq<(nat, bool, nat, nat)>) -> Seq<char> {
    ascii_chars(written_list(r.comparators@, sp))
}

/// One way of writing per comparator, each leaving out only what may be
/// left out.
pub open spec fn spellings_ok(cs: Seq<Comparator>, sp: Seq<(nat, bool, nat, nat)>) -> bool {
    &&& sp.len() == cs.len()
    &&& forall|k: int| 0 <= k < cs.len() ==> spelling_ok(#[trigger] cs[k], sp[k].1)
}

/// Where the `k`-th element starts in a written list.
pub open spec fn elem_start(cs: Seq<Comparator>, sp: Seq<(nat, bool, nat, nat)>, k: int) -> int {
    if k == 0 {
        0
    } else {
        (written_list(cs.take(k), sp.take(k)).len() + 1) as int
    }
}

/// Appending one more element to a written list.
proof fn lemma_written_extend(cs: Seq<Comparator>, sp: Seq<(nat, bool, nat, nat)>, k: int)
    requires
        0 <= k < cs.len(),
        sp.len() == cs.len(),
    ensures
        k == 0 ==> written_list(cs.take(k + 1), sp.take(k + 1)) == written_elem(cs[0], sp[0]),
        k > 0 ==> written_list(cs.take(k + 1), sp.take(k + 1)) == written_list(cs.take(k), sp.take(k)).push(
            44u8,
        ) + written_elem(cs[k], sp[k]),
{
    assert(cs.take(k + 1).drop_last() =~= cs.take(k));
    assert(sp.take(k + 1).drop_last() =~= sp.take(k));
    assert(cs.take(k + 1).last() == cs[k]);
    assert(sp.take(k + 1).last() == sp[k]);
    if k == 0 {
        assert(cs.take(1).len() == 1);
    }
}

/// A shorter prefix of a written list starts a longer one, followed there
/// by a comma.
proof fn lemma_written_prefix(cs: Seq<Comparator>, sp: Seq<(nat, bool, nat, nat)>, k: int, m: int)
    requires
        0 <= k <= m <= cs.len(),
        sp.len() == cs.len(),
    ensures
        written_list(cs.take(k), sp.take(k)).len() <= written_list(cs.take(m), sp.take(m)).len(),
        written_list(cs.take(m), sp.take(m)).take(written_list(cs.take(k), sp.take(k)).len() as int)
            == written_list(cs.take(k), sp.take(k)),
        0 < k < m ==> written_list(cs.take(k), sp.take(k)).len() < written_list(cs.take(m), sp.take(m)).len()
            && written_list(cs.take(m), sp.take(m))[written_list(cs.take(k), sp.take(k)).len() as int]
            == 44u8,
    decreases m - k,
{
    let dk = written_list(cs.take(k), sp.take(k));
    if k == m {
        assert(written_list(cs.take(m), sp.take(m)).take(dk.len() as int) =~= dk);
    } else {
        lemma_written_prefix(cs, sp, k, m - 1);
        lemma_written_extend(cs, sp, m - 1);
        let dm1 = written_list(cs.take(m - 1), sp.take(m - 1));
        let dm = written_list(cs.take(m), sp.take(m));
        if m - 1 == 0 {
            assert(cs.take(0) =~= Seq::<Comparator>::empty());
            assert(dm.take(0) =~= Seq::<u8>::empty());
        } else {
            assert(dm =~= dm1.push(44u8) + written_elem(cs[m - 1], sp[m - 1]));
            assert(dm.take(dk.len() as int) =~= dm1.take(dk.len() as int));
            if 0 < k && k < m - 1 {
                assert(dm[dk.len() as int] == dm1[dk.len() as int]);
            }
            if k == m - 1 {
                assert(dk =~= dm1);
                assert(dm[dm1.len() as int] == 44u8);
            }
        }
    }
}

/// Each element of a written list lies at its start, followed by a comma
/// unless it is the last.
pub proof fn lemma_written_layout(cs: Seq<Comparator>, sp: Seq<(nat, bool, nat, nat)>, k: int)
    requires
        0 <= k < cs.len(),
        sp.len() == cs.len(),
    ensures
        elem_start(cs, sp, k) + written_elem(cs[k], sp[k]).len() <= written_list(cs, sp).len(),
        written_list(cs, sp).subrange(
            elem_start(cs, sp, k),
            elem_start(cs, sp, k) + written_elem(cs[k], sp[k]).len(),
        ) == written_elem(cs[k], sp[k]),
        k + 1 < cs.len() ==> written_list(cs, sp)[elem_start(cs, sp, k) + written_elem(cs[k], sp[k]).len()]
            == 44u8 && elem_start(cs, sp, k + 1) == elem_start(cs, sp, k) + written_elem(cs[k], sp[k]).len()
            + 1,
        k + 1 == cs.len() ==> elem_start(cs, sp, k) + written_elem(cs[k], sp[k]).len() == written_list(
            cs,
            sp,
        ).len(),
{
    let n = cs.len() as int;
    assert(cs.take(n) =~= cs);
    assert(sp.take(n) =~= sp);
    lemma_written_extend(cs, sp, k);
    lemma_written_prefix(cs, sp, k + 1, n);
    let d = written_list(cs, sp);
    let dk1 = written_list(cs.take(k + 1), sp.take(k + 1));
    let b = written_elem(cs[k], sp[k]);
    let st = elem_start(cs, sp, k);
    assert(dk1.len() == st + b.len());
    assert(d.subrange(st, st + b.len()) =~= b) by {
        assert forall|j: int| 0 <= j < b.len() implies d.subrange(st, st + b.len())[j] == b[j] by {
            assert(d.take(dk1.len() as int)[st + j] == dk1[st + j]);
        }
    }
    if k + 1 < n {
        lemma_written_extend(cs, sp, k + 1);
    } else {
        assert(cs.take(k + 1) =~= cs);
        assert(sp.take(k + 1) =~= sp);
    }
}

/// The bytes of a written requirement are ASCII.
pub proof fn lemma_written_list_ascii(cs: Seq<Comparator>, sp: Seq<(nat, bool, nat, nat)>)
    requires
        sp.len() == cs.len(),
        forall|k: int| 0 <= k < cs.len() ==> canonical_comparator(#[trigger] cs[k]),
    ensures
        ascii_bytes(written_list(cs, sp)),
    decreases cs.len(),
{
    if cs.len() == 1 {
        assert(canonical_comparator(cs[0]));
        lemma_spelled_ascii(sp[0].0, cs[0], sp[0].1, sp[0].2, sp[0].3);
    } else if cs.len() > 1 {
        let q = cs.drop_last();
        let p = sp.drop_last();
        assert forall|k: int| 0 <= k < q.len() implies canonical_comparator(#[trigger] q[k]) by {
            assert(q[k] == cs[k]);
        }
        lemma_written_list_ascii(q, p);
        let x = sp.last();
        assert(canonical_comparator(cs[cs.len() - 1]));
        lemma_spelled_ascii(x.0, cs.last(), x.1, x.2, x.3);
        assert(ascii_bytes(seq![44u8]));
        assert(written_list(q, p).push(44u8) =~= written_list(q, p) + seq![44u8]);
        lemma_ascii_bytes_add(written_list(q, p), seq![44u8]);
        lemma_ascii_bytes_add(written_list(q, p).push(44u8), written_elem(cs.last(), x));
    }
}

/// The printed form of comparators is one way of writing them: each with
/// its operator, after one space but the first.
pub proof fn lemma_printed_is_written(cs: Seq<Comparator>)
    ensures
        comparators_bytes(cs) == written_list(cs, printed_spelling(cs.len())),
    decreases cs.len(),
{
    let sp = printed_spelling(cs.len());
    if cs.len() == 1 {
        lemma_comparator_bytes_split(cs[0]);
        assert(written_elem(cs[0], sp[0]) =~= comparator_bytes(cs[0]));
    } else if cs.len() > 1 {
        let q = cs.drop_last();
        lemma_printed_is_written(q);
        assert(sp.drop_last() =~= printed_spelling(q.len()));
        lemma_comparator_bytes_split(cs.last());
        assert(written_elem(cs.last(), sp.last()) =~= seq![32u8] + comparator_bytes(cs.last()));
        assert(comparators_bytes(cs) =~= written_list(cs, sp));
    }
}

/// The printed form of a requirement with comparators is one of its
/// written forms.
pub proof fn lemma_printed_req(q: VersionReq)
    requires
        canonical_req(q),
        q.comparators@.len() > 0,
    ensures
        spellings_ok(q.comparators@, printed_spelling(q.comparators@.len())),
        written_req(q, printed_spelling(q.comparators@.len())) == req_text(q),
{
    lemma_printed_is_written(q.comparators@);
    lemma_req_chars(q);
}

/// Two written comparators at the same position, each after its own
/// spaces and followed by a comma or the end, are the same comparator and
/// end at the same place.
proof fn lemma_elem_unique(
    s: Seq<u8>,
    pos: int,
    c: Comparator,
    a: (nat, bool, nat, nat),
    d: Comparator,
    b: (nat, bool, nat, nat),
)
    requires
        canonical_comparator(c),
        canonical_comparator(d),
        spelling_ok(c, a.1),
        spelling_ok(d, b.1),
        0 <= pos,
        pos + written_elem(c, a).len() <= s.len(),
        s.subrange(pos, pos + written_elem(c, a).len()) == written_elem(c, a),
        pos + written_elem(c, a).len() == s.len() || s[pos + written_elem(c, a).len()] == 44u8,
        pos + written_elem(d, b).len() <= s.len(),
        s.subrange(pos, pos + written_elem(d, b).len()) == written_elem(d, b),
        pos + written_elem(d, b).len() == s.len() || s[pos + written_elem(d, b).len()] == 44u8,
    ensures
        same_comparator(c, d),
        written_elem(c, a).len() == written_elem(d, b).len(),
{
    lemma_elem_layout(s, pos, a.0, c, a.1, a.2, a.3);
    lemma_elem_layout(s, pos, b.0, d, b.1, b.2, b.3);
    let ra = pos + read_start(a.0, c, a.1, a.2);
    let rb = pos + read_start(b.0, d, b.1, b.2);
    lemma_spelling_layout(s, ra, c, a.1, read_mid(c, a.1, a.2), a.3);
    lemma_space_run(s, pos, ra, rb);
    lemma_spelled_unique(
        s,
        ra,
        (c, a.1, read_mid(c, a.1, a.2), a.3),
        (d, b.1, read_mid(d, b.1, b.2), b.3),
    );
}

/// Two written requirements with the same bytes agree from the `k`-th
/// comparator on, when they agree before it.
pub proof fn lemma_written_list_unique(
    s: Seq<u8>,
    x: Seq<Comparator>,
    xs: Seq<(nat, bool, nat, nat)>,
    y: Seq<Comparator>,
    ys: Seq<(nat, bool, nat, nat)>,
    k: int,
)
    requires
        s == written_list(x, xs),
        s == written_list(y, ys),
        spellings_ok(x, xs),
        spellings_ok(y, ys),
        forall|j: int| 0 <= j < x.len() ==> canonical_comparator(#[trigger] x[j]),
        forall|j: int| 0 <= j < y.len() ==> canonical_comparator(#[trigger] y[j]),
        0 <= k < x.len(),
        k < y.len(),
        elem_start(x, xs, k) == elem_start(y, ys, k),
    ensures
        x.len() == y.len(),
        forall|j: int| k <= j < x.len() ==> same_comparator(#[trigger] x[j], y[j]),
    decreases x.len() - k,
{
    let pos = elem_start(x, xs, k);
    lemma_written_layout(x, xs, k);
    lemma_written_layout(y, ys, k);
    assert(canonical_comparator(x[k]));
    assert(canonical_comparator(y[k]));
    assert(spelling_ok(x[k], xs[k].1));
    assert(spelling_ok(y[k], ys[k].1));
    lemma_elem_unique(s, pos, x[k], xs[k], y[k], ys[k]);
    if k + 1 < x.len() {
        lemma_written_layout(x, xs, k + 1);
    }
    if k + 1 < y.len() {
        lemma_written_layout(y, ys, k + 1);
    }
    if k + 1 < x.len() && k + 1 < y.len() {
        lemma_written_list_unique(s, x, xs, y, ys, k + 1);
    }
}

/// A written comparator does not start with a wildcard.
pub proof fn lemma_spelled_first_byte(input: Seq<u8>, i: int, c: Comparator, w: bool, mid: nat, trail: nat)
    requires
        spelled_at(input, i, c, w, mid, trail),
    ensures
        i < input.len(),
        input[i] != 42u8 && input[i] != 120u8 && input[i] != 88u8,
{
    lemma_spelling_layout(input, i, c, w, mid, trail);
    if written_op(c, w).len() > 0 {
        assert(input[i] == op_bytes(c.op)[0]) by {
            assert(input.subrange(i, i + op_bytes(c.op).len())[0] == op_bytes(c.op)[0]);
        }
    }
}

/// The way the printed form writes `n` comparators.
pub open spec fn printed_spelling(n: nat) -> Seq<(nat, bool, nat, nat)> {
    Seq::new(n, |k: int| if k == 0 { (0nat, true, 0nat, 0nat) } else { (1nat, true, 0nat, 0nat) })
}

} // verus!
