//! Pre-release identifiers and their precedence order.
//!
//! A pre-release such as `alpha.1` is a sequence of dot-separated
//! identifiers. It is modelled as a `Seq<Seq<u8>>`: one byte sequence per
//! identifier, the empty sequence standing for "no pre-release". The
//! precedence order follows SemVer: numeric identifiers compare numerically
//! and below alphanumeric ones, alphanumeric identifiers compare by ASCII
//! order, a longer list of identifiers wins when all shared ones are equal,
//! and a version without pre-release outranks every pre-release.
use core::cmp::Ordering;
use vstd::prelude::*;

verus! {

/// An ASCII decimal digit.
pub open spec fn is_digit(b: u8) -> bool {
    48 <= b <= 57
}

/// A byte that may occur in a pre-release or build identifier:
/// `[0-9A-Za-z-]`.
pub open spec fn is_ident_byte(b: u8) -> bool {
    is_digit(b) || (65 <= b <= 90) || (97 <= b <= 122) || b == 45
}

/// An identifier made only of digits.
pub open spec fn is_numeric(id: Seq<u8>) -> bool {
    forall|i: int| 0 <= i < id.len() ==> is_digit(#[trigger] id[i])
}

/// A well-formed pre-release identifier: non-empty, made of identifier
/// bytes, and without a leading zero when it is numeric.
pub open spec fn valid_ident(id: Seq<u8>) -> bool {
    &&& id.len() > 0
    &&& forall|i: int| 0 <= i < id.len() ==> is_ident_byte(#[trigger] id[i])
    &&& (is_numeric(id) && id.len() > 1 ==> id[0] != 48)
}

/// Every identifier of the pre-release is well formed.
pub open spec fn valid_pre(p: Seq<Seq<u8>>) -> bool {
    forall|i: int| 0 <= i < p.len() ==> valid_ident(#[trigger] p[i])
}

/// The `Ordering` that a -1/0/1 comparison result stands for.
pub open spec fn ordering_of(c: int) -> Ordering {
    if c < 0 {
        Ordering::Less
    } else if c == 0 {
        Ordering::Equal
    } else {
        Ordering::Greater
    }
}

/// The identifier `0`, the least identifier of all.
pub open spec fn zero_ident() -> Seq<u8> {
    seq![48u8]
}

/// The pre-release `0`, the least pre-release of all.
pub open spec fn zero_pre() -> Seq<Seq<u8>> {
    seq![zero_ident()]
}

/// The immediate successor of a pre-release: the same identifiers followed
/// by `0`.
pub open spec fn pre_successor(p: Seq<Seq<u8>>) -> Seq<Seq<u8>> {
    p.push(zero_ident())
}

/// Lexicographic byte order of two identifiers from position `i` on:
/// -1, 0 or 1.
pub open spec fn lex_order_from(a: Seq<u8>, b: Seq<u8>, i: int) -> int
    decreases a.len() - i,
{
    if i >= a.len() {
        if i >= b.len() {
            0
        } else {
            -1
        }
    } else if i >= b.len() {
        1
    } else if a[i] < b[i] {
        -1
    } else if a[i] > b[i] {
        1
    } else {
        lex_order_from(a, b, i + 1)
    }
}

/// Lexicographic (ASCII) order of two byte strings.
pub open spec fn lex_order(a: Seq<u8>, b: Seq<u8>) -> int {
    lex_order_from(a, b, 0)
}

/// Order of two identifiers: numeric ones by value (length, then digits),
/// numeric below alphanumeric, alphanumeric ones by ASCII order.
pub open spec fn ident_order(a: Seq<u8>, b: Seq<u8>) -> int {
    if is_numeric(a) && is_numeric(b) {
        if a.len() < b.len() {
            -1
        } else if a.len() > b.len() {
            1
        } else {
            lex_order(a, b)
        }
    } else if is_numeric(a) {
        -1
    } else if is_numeric(b) {
        1
    } else {
        lex_order(a, b)
    }
}

/// Order of two identifier lists from position `i` on.
pub open spec fn ids_order_from(a: Seq<Seq<u8>>, b: Seq<Seq<u8>>, i: int) -> int
    decreases a.len() - i,
{
    if i >= a.len() {
        if i >= b.len() {
            0
        } else {
            -1
        }
    } else if i >= b.len() {
        1
    } else if ident_order(a[i], b[i]) != 0 {
        ident_order(a[i], b[i])
    } else {
        ids_order_from(a, b, i + 1)
    }
}

/// Precedence order of two pre-releases, -1, 0 or 1, where the empty
/// pre-release (an ordinary release) is above every other.
pub open spec fn pre_order(a: Seq<Seq<u8>>, b: Seq<Seq<u8>>) -> int {
    if a.len() == 0 {
        if b.len() == 0 {
            0
        } else {
            1
        }
    } else if b.len() == 0 {
        -1
    } else {
        ids_order_from(a, b, 0)
    }
}

pub(crate) proof fn lemma_lex_basic(a: Seq<u8>, b: Seq<u8>, i: int)
    requires
        0 <= i <= a.len(),
        i <= b.len(),
    ensures
        lex_order_from(a, b, i) == -lex_order_from(b, a, i),
        -1 <= lex_order_from(a, b, i) <= 1,
        lex_order_from(a, b, i) == 0 ==> a.len() == b.len() && forall|j: int|
            i <= j < a.len() ==> a[j] == b[j],
    decreases a.len() - i,
{
    if i < a.len() && i < b.len() && a[i] == b[i] {
        lemma_lex_basic(a, b, i + 1);
    }
}

proof fn lemma_lex_trans(a: Seq<u8>, b: Seq<u8>, c: Seq<u8>, i: int)
    requires
        0 <= i <= a.len(),
        i <= b.len(),
        i <= c.len(),
        lex_order_from(a, b, i) <= 0,
        lex_order_from(b, c, i) <= 0,
    ensures
        lex_order_from(a, c, i) <= 0,
        lex_order_from(a, b, i) < 0 || lex_order_from(b, c, i) < 0 ==> lex_order_from(a, c, i) < 0,
    decreases a.len() - i,
{
    if i < a.len() && i < b.len() && i < c.len() && a[i] == b[i] && b[i] == c[i] {
        lemma_lex_trans(a, b, c, i + 1);
    }
}

proof fn lemma_ident_basic(a: Seq<u8>, b: Seq<u8>)
    ensures
        ident_order(a, b) == -ident_order(b, a),
        -1 <= ident_order(a, b) <= 1,
        ident_order(a, b) == 0 ==> a == b,
{
    lemma_lex_basic(a, b, 0);
    if ident_order(a, b) == 0 {
        assert(a =~= b);
    }
}

proof fn lemma_ident_trans(a: Seq<u8>, b: Seq<u8>, c: Seq<u8>)
    requires
        ident_order(a, b) <= 0,
        ident_order(b, c) <= 0,
    ensures
        ident_order(a, c) <= 0,
        ident_order(a, b) < 0 || ident_order(b, c) < 0 ==> ident_order(a, c) < 0,
{
    if is_numeric(a) == is_numeric(b) && is_numeric(b) == is_numeric(c) {
        if a.len() == b.len() && b.len() == c.len() {
            lemma_lex_trans(a, b, c, 0);
        } else if !is_numeric(a) {
            lemma_lex_trans(a, b, c, 0);
        }
    }
}

proof fn lemma_ids_basic(a: Seq<Seq<u8>>, b: Seq<Seq<u8>>, i: int)
    requires
        0 <= i <= a.len(),
        i <= b.len(),
    ensures
        ids_order_from(a, b, i) == -ids_order_from(b, a, i),
        -1 <= ids_order_from(a, b, i) <= 1,
        ids_order_from(a, b, i) == 0 ==> a.len() == b.len() && forall|j: int|
            i <= j < a.len() ==> a[j] == b[j],
    decreases a.len() - i,
{
    if i < a.len() && i < b.len() {
        lemma_ident_basic(a[i], b[i]);
        if ident_order(a[i], b[i]) == 0 {
            lemma_ids_basic(a, b, i + 1);
        }
    }
}

proof fn lemma_ids_trans(a: Seq<Seq<u8>>, b: Seq<Seq<u8>>, c: Seq<Seq<u8>>, i: int)
    requires
        0 <= i <= a.len(),
        i <= b.len(),
        i <= c.len(),
        ids_order_from(a, b, i) <= 0,
        ids_order_from(b, c, i) <= 0,
    ensures
        ids_order_from(a, c, i) <= 0,
        ids_order_from(a, b, i) < 0 || ids_order_from(b, c, i) < 0 ==> ids_order_from(a, c, i)
            < 0,
    decreases a.len() - i,
{
    if i < a.len() && i < b.len() && i < c.len() {
        lemma_ident_basic(a[i], b[i]);
        lemma_ident_basic(b[i], c[i]);
        lemma_ident_basic(a[i], c[i]);
        if ident_order(a[i], b[i]) == 0 && ident_order(b[i], c[i]) == 0 {
            lemma_ids_trans(a, b, c, i + 1);
        } else {
            lemma_ident_trans(a[i], b[i], c[i]);
        }
    }
}

/// The pre-release order is antisymmetric and its results are -1, 0 or 1;
/// two pre-releases of order 0 are the same pre-release.
pub proof fn lemma_pre_order_basic(a: Seq<Seq<u8>>, b: Seq<Seq<u8>>)
    ensures
        pre_order(a, b) == -pre_order(b, a),
        -1 <= pre_order(a, b) <= 1,
        pre_order(a, b) == 0 ==> a == b,
        a == b ==> pre_order(a, b) == 0,
{
    if a.len() > 0 && b.len() > 0 {
        lemma_ids_basic(a, b, 0);
        if pre_order(a, b) == 0 {
            assert(a =~= b);
        }
        if a == b {
            lemma_ids_basic(a, a, 0);
            assert(ids_order_from(a, a, 0) == 0);
        }
    }
}

/// The pre-release order is transitive, strictly so when one step is
/// strict.
pub proof fn lemma_pre_order_trans(a: Seq<Seq<u8>>, b: Seq<Seq<u8>>, c: Seq<Seq<u8>>)
    requires
        pre_order(a, b) <= 0,
        pre_order(b, c) <= 0,
    ensures
        pre_order(a, c) <= 0,
        pre_order(a, b) < 0 || pre_order(b, c) < 0 ==> pre_order(a, c) < 0,
{
    if a.len() > 0 && b.len() > 0 && c.len() > 0 {
        lemma_ids_trans(a, b, c, 0);
    }
}

proof fn lemma_zero_ident_least(q: Seq<u8>)
    requires
        q.len() > 0,
    ensures
        ident_order(zero_ident(), q) <= 0,
        ident_order(zero_ident(), q) == 0 ==> q == zero_ident(),
{
    let z = zero_ident();
    assert(is_numeric(z));
    if is_numeric(q) && q.len() == 1 {
        assert(is_digit(q[0]));
        if q[0] == 48 {
            assert(lex_order_from(z, q, 1) == 0);
            assert(q =~= z);
        }
    }
}

/// The pre-release `0` is below or equal to every well-formed pre-release.
pub proof fn lemma_zero_pre_least(p: Seq<Seq<u8>>)
    requires
        valid_pre(p),
        p.len() > 0,
    ensures
        pre_order(zero_pre(), p) <= 0,
{
    let z = zero_pre();
    assert(valid_ident(p[0]));
    lemma_zero_ident_least(p[0]);
    assert(z[0] == zero_ident());
    if ident_order(z[0], p[0]) == 0 {
        assert(ids_order_from(z, p, 0) == ids_order_from(z, p, 1));
        assert(ids_order_from(z, p, 1) <= 0);
    }
}

proof fn lemma_successor_from(x: Seq<Seq<u8>>, p: Seq<Seq<u8>>, i: int)
    requires
        0 <= i <= x.len(),
        i <= p.len(),
        valid_pre(p),
        ids_order_from(x, p, i) < 0,
    ensures
        ids_order_from(pre_successor(x), p, i) <= 0,
    decreases x.len() - i,
{
    let s = pre_successor(x);
    if i == x.len() {
        assert(valid_ident(p[i]));
        lemma_zero_ident_least(p[i]);
        assert(s[i] == zero_ident());
        if ident_order(s[i], p[i]) == 0 {
            assert(ids_order_from(s, p, i) == ids_order_from(s, p, i + 1));
        }
    } else {
        assert(s[i] == x[i]);
        if ident_order(x[i], p[i]) == 0 {
            lemma_successor_from(x, p, i + 1);
        }
    }
}

/// `p.0` is the immediate successor of `p`: it is above `p`, and every
/// well-formed pre-release above `p` is at or above `p.0`.
pub proof fn lemma_pre_successor(x: Seq<Seq<u8>>, p: Seq<Seq<u8>>)
    requires
        x.len() > 0,
        valid_pre(p),
    ensures
        pre_order(x, pre_successor(x)) < 0,
        pre_order(x, p) < 0 ==> pre_order(pre_successor(x), p) <= 0,
{
    lemma_successor_above(x, 0);
    if pre_order(x, p) < 0 && p.len() > 0 {
        lemma_successor_from(x, p, 0);
    }
}

proof fn lemma_successor_above(x: Seq<Seq<u8>>, i: int)
    requires
        0 <= i <= x.len(),
    ensures
        ids_order_from(x, pre_successor(x), i) < 0,
    decreases x.len() - i,
{
    let s = pre_successor(x);
    if i < x.len() {
        assert(s[i] == x[i]);
        lemma_ident_basic(x[i], x[i]);
        lemma_successor_above(x, i + 1);
    }
}

/// A pre-release version label such as `alpha.1`: its dot-separated
/// identifiers, each kept as its ASCII bytes.
#[derive(Debug, PartialEq, Eq, Hash)]
pub struct Prerelease {
    idents: Vec<Vec<u8>>,
}

impl View for Prerelease {
    type V = Seq<Seq<u8>>;

    closed spec fn view(&self) -> Seq<Seq<u8>> {
        self.idents@.map_values(|id: Vec<u8>| id@)
    }
}

impl Prerelease {
    /// Every identifier of a pre-release is well formed.
    #[verifier::type_invariant]
    spec fn identifiers_valid(self) -> bool {
        valid_pre(self@)
    }
}

/// A copy of a byte vector.
pub fn copy_bytes(v: &Vec<u8>) -> (r: Vec<u8>)
    ensures
        r@ == v@,
{
    let mut r: Vec<u8> = Vec::new();
    let mut i: usize = 0;
    while i < v.len()
        invariant
            i <= v.len(),
            r@ == v@.subrange(0, i as int),
        decreases v.len() - i,
    {
        r.push(v[i]);
        i += 1;
        assert(r@ =~= v@.subrange(0, i as int));
    }
    assert(r@ =~= v@);
    r
}

/// Lexicographic comparison of two byte strings: -1, 0 or 1.
pub fn compare_bytes(a: &Vec<u8>, b: &Vec<u8>) -> (r: i8)
    ensures
        r == lex_order(a@, b@),
{
    let mut i: usize = 0;
    while i < a.len() && i < b.len()
        invariant
            i <= a.len(),
            i <= b.len(),
            lex_order(a@, b@) == lex_order_from(a@, b@, i as int),
        decreases a.len() - i,
    {
        if a[i] < b[i] {
            return -1;
        }
        if a[i] > b[i] {
            return 1;
        }
        i += 1;
    }
    if i < b.len() {
        -1
    } else if i < a.len() {
        1
    } else {
        0
    }
}

/// Whether every byte is a decimal digit.
pub fn bytes_numeric(v: &Vec<u8>) -> (r: bool)
    ensures
        r == is_numeric(v@),
{
    let mut i: usize = 0;
    while i < v.len()
        invariant
            i <= v.len(),
            forall|j: int| 0 <= j < i ==> is_digit(#[trigger] v@[j]),
        decreases v.len() - i,
    {
        if v[i] < 48 || v[i] > 57 {
            assert(!is_digit(v@[i as int]));
            return false;
        }
        i += 1;
    }
    true
}

/// Comparison of two identifiers in pre-release precedence: -1, 0 or 1.
pub fn compare_ident(a: &Vec<u8>, b: &Vec<u8>) -> (r: i8)
    ensures
        r == ident_order(a@, b@),
{
    let na = bytes_numeric(a);
    let nb = bytes_numeric(b);
    if na && nb {
        if a.len() < b.len() {
            -1
        } else if a.len() > b.len() {
            1
        } else {
            compare_bytes(a, b)
        }
    } else if na {
        -1
    } else if nb {
        1
    } else {
        compare_bytes(a, b)
    }
}

impl Clone for Prerelease {
    fn clone(&self) -> (r: Self)
        ensures
            r@ == self@,
    {
        let mut idents: Vec<Vec<u8>> = Vec::new();
        let mut i: usize = 0;
        while i < self.idents.len()
            invariant
                i <= self.idents.len(),
                idents@.len() == i,
                forall|j: int| 0 <= j < i ==> (#[trigger] idents@[j])@ == self.idents@[j]@,
            decreases self.idents.len() - i,
        {
            idents.push(copy_bytes(&self.idents[i]));
            i += 1;
        }
        proof {
            use_type_invariant(self);
            assert(idents@.map_values(|id: Vec<u8>| id@) =~= self@);
        }
        Prerelease { idents }
    }
}

impl Prerelease {
    /// The empty pre-release, carried by ordinary releases.
    pub fn empty() -> (r: Prerelease)
        ensures
            r@ == Seq::<Seq<u8>>::empty(),
    {
        let r = Prerelease { idents: Vec::new() };
        assert(r@ =~= Seq::<Seq<u8>>::empty());
        r
    }

    /// The pre-release `0`, the least of all pre-releases.
    pub fn zero() -> (r: Prerelease)
        ensures
            r@ == zero_pre(),
    {
        let mut id: Vec<u8> = Vec::new();
        id.push(48u8);
        let mut idents: Vec<Vec<u8>> = Vec::new();
        idents.push(id);
        let r = Prerelease { idents };
        assert(r@ =~= zero_pre());
        r
    }

    /// Builds a pre-release from identifiers already checked.
    pub(crate) fn from_idents(idents: Vec<Vec<u8>>) -> (r: Prerelease)
        requires
            valid_pre(idents@.map_values(|id: Vec<u8>| id@)),
        ensures
            r@ == idents@.map_values(|id: Vec<u8>| id@),
    {
        Prerelease { idents }
    }

    /// The identifiers, as byte vectors.
    pub fn idents(&self) -> (r: &Vec<Vec<u8>>)
        ensures
            r@.map_values(|id: Vec<u8>| id@) == self@,
    {
        &self.idents
    }

    /// Whether this is the empty pre-release.
    pub fn is_empty(&self) -> (r: bool)
        ensures
            r == (self@.len() == 0),
    {
        self.idents.len() == 0
    }

    /// Precedence comparison: -1, 0 or 1, with the empty pre-release above
    /// every other.
    pub fn compare(&self, other: &Prerelease) -> (r: i8)
        ensures
            r == pre_order(self@, other@),
    {
        let a = &self.idents;
        let b = &other.idents;
        if a.len() == 0 {
            return if b.len() == 0 {
                0
            } else {
                1
            };
        }
        if b.len() == 0 {
            return -1;
        }
        let mut i: usize = 0;
        while i < a.len() && i < b.len()
            invariant
                i <= a.len(),
                i <= b.len(),
                a@.len() == self@.len(),
                b@.len() == other@.len(),
                self@.len() > 0,
                other@.len() > 0,
                forall|j: int| 0 <= j < a@.len() ==> self@[j] == (#[trigger] a@[j])@,
                forall|j: int| 0 <= j < b@.len() ==> other@[j] == (#[trigger] b@[j])@,
                pre_order(self@, other@) == ids_order_from(self@, other@, i as int),
            decreases a.len() - i,
        {
            let c = compare_ident(&a[i], &b[i]);
            if c != 0 {
                return c;
            }
            i += 1;
        }
        if i < b.len() {
            -1
        } else if i < a.len() {
            1
        } else {
            0
        }
    }

    /// The immediate successor `p.0` of this pre-release.
    pub fn successor(&self) -> (r: Prerelease)
        ensures
            r@ == pre_successor(self@),
    {
        proof {
            use_type_invariant(self);
        }
        let mut idents: Vec<Vec<u8>> = Vec::new();
        let mut i: usize = 0;
        while i < self.idents.len()
            invariant
                i <= self.idents.len(),
                idents@.len() == i,
                forall|j: int| 0 <= j < i ==> (#[trigger] idents@[j])@ == self.idents@[j]@,
            decreases self.idents.len() - i,
        {
            idents.push(copy_bytes(&self.idents[i]));
            i += 1;
        }
        let mut id: Vec<u8> = Vec::new();
        id.push(48u8);
        idents.push(id);
        let ghost s = idents@.map_values(|id: Vec<u8>| id@);
        assert(s =~= pre_successor(self@)) by {
            assert forall|j: int| 0 <= j < self@.len() implies s[j] == self@[j] by {
                assert(self@[j] == self.idents@[j]@);
            }
            assert(s[self@.len() as int] =~= zero_ident());
        }
        assert(valid_ident(zero_ident())) by {
            assert(!is_numeric(zero_ident()) || zero_ident().len() == 1);
        }
        let r = Prerelease { idents };
        r
    }
}

} // verus!
