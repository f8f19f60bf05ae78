//! Strictly ascending, duplicate-free lists of triples and of
//! pre-releases, built by insertion.
use crate::prerelease::{lemma_pre_order_basic, lemma_pre_order_trans, pre_order, Prerelease};
use crate::satisfy::{compare_triples, Triple};
use crate::version::triple_order;
use vstd::prelude::*;

verus! {

/// The triples are strictly ascending.
pub open spec fn triples_ascending(s: Seq<Triple>) -> bool {
    forall|a: int, b: int|
        0 <= a < b < s.len() ==> #[trigger] triple_order(s[a].tuple(), s[b].tuple()) < 0
}

/// The pre-releases are strictly ascending in precedence.
pub open spec fn pres_ascending(s: Seq<Prerelease>) -> bool {
    forall|a: int, b: int| 0 <= a < b < s.len() ==> #[trigger] pre_order(s[a]@, s[b]@) < 0
}

/// Some element of `s` has the view `x`.
pub open spec fn has_pre_view(s: Seq<Prerelease>, x: Seq<Seq<u8>>) -> bool {
    exists|k: int| 0 <= k < s.len() && #[trigger] s[k]@ == x
}

/// Triple order is antisymmetric and transitive.
pub proof fn lemma_triple_order(a: (u64, u64, u64), b: (u64, u64, u64), c: (u64, u64, u64))
    ensures
        triple_order(a, b) == -triple_order(b, a),
        triple_order(a, b) == 0 <==> a == b,
        triple_order(a, b) <= 0 && triple_order(b, c) <= 0 ==> triple_order(a, c) <= 0,
        triple_order(a, b) < 0 && triple_order(b, c) <= 0 ==> triple_order(a, c) < 0,
        triple_order(a, b) <= 0 && triple_order(b, c) < 0 ==> triple_order(a, c) < 0,
{
}

/// Inserts `t` into a strictly ascending list unless it is already there.
pub(crate) fn insert_triple(v: &mut Vec<Triple>, t: Triple)
    requires
        triples_ascending(old(v)@),
    ensures
        triples_ascending(final(v)@),
        forall|x: Triple| #[trigger] final(v)@.contains(x) <==> (old(v)@.contains(x) || x == t),
{
    let mut i: usize = 0;
    while i < v.len() && compare_triples(v[i], t) < 0
        invariant
            i <= v.len(),
            v@ == old(v)@,
            triples_ascending(v@),
            forall|j: int| 0 <= j < i ==> triple_order((#[trigger] v@[j]).tuple(), t.tuple()) < 0,
        decreases v.len() - i,
    {
        i += 1;
    }
    if i < v.len() && compare_triples(v[i], t) == 0 {
        proof {
            lemma_triple_order(v@[i as int].tuple(), t.tuple(), t.tuple());
            assert(v@[i as int] == t);
        }
        return;
    }
    let ghost before = v@;
    proof {
        if i < v.len() {
            lemma_triple_order(v@[i as int].tuple(), t.tuple(), t.tuple());
            assert forall|j: int| i <= j < before.len() implies triple_order(
                t.tuple(),
                (#[trigger] before[j]).tuple(),
            ) < 0 by {
                if j > i {
                    lemma_triple_order(t.tuple(), before[i as int].tuple(), before[j].tuple());
                }
            }
        }
    }
    v.insert(i, t);
    proof {
        before.insert_ensures(i as int, t);
    }
    assert forall|a: int, b: int| 0 <= a < b < v@.len() implies #[trigger] triple_order(
        v@[a].tuple(),
        v@[b].tuple(),
    ) < 0 by {
        if b < i {
        } else if b == i {
        } else {
            let kb = b - 1;
            assert(v@[kb + 1] == before[kb]);
            if a < i {
                lemma_triple_order(v@[a].tuple(), t.tuple(), v@[b].tuple());
            } else if a > i {
                let ka = a - 1;
                assert(v@[ka + 1] == before[ka]);
            }
        }
    }
    assert forall|x: Triple| #[trigger] v@.contains(x) <==> (before.contains(x) || x == t) by {
        if v@.contains(x) {
            let k = choose|k: int| 0 <= k < v@.len() && v@[k] == x;
            if k < i {
                assert(before[k] == x);
            } else if k > i {
                assert(before[k - 1] == x);
            }
        }
        if before.contains(x) {
            let k = choose|k: int| 0 <= k < before.len() && before[k] == x;
            if k < i {
                assert(v@[k] == x);
            } else {
                assert(v@[k + 1] == x);
            }
        }
        if x == t {
            assert(v@[i as int] == x);
        }
    }
}

/// The distinct triples of `v`, in ascending order.
pub(crate) fn sorted_unique_triples(v: &Vec<Triple>) -> (r: Vec<Triple>)
    ensures
        triples_ascending(r@),
        forall|x: Triple| #[trigger] r@.contains(x) <==> v@.contains(x),
{
    let mut r: Vec<Triple> = Vec::new();
    let mut i: usize = 0;
    while i < v.len()
        invariant
            i <= v.len(),
            triples_ascending(r@),
            forall|x: Triple| #[trigger] r@.contains(x) <==> v@.subrange(0, i as int).contains(x),
        decreases v.len() - i,
    {
        insert_triple(&mut r, v[i]);
        proof {
            assert forall|x: Triple| #[trigger] r@.contains(x) <==> v@.subrange(
                0,
                i + 1,
            ).contains(x) by {
                let s = v@.subrange(0, i + 1);
                if s.contains(x) {
                    let k = choose|k: int| 0 <= k < s.len() && s[k] == x;
                    if k < i {
                        assert(v@.subrange(0, i as int)[k] == x);
                    }
                }
                if v@.subrange(0, i as int).contains(x) {
                    let k = choose|k: int| 0 <= k < i && v@.subrange(0, i as int)[k] == x;
                    assert(s[k] == x);
                }
                if x == v@[i as int] {
                    assert(s[i as int] == x);
                }
            }
        }
        i += 1;
    }
    assert(v@.subrange(0, v@.len() as int) =~= v@);
    r
}

/// Inserts `p` into a strictly ascending list of pre-releases unless one
/// with the same view is already there.
pub(crate) fn insert_pre(v: &mut Vec<Prerelease>, p: Prerelease)
    requires
        pres_ascending(old(v)@),
    ensures
        pres_ascending(final(v)@),
        forall|x: Seq<Seq<u8>>|
            #[trigger] has_pre_view(final(v)@, x) <==> (has_pre_view(old(v)@, x) || x == p@),
{
    let mut i: usize = 0;
    while i < v.len() && v[i].compare(&p) < 0
        invariant
            i <= v.len(),
            v@ == old(v)@,
            pres_ascending(v@),
            forall|j: int| 0 <= j < i ==> pre_order((#[trigger] v@[j])@, p@) < 0,
        decreases v.len() - i,
    {
        i += 1;
    }
    if i < v.len() && v[i].compare(&p) == 0 {
        proof {
            lemma_pre_order_basic(v@[i as int]@, p@);
            assert forall|x: Seq<Seq<u8>>| #[trigger]
                has_pre_view(v@, x) <==> (has_pre_view(old(v)@, x) || x == p@) by {
                if x == p@ {
                    assert(v@[i as int]@ == x);
                }
            }
        }
        return;
    }
    let ghost before = v@;
    proof {
        if i < v.len() {
            lemma_pre_order_basic(v@[i as int]@, p@);
            assert forall|j: int| i <= j < before.len() implies pre_order(
                p@,
                (#[trigger] before[j])@,
            ) < 0 by {
                if j > i {
                    lemma_pre_order_basic(before[i as int]@, before[j]@);
                    lemma_pre_order_trans(p@, before[i as int]@, before[j]@);
                }
            }
        }
    }
    let ghost pv = p;
    v.insert(i, p);
    proof {
        before.insert_ensures(i as int, pv);
    }
    assert forall|a: int, b: int| 0 <= a < b < v@.len() implies #[trigger] pre_order(
        v@[a]@,
        v@[b]@,
    ) < 0 by {
        if b < i {
        } else if b == i {
        } else {
            let kb = b - 1;
            assert(v@[kb + 1] == before[kb]);
            if a < i {
                lemma_pre_order_trans(v@[a]@, pv@, v@[b]@);
            } else if a > i {
                let ka = a - 1;
                assert(v@[ka + 1] == before[ka]);
            }
        }
    }
    assert forall|x: Seq<Seq<u8>>| #[trigger]
        has_pre_view(v@, x) <==> (has_pre_view(before, x) || x == p@) by {
        if has_pre_view(v@, x) {
            let k = choose|k: int| 0 <= k < v@.len() && v@[k]@ == x;
            if k < i {
                assert(before[k]@ == x);
            } else if k > i {
                assert(before[k - 1]@ == x);
            }
        }
        if has_pre_view(before, x) {
            let k = choose|k: int| 0 <= k < before.len() && before[k]@ == x;
            if k < i {
                assert(v@[k]@ == x);
            } else {
                assert(v@[k + 1]@ == x);
            }
        }
        if x == p@ {
            assert(v@[i as int]@ == x);
        }
    }
}

/// The distinct pre-releases of `v`, in ascending precedence order.
pub(crate) fn sorted_unique_pres(v: Vec<Prerelease>) -> (r: Vec<Prerelease>)
    ensures
        pres_ascending(r@),
        forall|x: Seq<Seq<u8>>| #[trigger] has_pre_view(r@, x) <==> has_pre_view(v@, x),
{
    let mut r: Vec<Prerelease> = Vec::new();
    let mut i: usize = 0;
    while i < v.len()
        invariant
            i <= v.len(),
            pres_ascending(r@),
            forall|x: Seq<Seq<u8>>| #[trigger]
                has_pre_view(r@, x) <==> has_pre_view(v@.subrange(0, i as int), x),
        decreases v.len() - i,
    {
        insert_pre(&mut r, v[i].clone());
        proof {
            assert forall|x: Seq<Seq<u8>>| #[trigger]
                has_pre_view(r@, x) <==> has_pre_view(v@.subrange(0, i + 1), x) by {
                let s = v@.subrange(0, i + 1);
                if has_pre_view(s, x) {
                    let k = choose|k: int| 0 <= k < s.len() && s[k]@ == x;
                    if k < i {
                        assert(v@.subrange(0, i as int)[k]@ == x);
                    }
                }
                if has_pre_view(v@.subrange(0, i as int), x) {
                    let k = choose|k: int|
                        0 <= k < i && v@.subrange(0, i as int)[k]@ == x;
                    assert(s[k]@ == x);
                }
                if x == v@[i as int]@ {
                    assert(s[i as int]@ == x);
                }
            }
        }
        i += 1;
    }
    assert(v@.subrange(0, v@.len() as int) =~= v@);
    r
}

} // verus!
