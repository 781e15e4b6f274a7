//! Lexicographic order on byte strings, the order in which every transducer
//! expects its keys.

use vstd::prelude::*;

verus! {

/// How one byte string stands to another in lexicographic order.
#[derive(Clone, Copy, Debug, PartialEq, Eq, Structural)]
pub enum Rank {
    Before,
    Same,
    After,
}

/// `a` and `b` agree on their first `k` bytes, and at position `k` either `a`
/// has ended while `b` goes on, or `a` holds the smaller byte.
pub open spec fn precedes_at(a: Seq<u8>, b: Seq<u8>, k: int) -> bool {
    &&& 0 <= k <= a.len()
    &&& k < b.len()
    &&& forall|i: int| 0 <= i < k ==> a[i] == b[i]
    &&& (k < a.len() ==> a[k] < b[k])
}

/// Strict lexicographic order: a proper prefix comes first, otherwise the
/// first differing byte decides.
pub open spec fn lex_lt(a: Seq<u8>, b: Seq<u8>) -> bool {
    exists|k: int| precedes_at(a, b, k)
}

/// Every element is strictly below all later ones.
pub open spec fn strictly_increasing(s: Seq<Seq<u8>>) -> bool {
    forall|i: int, j: int| 0 <= i < j < s.len() ==> lex_lt(#[trigger] s[i], #[trigger] s[j])
}

/// No byte string is below itself, and no two are below each other.
pub proof fn lemma_lex_lt_asymmetric(a: Seq<u8>, b: Seq<u8>)
    requires
        lex_lt(a, b),
    ensures
        !lex_lt(b, a),
        a != b,
{
    let k = choose|k: int| precedes_at(a, b, k);
    if lex_lt(b, a) {
        let m = choose|m: int| precedes_at(b, a, m);
        if k < m {
            assert(b[k] == a[k]);
        } else if m < k {
            assert(a[m] == b[m]);
        }
    }
}

/// The order is transitive.
pub proof fn lemma_lex_lt_transitive(a: Seq<u8>, b: Seq<u8>, c: Seq<u8>)
    requires
        lex_lt(a, b),
        lex_lt(b, c),
    ensures
        lex_lt(a, c),
{
    let k = choose|k: int| precedes_at(a, b, k);
    let m = choose|m: int| precedes_at(b, c, m);
    let n = if k <= m { k } else { m };
    assert forall|i: int| 0 <= i < n implies a[i] == c[i] by {
        assert(a[i] == b[i]);
        assert(b[i] == c[i]);
    }
    if k < m {
        assert(b[k] == c[k]);
    }
    assert(precedes_at(a, c, n));
}

proof fn lemma_trichotomy_from(a: Seq<u8>, b: Seq<u8>, k: int)
    requires
        0 <= k <= a.len(),
        k <= b.len(),
        forall|i: int| 0 <= i < k ==> a[i] == b[i],
    ensures
        lex_lt(a, b) || a == b || lex_lt(b, a),
    decreases a.len() - k,
{
    if k == a.len() {
        if k == b.len() {
            assert(a =~= b);
        } else {
            assert(precedes_at(a, b, k));
        }
    } else if k == b.len() {
        assert(precedes_at(b, a, k));
    } else if a[k] < b[k] {
        assert(precedes_at(a, b, k));
    } else if b[k] < a[k] {
        assert(precedes_at(b, a, k));
    } else {
        lemma_trichotomy_from(a, b, k + 1);
    }
}

/// Any two byte strings are equal or one is below the other.
pub proof fn lemma_lex_trichotomy(a: Seq<u8>, b: Seq<u8>)
    ensures
        lex_lt(a, b) || a == b || lex_lt(b, a),
{
    lemma_trichotomy_from(a, b, 0);
}

/// With heads of equal length, the order of the heads decides the order of
/// the whole strings, whatever follows.
pub proof fn lemma_lex_lt_by_head(p: Seq<u8>, q: Seq<u8>, s: Seq<u8>, t: Seq<u8>)
    requires
        p.len() == q.len(),
        lex_lt(p, q),
    ensures
        lex_lt(p + s, q + t),
{
    let k = choose|k: int| precedes_at(p, q, k);
    assert forall|i: int| 0 <= i < k implies (p + s)[i] == (q + t)[i] by {
        assert(p[i] == q[i]);
    }
    assert((p + s)[k] == p[k]);
    assert((q + t)[k] == q[k]);
    assert(precedes_at(p + s, q + t, k));
}

/// Behind a common head, the order of the tails decides.
pub proof fn lemma_lex_lt_by_tail(p: Seq<u8>, s: Seq<u8>, t: Seq<u8>)
    requires
        lex_lt(s, t),
    ensures
        lex_lt(p + s, p + t),
{
    let k = choose|k: int| precedes_at(s, t, k);
    let n = p.len() + k;
    assert forall|i: int| 0 <= i < n implies (p + s)[i] == (p + t)[i] by {
        if i >= p.len() {
            assert(s[i - p.len()] == t[i - p.len()]);
        }
    }
    if k < s.len() {
        assert((p + s)[n] == s[k]);
    }
    assert((p + t)[n] == t[k]);
    assert(precedes_at(p + s, p + t, n));
}

/// Compares two byte strings lexicographically.
pub fn compare_bytes(a: &[u8], b: &[u8]) -> (r: Rank)
    ensures
        r is Before <==> lex_lt(a@, b@),
        r is Same <==> a@ == b@,
        r is After <==> lex_lt(b@, a@),
{
    let mut i: usize = 0;
    while i < a.len() && i < b.len()
        invariant
            i <= a.len(),
            i <= b.len(),
            forall|j: int| 0 <= j < i ==> a@[j] == b@[j],
        decreases a.len() - i,
    {
        if a[i] < b[i] {
            proof {
                assert(precedes_at(a@, b@, i as int));
                lemma_lex_lt_asymmetric(a@, b@);
            }
            return Rank::Before;
        }
        if b[i] < a[i] {
            proof {
                assert(precedes_at(b@, a@, i as int));
                lemma_lex_lt_asymmetric(b@, a@);
            }
            return Rank::After;
        }
        i += 1;
    }
    if i < b.len() {
        proof {
            assert(precedes_at(a@, b@, i as int));
            lemma_lex_lt_asymmetric(a@, b@);
        }
        Rank::Before
    } else if i < a.len() {
        proof {
            assert(precedes_at(b@, a@, i as int));
            lemma_lex_lt_asymmetric(b@, a@);
        }
        Rank::After
    } else {
        proof {
            assert(a@ =~= b@);
            if lex_lt(a@, b@) {
                lemma_lex_lt_asymmetric(a@, b@);
            }
        }
        Rank::Same
    }
}

/// `s` lists the members of `dom` in ascending order, each once.
pub open spec fn lists(s: Seq<Seq<u8>>, dom: Set<Seq<u8>>) -> bool {
    &&& strictly_increasing(s)
    &&& forall|k: Seq<u8>| s.contains(k) <==> dom.contains(k)
}

/// The members of a finite set of byte strings in ascending order.
pub open spec fn ascending(dom: Set<Seq<u8>>) -> Seq<Seq<u8>> {
    choose|s: Seq<Seq<u8>>| lists(s, dom)
}

/// The position of `k` in the ascending listing of `dom`.
pub open spec fn rank_in(dom: Set<Seq<u8>>, k: Seq<u8>) -> int {
    ascending(dom).index_of(k)
}

/// In an ascending sequence no element occurs twice, so each element is
/// found at its own position.
pub proof fn lemma_position_unique(s: Seq<Seq<u8>>, i: int)
    requires
        strictly_increasing(s),
        0 <= i < s.len(),
    ensures
        s.contains(s[i]),
        s.index_of(s[i]) == i,
{
    let j = s.index_of(s[i]);
    assert(s[i] == s[i]);
    assert(s.contains(s[i]));
    assert(0 <= j < s.len() && s[j] == s[i]);
    if j < i {
        lemma_lex_lt_asymmetric(s[j], s[i]);
    } else if i < j {
        lemma_lex_lt_asymmetric(s[i], s[j]);
    }
}

/// A set has at most one ascending listing.
pub proof fn lemma_listing_unique(s: Seq<Seq<u8>>, t: Seq<Seq<u8>>, dom: Set<Seq<u8>>)
    requires
        lists(s, dom),
        lists(t, dom),
    ensures
        s == t,
    decreases s.len(),
{
    if s.len() == 0 {
        if t.len() > 0 {
            assert(t.contains(t[0]));
            assert(s.contains(t[0]));
        }
        assert(s =~= t);
    } else {
        let a = s.last();
        assert(s.contains(a));
        assert(t.contains(a));
        let j = t.index_of(a);
        let b = t.last();
        assert(t.contains(b));
        assert(s.contains(b));
        let i = s.index_of(b);
        if j < t.len() - 1 {
            // `a` would be below `b`, the last of `t`, which is `a` or below it.
            if i < s.len() - 1 {
                lemma_lex_lt_transitive(t[j], t.last(), s.last());
                lemma_lex_lt_asymmetric(a, a);
            } else {
                lemma_lex_lt_asymmetric(t[j], t.last());
            }
        }
        assert(a == b);
        let s1 = s.drop_last();
        let t1 = t.drop_last();
        let dom1 = dom.remove(a);
        assert forall|k: Seq<u8>| s1.contains(k) <==> dom1.contains(k) by {
            if s1.contains(k) {
                let m = s1.index_of(k);
                assert(s[m] == k);
                assert(s.contains(k));
                lemma_lex_lt_asymmetric(s[m], s.last());
            }
            if dom1.contains(k) {
                assert(s.contains(k));
                let m = s.index_of(k);
                assert(s1[m] == k);
            }
        }
        assert forall|k: Seq<u8>| t1.contains(k) <==> dom1.contains(k) by {
            if t1.contains(k) {
                let m = t1.index_of(k);
                assert(t[m] == k);
                assert(t.contains(k));
                lemma_lex_lt_asymmetric(t[m], t.last());
            }
            if dom1.contains(k) {
                assert(t.contains(k));
                let m = t.index_of(k);
                assert(t1[m] == k);
            }
        }
        assert(strictly_increasing(s1)) by {
            assert forall|x: int, y: int| 0 <= x < y < s1.len() implies lex_lt(
                #[trigger] s1[x],
                #[trigger] s1[y],
            ) by {
                assert(lex_lt(s[x], s[y]));
            }
        }
        assert(strictly_increasing(t1)) by {
            assert forall|x: int, y: int| 0 <= x < y < t1.len() implies lex_lt(
                #[trigger] t1[x],
                #[trigger] t1[y],
            ) by {
                assert(lex_lt(t[x], t[y]));
            }
        }
        lemma_listing_unique(s1, t1, dom1);
        assert(s =~= s1.push(a));
        assert(t =~= t1.push(b));
    }
}

/// Whatever lists a set in ascending order is its ascending listing.
pub proof fn lemma_ascending_is(s: Seq<Seq<u8>>, dom: Set<Seq<u8>>)
    requires
        lists(s, dom),
    ensures
        ascending(dom) == s,
{
    lemma_listing_unique(ascending(dom), s, dom);
}

/// `s` with `x` put in at its place in the order.
pub open spec fn with_member(s: Seq<Seq<u8>>, x: Seq<u8>) -> Seq<Seq<u8>>
    decreases s.len(),
{
    if s.len() == 0 || lex_lt(s.last(), x) {
        s.push(x)
    } else {
        with_member(s.drop_last(), x).push(s.last())
    }
}

proof fn lemma_with_member(s: Seq<Seq<u8>>, x: Seq<u8>)
    requires
        strictly_increasing(s),
        !s.contains(x),
    ensures
        strictly_increasing(with_member(s, x)),
        with_member(s, x).len() == s.len() + 1,
        with_member(s, x).last() == (if s.len() == 0 || lex_lt(s.last(), x) {
            x
        } else {
            s.last()
        }),
        forall|k: Seq<u8>| with_member(s, x).contains(k) <==> s.contains(k) || k == x,
    decreases s.len(),
{
    let r = with_member(s, x);
    if s.len() == 0 || lex_lt(s.last(), x) {
        assert forall|i: int, j: int| 0 <= i < j < r.len() implies lex_lt(
            #[trigger] r[i],
            #[trigger] r[j],
        ) by {
            if j < s.len() {
                assert(lex_lt(s[i], s[j]));
            } else if i < s.len() - 1 {
                assert(lex_lt(s[i], s[s.len() - 1]));
                lemma_lex_lt_transitive(s[i], s.last(), x);
            }
        }
        assert forall|k: Seq<u8>| r.contains(k) <==> s.contains(k) || k == x by {
            if r.contains(k) {
                let i = r.index_of(k);
                if i < s.len() {
                    assert(s[i] == k);
                }
            }
            if s.contains(k) {
                let i = s.index_of(k);
                assert(r[i] == k);
            }
            if k == x {
                assert(r[s.len() as int] == k);
            }
        }
    } else {
        let init = s.drop_last();
        let last = s.last();
        assert(strictly_increasing(init)) by {
            assert forall|i: int, j: int| 0 <= i < j < init.len() implies lex_lt(
                #[trigger] init[i],
                #[trigger] init[j],
            ) by {
                assert(lex_lt(s[i], s[j]));
            }
        }
        assert(!init.contains(x)) by {
            if init.contains(x) {
                let i = init.index_of(x);
                assert(s[i] == x);
            }
        }
        lemma_with_member(init, x);
        let w = with_member(init, x);
        assert(s.contains(last)) by {
            assert(s[s.len() - 1] == last);
        }
        lemma_lex_trichotomy(last, x);
        assert(lex_lt(x, last));
        assert(lex_lt(w.last(), last)) by {
            if !(init.len() == 0 || lex_lt(init.last(), x)) {
                assert(lex_lt(s[s.len() - 2], s[s.len() - 1]));
            }
        }
        assert forall|i: int, j: int| 0 <= i < j < r.len() implies lex_lt(
            #[trigger] r[i],
            #[trigger] r[j],
        ) by {
            if j < w.len() {
                assert(lex_lt(w[i], w[j]));
            } else if i < w.len() - 1 {
                assert(lex_lt(w[i], w[w.len() - 1]));
                lemma_lex_lt_transitive(w[i], w.last(), last);
            }
        }
        assert forall|k: Seq<u8>| r.contains(k) <==> s.contains(k) || k == x by {
            if r.contains(k) {
                let i = r.index_of(k);
                if i < w.len() {
                    assert(w[i] == k);
                    assert(w.contains(k));
                    if init.contains(k) {
                        let m = init.index_of(k);
                        assert(s[m] == k);
                    }
                }
            }
            if s.contains(k) {
                let i = s.index_of(k);
                if i < init.len() {
                    assert(init[i] == k);
                    assert(init.contains(k));
                    assert(w.contains(k));
                    let m = w.index_of(k);
                    assert(r[m] == k);
                } else {
                    assert(r[w.len() as int] == k);
                }
            }
            if k == x {
                assert(w.contains(k));
                let m = w.index_of(k);
                assert(r[m] == k);
            }
        }
    }
}

/// Every finite set of byte strings has an ascending listing, and
/// `ascending` is it.
pub proof fn lemma_ascending_lists(dom: Set<Seq<u8>>)
    requires
        dom.finite(),
    ensures
        lists(ascending(dom), dom),
        ascending(dom).len() == dom.len(),
    decreases dom.len(),
{
    if dom.len() == 0 {
        let s = Seq::<Seq<u8>>::empty();
        assert(dom =~= Set::<Seq<u8>>::empty());
        assert(lists(s, dom));
        lemma_ascending_is(s, dom);
    } else {
        let x = dom.choose();
        let rest = dom.remove(x);
        lemma_ascending_lists(rest);
        let s = ascending(rest);
        lemma_with_member(s, x);
        let r = with_member(s, x);
        assert forall|k: Seq<u8>| r.contains(k) <==> dom.contains(k) by {}
        assert(lists(r, dom));
        lemma_ascending_is(r, dom);
    }
}

/// The rank of a member is its position in the ascending listing, and no
/// other member has that rank. A member that is below another has the
/// smaller rank.
pub proof fn lemma_rank(dom: Set<Seq<u8>>, k: Seq<u8>)
    requires
        dom.finite(),
        dom.contains(k),
    ensures
        0 <= rank_in(dom, k) < dom.len(),
        ascending(dom)[rank_in(dom, k)] == k,
        forall|i: int| 0 <= i < ascending(dom).len() && ascending(dom)[i] == k ==> i == rank_in(dom, k),
        forall|m: Seq<u8>| dom.contains(m) && lex_lt(k, m) ==> rank_in(dom, k) < rank_in(dom, m),
{
    lemma_ascending_lists(dom);
    let s = ascending(dom);
    assert(s.contains(k));
    let r = s.index_of(k);
    assert forall|i: int| 0 <= i < s.len() && s[i] == k implies i == r by {
        lemma_position_unique(s, i);
    }
    assert forall|m: Seq<u8>| dom.contains(m) && lex_lt(k, m) implies r < rank_in(dom, m) by {
        assert(s.contains(m));
        let q = s.index_of(m);
        if q < r {
            lemma_lex_lt_asymmetric(s[q], s[r]);
        } else if q == r {
            lemma_lex_lt_asymmetric(k, m);
        }
    }
}

} // verus!
