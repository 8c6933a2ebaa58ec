//! Lexicographic order on text (the order of `str`'s `Ord`: UTF-8 bytes compare
//! in code-point order) and sorted, duplicate-free string vectors.

use vstd::prelude::*;

verus! {

/// `a` sorts strictly before `b`.
pub open spec fn lex_lt(a: Seq<char>, b: Seq<char>) -> bool
    decreases a.len(),
{
    if a.len() == 0 {
        b.len() > 0
    } else if b.len() == 0 {
        false
    } else if a[0] != b[0] {
        a[0] < b[0]
    } else {
        lex_lt(a.drop_first(), b.drop_first())
    }
}

/// A strictly increasing (hence duplicate-free) sequence of texts.
pub open spec fn strictly_sorted(s: Seq<Seq<char>>) -> bool {
    forall|i: int, j: int| 0 <= i < j < s.len() ==> lex_lt(s[i], s[j])
}

pub proof fn lemma_lex_irrefl(a: Seq<char>)
    ensures
        !lex_lt(a, a),
    decreases a.len(),
{
    if a.len() > 0 {
        lemma_lex_irrefl(a.drop_first());
    }
}

pub proof fn lemma_lex_trans(a: Seq<char>, b: Seq<char>, c: Seq<char>)
    requires
        lex_lt(a, b),
        lex_lt(b, c),
    ensures
        lex_lt(a, c),
    decreases a.len(),
{
    if a.len() > 0 && b.len() > 0 && c.len() > 0 {
        if a[0] == b[0] && b[0] == c[0] {
            lemma_lex_trans(a.drop_first(), b.drop_first(), c.drop_first());
        }
    }
}

pub proof fn lemma_lex_total(a: Seq<char>, b: Seq<char>)
    ensures
        a == b || lex_lt(a, b) || lex_lt(b, a),
    decreases a.len(),
{
    if a.len() > 0 && b.len() > 0 {
        if a[0] == b[0] {
            lemma_lex_total(a.drop_first(), b.drop_first());
            if a.drop_first() == b.drop_first() {
                assert(a =~= seq![a[0]] + a.drop_first());
                assert(b =~= seq![b[0]] + b.drop_first());
            }
        } else {
            assert(a[0] != b[0]);
        }
    } else if a.len() == 0 && b.len() == 0 {
        assert(a =~= b);
    }
}

pub proof fn lemma_lex_asym(a: Seq<char>, b: Seq<char>)
    requires
        lex_lt(a, b),
    ensures
        !lex_lt(b, a),
        a != b,
{
    lemma_lex_irrefl(a);
    if lex_lt(b, a) {
        lemma_lex_trans(a, b, a);
    }
}

/// Three-way comparison of two texts: `-1`, `0` or `1`.
pub fn lex_order(a: &[char], b: &[char]) -> (r: i8)
    ensures
        r == 0 <==> a@ == b@,
        r < 0 <==> lex_lt(a@, b@),
        r > 0 <==> lex_lt(b@, a@),
{
    let mut i: usize = 0;
    proof {
        assert(a@.skip(0) =~= a@);
        assert(b@.skip(0) =~= b@);
    }
    while i < a.len() && i < b.len()
        invariant
            i <= a.len(),
            i <= b.len(),
            forall|j: int| 0 <= j < i ==> a@[j] == b@[j],
            lex_lt(a@, b@) == lex_lt(a@.skip(i as int), b@.skip(i as int)),
            lex_lt(b@, a@) == lex_lt(b@.skip(i as int), a@.skip(i as int)),
        decreases a.len() - i,
    {
        if a[i] != b[i] {
            let r: i8 = if a[i] < b[i] { -1 } else { 1 };
            proof {
                assert(a@.skip(i as int)[0] == a@[i as int]);
                assert(b@.skip(i as int)[0] == b@[i as int]);
                assert(a@[i as int] != b@[i as int]);
                if a@ == b@ {
                    assert(false);
                }
            }
            return r;
        }
        proof {
            assert(a@.skip(i as int).drop_first() =~= a@.skip(i + 1));
            assert(b@.skip(i as int).drop_first() =~= b@.skip(i + 1));
        }
        i = i + 1;
    }
    proof {
        if a.len() == b.len() {
            assert(a@ =~= b@);
            lemma_lex_irrefl(a@);
        } else {
            assert(a@ != b@);
        }
    }
    if a.len() < b.len() {
        -1
    } else if a.len() > b.len() {
        1
    } else {
        0
    }
}

/// The characters of a `String`.
pub fn string_chars(s: &String) -> (r: Vec<char>)
    ensures
        r@ == s@,
{
    crate::text::to_chars(s.as_str())
}

/// Three-way comparison of two strings.
pub fn text_order(a: &String, b: &String) -> (r: i8)
    ensures
        r == 0 <==> a@ == b@,
        r < 0 <==> lex_lt(a@, b@),
        r > 0 <==> lex_lt(b@, a@),
{
    let x = string_chars(a);
    let y = string_chars(b);
    lex_order(x.as_slice(), y.as_slice())
}

/// The texts of a vector of strings.
pub open spec fn texts(v: Seq<String>) -> Seq<Seq<char>> {
    v.map_values(|s: String| s@)
}

/// Insert `x` into a strictly sorted vector, keeping it strictly sorted and
/// duplicate-free (a no-op when `x` is already present).
pub fn insert_sorted_unique(v: &mut Vec<String>, x: String)
    requires
        strictly_sorted(texts(old(v)@)),
    ensures
        strictly_sorted(texts(final(v)@)),
        texts(final(v)@).to_set() == texts(old(v)@).to_set().insert(x@),
{
    let ghost old_t = texts(v@);
    let mut i: usize = 0;
    while i < v.len()
        invariant
            v@ == old(v)@,
            strictly_sorted(texts(v@)),
            i <= v.len(),
            forall|j: int| 0 <= j < i ==> lex_lt(#[trigger] texts(v@)[j], x@),
        ensures
            i <= v.len(),
            forall|j: int| 0 <= j < i ==> lex_lt(#[trigger] texts(v@)[j], x@),
            i < v.len() ==> lex_lt(x@, texts(v@)[i as int]),
        decreases v.len() - i,
    {
        let c = text_order(&v[i], &x);
        if c == 0 {
            proof {
                assert(texts(v@)[i as int] == x@);
                assert(texts(v@).to_set().insert(x@) =~= texts(v@).to_set());
            }
            return;
        }
        if c > 0 {
            break;
        }
        i = i + 1;
    }
    let ghost xv = x@;
    v.insert(i, x);
    proof {
        assert(texts(v@) =~= old_t.insert(i as int, xv));
        assert forall|a: int, b: int| 0 <= a < b < texts(v@).len() implies lex_lt(
            texts(v@)[a],
            texts(v@)[b],
        ) by {
            if b < i {
            } else if a < i && b == i {
            } else if a < i && b > i {
                if b - 1 > i {
                    lemma_lex_trans(xv, old_t[i as int], old_t[b - 1]);
                }
                lemma_lex_trans(old_t[a], xv, old_t[b - 1]);
            } else if a == i {
                if b - 1 > i {
                    lemma_lex_trans(xv, old_t[i as int], old_t[b - 1]);
                }
            } else {
            }
        }
        assert forall|e: Seq<char>| texts(v@).to_set().contains(e) <==> old_t.to_set().insert(xv).contains(e) by {
            if texts(v@).to_set().contains(e) {
                let k = choose|k: int| 0 <= k < texts(v@).len() && texts(v@)[k] == e;
                if k < i {
                    assert(old_t[k] == e);
                } else if k > i {
                    assert(old_t[k - 1] == e);
                }
            }
            if old_t.to_set().contains(e) && e != xv {
                let k = choose|k: int| 0 <= k < old_t.len() && old_t[k] == e;
                if k < i {
                    assert(texts(v@)[k] == e);
                } else {
                    assert(texts(v@)[k + 1] == e);
                }
            }
            if e == xv {
                assert(texts(v@)[i as int] == e);
            }
        }
        assert(texts(v@).to_set() =~= old_t.to_set().insert(xv));
    }
}


/// `t` with `x` inserted after every element that `x` is not less than
/// (the insertion step of a stable insertion sort).
pub open spec fn ins_sorted<A>(t: Seq<A>, x: A, lt: spec_fn(A, A) -> bool) -> Seq<A>
    decreases t.len(),
{
    if t.len() == 0 {
        seq![x]
    } else if lt(x, t[0]) {
        seq![x] + t
    } else {
        seq![t[0]] + ins_sorted(t.drop_first(), x, lt)
    }
}

/// Stable sort of `s` by the strict order `lt` (equal elements keep their order).
pub open spec fn stable_sort<A>(s: Seq<A>, lt: spec_fn(A, A) -> bool) -> Seq<A>
    decreases s.len(),
{
    if s.len() == 0 {
        Seq::empty()
    } else {
        ins_sorted(stable_sort(s.drop_last(), lt), s.last(), lt)
    }
}

/// Sorting one more element inserts it into the sorted rest.
pub proof fn lemma_stable_sort_push<A>(s: Seq<A>, x: A, lt: spec_fn(A, A) -> bool)
    ensures
        stable_sort(s.push(x), lt) == ins_sorted(stable_sort(s, lt), x, lt),
{
    assert(s.push(x).drop_last() =~= s);
    assert(s.push(x).last() == x);
}

/// Insertion happens at the first position whose element is greater than `x`.
pub proof fn lemma_ins_sorted_at<A>(t: Seq<A>, x: A, lt: spec_fn(A, A) -> bool, p: int)
    requires
        0 <= p <= t.len(),
        forall|i: int| 0 <= i < p ==> !lt(x, #[trigger] t[i]),
        p < t.len() ==> lt(x, t[p]),
    ensures
        ins_sorted(t, x, lt) == t.take(p) + seq![x] + t.skip(p),
    decreases p,
{
    if p == 0 {
        if t.len() == 0 {
            assert(t.take(0) + seq![x] + t.skip(0) =~= seq![x]);
        } else {
            assert(t.take(0) + seq![x] + t.skip(0) =~= seq![x] + t);
        }
    } else {
        let u = t.drop_first();
        assert forall|i: int| 0 <= i < p - 1 implies !lt(x, #[trigger] u[i]) by {
            assert(u[i] == t[i + 1]);
        }
        lemma_ins_sorted_at(u, x, lt, p - 1);
        assert(!lt(x, t[0]));
        assert(seq![t[0]] + (u.take(p - 1) + seq![x] + u.skip(p - 1)) =~= t.take(p) + seq![x] + t.skip(p));
    }
}

/// A strictly sorted sequence is determined by its elements.
pub proof fn lemma_sorted_set_unique(a: Seq<Seq<char>>, b: Seq<Seq<char>>)
    requires
        strictly_sorted(a),
        strictly_sorted(b),
        a.to_set() == b.to_set(),
    ensures
        a == b,
    decreases a.len(),
{
    if a.len() == 0 {
        if b.len() > 0 {
            assert(b.to_set().contains(b[0]));
            assert(a.to_set().contains(b[0]));
        }
        assert(a =~= b);
    } else if b.len() == 0 {
        assert(a.to_set().contains(a[0]));
        assert(b.to_set().contains(a[0]));
    } else {
        assert(a.to_set().contains(a[0]));
        assert(b.to_set().contains(b[0]));
        assert(b.contains(a[0]));
        assert(a.contains(b[0]));
        let j = choose|j: int| 0 <= j < b.len() && b[j] == a[0];
        let i = choose|i: int| 0 <= i < a.len() && a[i] == b[0];
        if a[0] != b[0] {
            assert(j > 0 && i > 0);
            assert(lex_lt(b[0], a[0]));
            assert(lex_lt(a[0], b[0]));
            lemma_lex_asym(a[0], b[0]);
        }
        let ta = a.drop_first();
        let tb = b.drop_first();
        assert forall|x: Seq<char>| ta.to_set().contains(x) <==> tb.to_set().contains(x) by {
            if ta.to_set().contains(x) {
                let k = choose|k: int| 0 <= k < ta.len() && ta[k] == x;
                assert(a[k + 1] == x);
                assert(lex_lt(a[0], x));
                assert(b.to_set().contains(x));
                let m = choose|m: int| 0 <= m < b.len() && b[m] == x;
                if m == 0 {
                    lemma_lex_irrefl(x);
                }
                assert(tb[m - 1] == x);
            }
            if tb.to_set().contains(x) {
                let k = choose|k: int| 0 <= k < tb.len() && tb[k] == x;
                assert(b[k + 1] == x);
                assert(lex_lt(b[0], x));
                assert(a.to_set().contains(x));
                let m = choose|m: int| 0 <= m < a.len() && a[m] == x;
                if m == 0 {
                    lemma_lex_irrefl(x);
                }
                assert(ta[m - 1] == x);
            }
        }
        assert(ta.to_set() =~= tb.to_set());
        lemma_sorted_set_unique(ta, tb);
        assert(a =~= seq![a[0]] + ta);
        assert(b =~= seq![b[0]] + tb);
    }
}

/// Pushing keeps what a sequence contains and adds the pushed element.
pub proof fn lemma_push_contains<A>(s: Seq<A>, v: A)
    ensures
        forall|x: A| s.contains(x) ==> #[trigger] s.push(v).contains(x),
        s.push(v).contains(v),
{
    assert forall|x: A| s.contains(x) implies #[trigger] s.push(v).contains(x) by {
        let i = choose|i: int| 0 <= i < s.len() && s[i] == x;
        assert(s.push(v)[i] == x);
    }
    assert(s.push(v)[s.len() as int] == v);
}

/// Whether some string of `v` has the text `x`.
pub fn texts_contain(v: &Vec<String>, x: &[char]) -> (r: bool)
    ensures
        r == texts(v@).contains(x@),
{
    let mut i: usize = 0;
    while i < v.len()
        invariant
            i <= v.len(),
            forall|j: int| 0 <= j < i ==> texts(v@)[j] != x@,
        decreases v.len() - i,
    {
        let c = crate::text::to_chars(v[i].as_str());
        if crate::text::chars_eq(c.as_slice(), x) {
            proof {
                assert(texts(v@)[i as int] == x@);
            }
            return true;
        }
        i = i + 1;
    }
    false
}
/// No element is less than one before it.
pub open spec fn sorted_by<A>(s: Seq<A>, lt: spec_fn(A, A) -> bool) -> bool {
    forall|i: int, j: int| 0 <= i < j < s.len() ==> !lt(s[j], s[i])
}

/// `lt` is a strict weak order: irreflexive, transitive, and "not less"
/// is transitive too.
pub open spec fn weak_order<A>(lt: spec_fn(A, A) -> bool) -> bool {
    &&& forall|x: A| !#[trigger] lt(x, x)
    &&& forall|x: A, y: A, z: A| #![trigger lt(x, y), lt(y, z)] lt(x, y) && lt(y, z) ==> lt(x, z)
    &&& forall|x: A, y: A, z: A| #![trigger lt(x, y), lt(y, z), lt(x, z)] !lt(x, y) && !lt(y, z) ==> !lt(x, z)
}

/// Inserting keeps the elements: those of `t` and `x`.
pub proof fn lemma_ins_sorted_elems<A>(t: Seq<A>, x: A, lt: spec_fn(A, A) -> bool)
    ensures
        ins_sorted(t, x, lt).len() == t.len() + 1,
        forall|y: A| #[trigger] ins_sorted(t, x, lt).contains(y) ==> t.contains(y) || y == x,
    decreases t.len(),
{
    if t.len() == 0 {
        assert forall|y: A| #[trigger] ins_sorted(t, x, lt).contains(y) implies t.contains(y) || y == x by {
            assert(ins_sorted(t, x, lt) =~= seq![x]);
        }
    } else if lt(x, t[0]) {
        assert forall|y: A| #[trigger] ins_sorted(t, x, lt).contains(y) implies t.contains(y) || y == x by {
            let k = choose|k: int| 0 <= k < ins_sorted(t, x, lt).len() && ins_sorted(t, x, lt)[k] == y;
            if k > 0 {
                assert(t[k - 1] == y);
            }
        }
    } else {
        let u = t.drop_first();
        lemma_ins_sorted_elems(u, x, lt);
        assert forall|y: A| #[trigger] ins_sorted(t, x, lt).contains(y) implies t.contains(y) || y == x by {
            let r = ins_sorted(t, x, lt);
            let k = choose|k: int| 0 <= k < r.len() && r[k] == y;
            if k == 0 {
                assert(t[0] == y);
            } else {
                assert(ins_sorted(u, x, lt)[k - 1] == y);
                assert(ins_sorted(u, x, lt).contains(y));
                if u.contains(y) {
                    let q = choose|q: int| 0 <= q < u.len() && u[q] == y;
                    assert(t[q + 1] == y);
                }
            }
        }
    }
}

/// Inserting into a sorted sequence keeps it sorted.
pub proof fn lemma_ins_sorted_sorted<A>(t: Seq<A>, x: A, lt: spec_fn(A, A) -> bool)
    requires
        weak_order(lt),
        sorted_by(t, lt),
    ensures
        sorted_by(ins_sorted(t, x, lt), lt),
    decreases t.len(),
{
    if t.len() == 0 {
        assert(ins_sorted(t, x, lt) =~= seq![x]);
    } else if lt(x, t[0]) {
        let r = ins_sorted(t, x, lt);
        assert forall|i: int, j: int| 0 <= i < j < r.len() implies !lt(r[j], r[i]) by {
            if i == 0 {
                assert(r[j] == t[j - 1]);
                if lt(t[j - 1], x) {
                    assert(lt(t[j - 1], t[0]));
                    if j - 1 > 0 {
                        assert(!lt(t[j - 1], t[0]));
                    }
                }
            } else {
                assert(r[i] == t[i - 1] && r[j] == t[j - 1]);
            }
        }
    } else {
        let u = t.drop_first();
        assert(sorted_by(u, lt)) by {
            assert forall|i: int, j: int| 0 <= i < j < u.len() implies !lt(u[j], u[i]) by {
                assert(u[i] == t[i + 1] && u[j] == t[j + 1]);
            }
        }
        lemma_ins_sorted_sorted(u, x, lt);
        lemma_ins_sorted_elems(u, x, lt);
        let ru = ins_sorted(u, x, lt);
        let r = ins_sorted(t, x, lt);
        assert forall|i: int, j: int| 0 <= i < j < r.len() implies !lt(r[j], r[i]) by {
            if i == 0 {
                assert(r[j] == ru[j - 1]);
                assert(ru.contains(ru[j - 1]));
                if u.contains(ru[j - 1]) {
                    let q = choose|q: int| 0 <= q < u.len() && u[q] == ru[j - 1];
                    assert(t[q + 1] == ru[j - 1]);
                }
            } else {
                assert(r[i] == ru[i - 1] && r[j] == ru[j - 1]);
            }
        }
    }
}

/// A stable sort is sorted.
pub proof fn lemma_stable_sort_sorted<A>(s: Seq<A>, lt: spec_fn(A, A) -> bool)
    requires
        weak_order(lt),
    ensures
        sorted_by(stable_sort(s, lt), lt),
    decreases s.len(),
{
    if s.len() > 0 {
        lemma_stable_sort_sorted(s.drop_last(), lt);
        lemma_ins_sorted_sorted(stable_sort(s.drop_last(), lt), s.last(), lt);
    }
}

/// A stable sort only holds elements of its input.
pub proof fn lemma_stable_sort_elems<A>(s: Seq<A>, lt: spec_fn(A, A) -> bool)
    ensures
        stable_sort(s, lt).len() == s.len(),
        forall|y: A| #[trigger] stable_sort(s, lt).contains(y) ==> s.contains(y),
    decreases s.len(),
{
    if s.len() > 0 {
        let p = s.drop_last();
        lemma_stable_sort_elems(p, lt);
        lemma_ins_sorted_elems(stable_sort(p, lt), s.last(), lt);
        assert forall|y: A| #[trigger] stable_sort(s, lt).contains(y) implies s.contains(y) by {
            if stable_sort(p, lt).contains(y) {
                assert(p.contains(y));
                let q = choose|q: int| 0 <= q < p.len() && p[q] == y;
                assert(s[q] == y);
            } else {
                assert(s[s.len() - 1] == y);
            }
        }
    }
}

/// Sorting a sorted sequence leaves it as it is.
pub proof fn lemma_stable_sort_fixed<A>(s: Seq<A>, lt: spec_fn(A, A) -> bool)
    requires
        sorted_by(s, lt),
    ensures
        stable_sort(s, lt) == s,
    decreases s.len(),
{
    if s.len() > 0 {
        let p = s.drop_last();
        assert(sorted_by(p, lt)) by {
            assert forall|i: int, j: int| 0 <= i < j < p.len() implies !lt(p[j], p[i]) by {
                assert(p[i] == s[i] && p[j] == s[j]);
            }
        }
        lemma_stable_sort_fixed(p, lt);
        assert forall|i: int| 0 <= i < p.len() implies !lt(s.last(), #[trigger] p[i]) by {
            assert(p[i] == s[i]);
        }
        lemma_ins_sorted_at(p, s.last(), lt, p.len() as int);
        assert(p.take(p.len() as int) + seq![s.last()] + p.skip(p.len() as int) =~= s);
    }
}

/// Inserting adds `x` to the elements, counted with repeats.
pub proof fn lemma_ins_sorted_multiset<A>(t: Seq<A>, x: A, lt: spec_fn(A, A) -> bool)
    ensures
        ins_sorted(t, x, lt).to_multiset() =~= t.to_multiset().insert(x),
    decreases t.len(),
{
    broadcast use vstd::seq_lib::group_to_multiset_ensures;
    if t.len() == 0 {
        assert(ins_sorted(t, x, lt) =~= t.insert(0, x));
        vstd::seq_lib::to_multiset_insert(t, 0, x);
    } else if lt(x, t[0]) {
        assert(ins_sorted(t, x, lt) =~= t.insert(0, x));
        vstd::seq_lib::to_multiset_insert(t, 0, x);
    } else {
        let u = t.drop_first();
        lemma_ins_sorted_multiset(u, x, lt);
        let r = ins_sorted(u, x, lt);
        assert(ins_sorted(t, x, lt) =~= r.insert(0, t[0]));
        vstd::seq_lib::to_multiset_insert(r, 0, t[0]);
        assert(t =~= u.insert(0, t[0]));
        vstd::seq_lib::to_multiset_insert(u, 0, t[0]);
    }
}

/// A stable sort keeps the elements, counted with repeats.
pub proof fn lemma_stable_sort_multiset<A>(s: Seq<A>, lt: spec_fn(A, A) -> bool)
    ensures
        stable_sort(s, lt).to_multiset() =~= s.to_multiset(),
    decreases s.len(),
{
    broadcast use vstd::seq_lib::group_to_multiset_ensures;
    if s.len() > 0 {
        let p = s.drop_last();
        lemma_stable_sort_multiset(p, lt);
        lemma_ins_sorted_multiset(stable_sort(p, lt), s.last(), lt);
        assert(s =~= p.push(s.last()));
    }
}

/// Two sorted sequences with the same elements (counted with repeats), any
/// two different of which `lt` orders one way or the other, are equal.
pub proof fn lemma_sorted_same_elems<A>(a: Seq<A>, b: Seq<A>, lt: spec_fn(A, A) -> bool)
    requires
        sorted_by(a, lt),
        sorted_by(b, lt),
        a.to_multiset() == b.to_multiset(),
        forall|x: A, y: A| #![trigger a.contains(x), a.contains(y)]
            a.contains(x) && a.contains(y) && x != y ==> lt(x, y) || lt(y, x),
    ensures
        a == b,
    decreases a.len(),
{
    broadcast use vstd::seq_lib::group_to_multiset_ensures;
    assert(a.len() == a.to_multiset().len());
    assert(b.len() == b.to_multiset().len());
    if a.len() == 0 {
        assert(a =~= b);
    } else {
        let a0 = a[0];
        let b0 = b[0];
        assert(a.contains(a0));
        assert(a.to_multiset().count(a0) > 0);
        assert(b.contains(a0));
        assert(b.contains(b0));
        assert(b.to_multiset().count(b0) > 0);
        assert(a.contains(b0));
        let i = choose|i: int| 0 <= i < a.len() && a[i] == b0;
        let j = choose|j: int| 0 <= j < b.len() && b[j] == a0;
        if a0 != b0 {
            assert(i != 0);
            assert(j != 0);
            assert(!lt(a[i], a[0]));
            assert(!lt(b[j], b[0]));
            assert(lt(a0, b0) || lt(b0, a0));
        }
        let ra = a.remove(0);
        let rb = b.remove(0);
        vstd::seq_lib::to_multiset_remove(a, 0);
        vstd::seq_lib::to_multiset_remove(b, 0);
        assert(sorted_by(ra, lt)) by {
            assert forall|p: int, q: int| 0 <= p < q < ra.len() implies !lt(ra[q], ra[p]) by {
                assert(ra[p] == a[p + 1] && ra[q] == a[q + 1]);
            }
        }
        assert(sorted_by(rb, lt)) by {
            assert forall|p: int, q: int| 0 <= p < q < rb.len() implies !lt(rb[q], rb[p]) by {
                assert(rb[p] == b[p + 1] && rb[q] == b[q + 1]);
            }
        }
        assert forall|x: A, y: A| #![trigger ra.contains(x), ra.contains(y)]
            ra.contains(x) && ra.contains(y) && x != y implies lt(x, y) || lt(y, x) by {
            let p = choose|p: int| 0 <= p < ra.len() && ra[p] == x;
            let q = choose|q: int| 0 <= q < ra.len() && ra[q] == y;
            assert(a[p + 1] == x && a[q + 1] == y);
            assert(a.contains(x) && a.contains(y));
        }
        lemma_sorted_same_elems(ra, rb, lt);
        assert(a =~= seq![a0] + ra);
        assert(b =~= seq![b0] + rb);
    }
}

/// `a` and `b` have the same length and are related by `r` position by position.
pub open spec fn pointwise<A>(a: Seq<A>, b: Seq<A>, r: spec_fn(A, A) -> bool) -> bool {
    a.len() == b.len() && forall|i: int| 0 <= i < a.len() ==> #[trigger] r(a[i], b[i])
}

/// `lt` orders related elements alike.
pub open spec fn respects<A>(lt: spec_fn(A, A) -> bool, r: spec_fn(A, A) -> bool) -> bool {
    forall|x: A, y: A, x2: A, y2: A| #![trigger lt(x, y), lt(x2, y2), r(x, x2), r(y, y2)]
        r(x, x2) && r(y, y2) ==> lt(x, y) == lt(x2, y2)
}

proof fn lemma_ins_sorted_pointwise<A>(t1: Seq<A>, t2: Seq<A>, x1: A, x2: A, lt: spec_fn(A, A) -> bool, r: spec_fn(A, A) -> bool)
    requires
        pointwise(t1, t2, r),
        r(x1, x2),
        respects(lt, r),
    ensures
        pointwise(ins_sorted(t1, x1, lt), ins_sorted(t2, x2, lt), r),
    decreases t1.len(),
{
    if t1.len() > 0 {
        assert(r(t1[0], t2[0]));
        assert(lt(x1, t1[0]) == lt(x2, t2[0]));
        if lt(x1, t1[0]) {
            let a = ins_sorted(t1, x1, lt);
            let b = ins_sorted(t2, x2, lt);
            assert forall|i: int| 0 <= i < a.len() implies #[trigger] r(a[i], b[i]) by {
                if i > 0 {
                    assert(a[i] == t1[i - 1] && b[i] == t2[i - 1]);
                    assert(r(t1[i - 1], t2[i - 1]));
                }
            }
        } else {
            let u1 = t1.drop_first();
            let u2 = t2.drop_first();
            assert forall|i: int| 0 <= i < u1.len() implies #[trigger] r(u1[i], u2[i]) by {
                assert(r(t1[i + 1], t2[i + 1]));
            }
            lemma_ins_sorted_pointwise(u1, u2, x1, x2, lt, r);
            let a = ins_sorted(t1, x1, lt);
            let b = ins_sorted(t2, x2, lt);
            let ra = ins_sorted(u1, x1, lt);
            let rb = ins_sorted(u2, x2, lt);
            assert forall|i: int| 0 <= i < a.len() implies #[trigger] r(a[i], b[i]) by {
                if i > 0 {
                    assert(a[i] == ra[i - 1] && b[i] == rb[i - 1]);
                    assert(r(ra[i - 1], rb[i - 1]));
                }
            }
        }
    }
}

/// Sorting two sequences related position by position, by an order that
/// treats related elements alike, gives sequences related position by position.
pub proof fn lemma_stable_sort_pointwise<A>(s1: Seq<A>, s2: Seq<A>, lt: spec_fn(A, A) -> bool, r: spec_fn(A, A) -> bool)
    requires
        pointwise(s1, s2, r),
        respects(lt, r),
    ensures
        pointwise(stable_sort(s1, lt), stable_sort(s2, lt), r),
    decreases s1.len(),
{
    if s1.len() > 0 {
        let p1 = s1.drop_last();
        let p2 = s2.drop_last();
        assert forall|i: int| 0 <= i < p1.len() implies #[trigger] r(p1[i], p2[i]) by {
            assert(r(s1[i], s2[i]));
        }
        lemma_stable_sort_pointwise(p1, p2, lt, r);
        assert(r(s1[s1.len() - 1], s2[s2.len() - 1]));
        lemma_ins_sorted_pointwise(stable_sort(p1, lt), stable_sort(p2, lt), s1.last(), s2.last(), lt, r);
    }
}

} // verus!
