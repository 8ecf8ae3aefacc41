use vstd::prelude::*;
use vstd::relations::total_ordering;
use vstd::string::StrSliceExecFns;

verus! {

/// Lexicographic "less or equal" over character sequences, comparing
/// characters by code point. This is the order in which dependency lists
/// and canonical lines are sorted.
pub open spec fn lex_leq(a: Seq<char>, b: Seq<char>) -> bool
    decreases a.len(),
{
    if a.len() == 0 {
        true
    } else if b.len() == 0 {
        false
    } else if a[0] == b[0] {
        lex_leq(a.drop_first(), b.drop_first())
    } else {
        (a[0] as u32) < (b[0] as u32)
    }
}

/// The same order as a first-class relation, in the form vstd's sorting
/// lemmas expect.
pub open spec fn lex_rel() -> spec_fn(Seq<char>, Seq<char>) -> bool {
    |a: Seq<char>, b: Seq<char>| lex_leq(a, b)
}

/// A sequence of strings in strictly increasing lexicographic order:
/// sorted, and free of duplicates.
pub open spec fn strictly_sorted(s: Seq<Seq<char>>) -> bool {
    forall|i: int, j: int|
        0 <= i < j < s.len() ==> #[trigger] lex_leq(s[i], s[j]) && s[i] != s[j]
}

/// Two characters are equal exactly when their code points are equal.
pub proof fn lemma_char_code_inj(x: char, y: char)
    ensures
        (x == y) <==> (x as u32 == y as u32),
{
}

pub proof fn lemma_lex_refl(a: Seq<char>)
    ensures
        lex_leq(a, a),
    decreases a.len(),
{
    if a.len() > 0 {
        lemma_lex_refl(a.drop_first());
    }
}

pub proof fn lemma_lex_antisym(a: Seq<char>, b: Seq<char>)
    requires
        lex_leq(a, b),
        lex_leq(b, a),
    ensures
        a == b,
    decreases a.len(),
{
    if a.len() == 0 {
        assert(b.len() == 0);
        assert(a =~= b);
    } else {
        assert(b.len() > 0);
        if a[0] == b[0] {
            lemma_lex_antisym(a.drop_first(), b.drop_first());
            assert(a.drop_first().len() == b.drop_first().len());
            assert forall|i: int| 0 <= i < a.len() implies a[i] == b[i] by {
                if i > 0 {
                    assert(a[i] == a.drop_first()[i - 1]);
                    assert(b[i] == b.drop_first()[i - 1]);
                }
            }
            assert(a =~= b);
        }
    }
}

pub proof fn lemma_lex_trans(a: Seq<char>, b: Seq<char>, c: Seq<char>)
    requires
        lex_leq(a, b),
        lex_leq(b, c),
    ensures
        lex_leq(a, c),
    decreases a.len(),
{
    if a.len() == 0 || b.len() == 0 || c.len() == 0 {
    } else if a[0] == b[0] && b[0] == c[0] {
        lemma_lex_trans(a.drop_first(), b.drop_first(), c.drop_first());
    }
}

pub proof fn lemma_lex_total(a: Seq<char>, b: Seq<char>)
    ensures
        lex_leq(a, b) || lex_leq(b, a),
    decreases a.len(),
{
    if a.len() > 0 && b.len() > 0 {
        if a[0] == b[0] {
            lemma_lex_total(a.drop_first(), b.drop_first());
        } else {
            lemma_char_code_inj(a[0], b[0]);
        }
    }
}

/// Lexicographic order on character sequences is a total order.
pub proof fn lemma_lex_total_ordering()
    ensures
        total_ordering(lex_rel()),
{
    let r = lex_rel();
    assert forall|a: Seq<char>| #[trigger] r(a, a) by {
        lemma_lex_refl(a);
    }
    assert forall|a: Seq<char>, b: Seq<char>| #[trigger] r(a, b) && #[trigger] r(b, a) implies a
        == b by {
        lemma_lex_antisym(a, b);
    }
    assert forall|a: Seq<char>, b: Seq<char>, c: Seq<char>|
        #[trigger] r(a, b) && #[trigger] r(b, c) implies r(a, c) by {
        lemma_lex_trans(a, b, c);
    }
    assert forall|a: Seq<char>, b: Seq<char>| #[trigger] r(a, b) || #[trigger] r(b, a) by {
        lemma_lex_total(a, b);
    }
}

/// Decides `lex_leq` on character vectors.
pub fn lex_leq_exec(a: &Vec<char>, b: &Vec<char>) -> (r: bool)
    ensures
        r == lex_leq(a@, b@),
{
    let mut i: usize = 0;
    proof {
        assert(a@.skip(0) =~= a@);
        assert(b@.skip(0) =~= b@);
    }
    loop
        invariant
            i <= a.len(),
            i <= b.len(),
            lex_leq(a@, b@) == lex_leq(a@.skip(i as int), b@.skip(i as int)),
        decreases a.len() - i,
    {
        if i == a.len() {
            return true;
        }
        if i == b.len() {
            return false;
        }
        let ca = a[i];
        let cb = b[i];
        proof {
            assert(a@.skip(i as int)[0] == a@[i as int]);
            assert(b@.skip(i as int)[0] == b@[i as int]);
        }
        if ca == cb {
            proof {
                assert(a@.skip(i as int).drop_first() =~= a@.skip(i as int + 1));
                assert(b@.skip(i as int).drop_first() =~= b@.skip(i as int + 1));
            }
            i += 1;
        } else {
            return (ca as u32) < (cb as u32);
        }
    }
}

/// Decides equality of two character vectors.
pub fn chars_eq(a: &Vec<char>, b: &Vec<char>) -> (r: bool)
    ensures
        r == (a@ == b@),
{
    if a.len() != b.len() {
        return false;
    }
    let mut i: usize = 0;
    while i < a.len()
        invariant
            a.len() == b.len(),
            i <= a.len(),
            forall|k: int| 0 <= k < i ==> a@[k] == b@[k],
        decreases a.len() - i,
    {
        if a[i] != b[i] {
            return false;
        }
        i += 1;
    }
    proof {
        assert(a@ =~= b@);
    }
    true
}

/// Copies the characters of a string into a vector, one element per char.
pub fn to_char_vec(s: &str) -> (v: Vec<char>)
    ensures
        v@ == s@,
{
    let n: usize = s.unicode_len();
    let mut v: Vec<char> = Vec::new();
    let mut i: usize = 0;
    while i < n
        invariant
            n == s@.len(),
            i <= n,
            v@ == s@.subrange(0, i as int),
        decreases n - i,
    {
        let c = s.get_char(i);
        v.push(c);
        proof {
            assert(v@ =~= s@.subrange(0, i as int + 1));
        }
        i += 1;
    }
    proof {
        assert(s@.subrange(0, n as int) =~= s@);
    }
    v
}

/// Relies on `core::iter::Iterator::collect`: collecting an iterator of
/// `char`s into a `String` yields the string of exactly those characters,
/// in order.
#[verifier::external_body]
pub fn chars_to_string(v: &Vec<char>) -> (s: String)
    ensures
        s@ == v@,
{
    v.iter().collect()
}

/// The deep view of a character vector is its view.
pub proof fn lemma_chars_dv(v: Vec<char>)
    ensures
        v.deep_view() == v@,
{
    assert(v.deep_view() =~= v@);
}

/// Indexing the deep view of a vector of character vectors.
pub proof fn lemma_dv_index(v: Vec<Vec<char>>, i: int)
    requires
        0 <= i < v@.len(),
    ensures
        v.deep_view()[i] == v@[i]@,
{
    lemma_chars_dv(v@[i]);
}

/// Indexing the deep view of a vector of strings.
pub proof fn lemma_dv_index_str(v: Vec<String>, i: int)
    requires
        0 <= i < v@.len(),
    ensures
        v.deep_view()[i] == v@[i]@,
{
    assert(v.deep_view()[i] == v@[i].deep_view());
}

/// A sequence of strings in (non-strict) lexicographic order.
pub open spec fn lex_sorted(s: Seq<Seq<char>>) -> bool {
    forall|i: int, j: int| 0 <= i < j < s.len() ==> #[trigger] lex_leq(s[i], s[j])
}

proof fn lemma_sorted_index(s: Seq<Seq<char>>, i: int, j: int)
    requires
        lex_sorted(s),
        0 <= i < j < s.len(),
    ensures
        lex_leq(s[i], s[j]),
{
}

proof fn lemma_strict_index(s: Seq<Seq<char>>, i: int, j: int)
    requires
        strictly_sorted(s),
        0 <= i < j < s.len(),
    ensures
        lex_leq(s[i], s[j]),
        s[i] != s[j],
{
    assert(lex_leq(s[i], s[j]) && s[i] != s[j]);
}

/// What strict sortedness says of one pair of positions.
pub proof fn lemma_strict_index_pub(s: Seq<Seq<char>>, i: int, j: int)
    requires
        strictly_sorted(s),
        0 <= i < j < s.len(),
    ensures
        lex_leq(s[i], s[j]),
        s[i] != s[j],
{
    lemma_strict_index(s, i, j);
}

/// `lex_sorted` is `sorted_by` under the order `lex_rel()`.
pub proof fn lemma_lex_sorted_is_sorted_by(s: Seq<Seq<char>>)
    requires
        lex_sorted(s),
    ensures
        vstd::relations::sorted_by(s, lex_rel()),
{
    assert forall|i: int, j: int| 0 <= i < j < s.len() implies #[trigger] lex_rel()(
        s[i],
        s[j],
    ) by {
        lemma_sorted_index(s, i, j);
    }
}

/// And the other way round.
pub proof fn lemma_sorted_by_is_lex_sorted(s: Seq<Seq<char>>)
    requires
        vstd::relations::sorted_by(s, lex_rel()),
    ensures
        lex_sorted(s),
{
    assert forall|i: int, j: int| 0 <= i < j < s.len() implies #[trigger] lex_leq(s[i], s[j]) by {
        assert(lex_rel()(s[i], s[j]));
    }
}

/// Inserting into a sequence adds the element to its multiset and to its set.
proof fn lemma_insert_to_set(s: Seq<Seq<char>>, k: int, x: Seq<char>)
    requires
        0 <= k <= s.len(),
    ensures
        s.insert(k, x).to_set() == s.to_set().insert(x),
        s.insert(k, x).to_multiset() == s.to_multiset().insert(x),
{
    broadcast use vstd::seq_lib::group_to_multiset_ensures;
    broadcast use vstd::multiset::group_multiset_axioms;

    assert(s.insert(k, x).to_multiset() == s.to_multiset().insert(x));
    assert forall|y: Seq<char>| #[trigger] s.insert(k, x).contains(y) implies s.contains(y) || y
        == x by {
        assert(s.insert(k, x).to_multiset().count(y) > 0);
        assert(s.to_multiset().insert(x).count(y) > 0);
        if y != x {
            assert(s.to_multiset().count(y) > 0);
        }
    }
    assert forall|y: Seq<char>| s.contains(y) || y == x implies #[trigger] s.insert(
        k,
        x,
    ).contains(y) by {
        assert(s.insert(k, x).to_multiset().count(y) == s.to_multiset().insert(x).count(y));
        if y == x {
            assert(s.to_multiset().insert(x).count(y) > 0);
        } else {
            assert(s.to_multiset().count(y) > 0);
        }
    }
    assert(s.insert(k, x).to_set() =~= s.to_set().insert(x));
}

/// Finds the first position whose entry is at least `elem` in the
/// lexicographic order.
fn find_pos(r: &Vec<Vec<char>>, elem: &Vec<char>) -> (k: usize)
    ensures
        k <= r@.len(),
        forall|j: int| 0 <= j < k ==> !lex_leq(elem@, #[trigger] r.deep_view()[j]),
        k < r@.len() ==> lex_leq(elem@, r.deep_view()[k as int]),
{
    let mut k: usize = 0;
    while k < r.len()
        invariant
            k <= r@.len(),
            forall|j: int| 0 <= j < k ==> !lex_leq(elem@, #[trigger] r.deep_view()[j]),
        decreases r@.len() - k,
    {
        proof {
            lemma_dv_index(*r, k as int);
        }
        if lex_leq_exec(elem, &r[k]) {
            return k;
        }
        k += 1;
    }
    k
}

/// Inserts `elem` into a sorted vector, keeping it sorted and adding the
/// element to the multiset of entries.
fn insert_sorted(r: &mut Vec<Vec<char>>, elem: Vec<char>)
    requires
        lex_sorted(old(r).deep_view()),
    ensures
        lex_sorted(final(r).deep_view()),
        final(r).deep_view().to_multiset() == old(r).deep_view().to_multiset().insert(elem@),
{
    let ghost dv0 = r.deep_view();
    let ghost e = elem@;
    let k = find_pos(r, &elem);
    let ghost ki = k as int;
    r.insert(k, elem);
    proof {
        assert forall|i: int| 0 <= i < r.deep_view().len() implies r.deep_view()[i] == dv0.insert(
            ki,
            e,
        )[i] by {
            lemma_dv_index(*r, i);
            dv0.insert_ensures(ki, e);
        }
        assert(r.deep_view() =~= dv0.insert(ki, e));
        lemma_insert_to_set(dv0, ki, e);
        dv0.insert_ensures(ki, e);
        let dv1 = r.deep_view();
        assert forall|i: int, j: int| 0 <= i < j < dv1.len() implies #[trigger] lex_leq(
            dv1[i],
            dv1[j],
        ) by {
            if j < ki {
                lemma_sorted_index(dv0, i, j);
            } else if i < ki && j == ki {
                lemma_lex_total(e, dv0[i]);
            } else if i < ki && j > ki {
                lemma_sorted_index(dv0, i, j - 1);
            } else if i == ki {
                assert(dv1[j] == dv0[j - 1]);
                assert(lex_leq(e, dv0[ki]));
                if j - 1 > ki {
                    lemma_sorted_index(dv0, ki, j - 1);
                    lemma_lex_trans(e, dv0[ki], dv0[j - 1]);
                }
            } else {
                lemma_sorted_index(dv0, i - 1, j - 1);
            }
        }
    }
}

/// Inserts `elem` into a strictly sorted vector unless an equal entry is
/// already present; the set of entries gains the element either way.
fn insert_unique(r: &mut Vec<Vec<char>>, elem: Vec<char>)
    requires
        strictly_sorted(old(r).deep_view()),
    ensures
        strictly_sorted(final(r).deep_view()),
        final(r).deep_view().to_set() == old(r).deep_view().to_set().insert(elem@),
{
    let ghost dv0 = r.deep_view();
    let ghost e = elem@;
    let k = find_pos(r, &elem);
    let ghost ki = k as int;
    if k < r.len() {
        proof {
            lemma_dv_index(*r, ki);
        }
        if chars_eq(&r[k], &elem) {
            proof {
                assert(dv0[ki] == e);
                assert(dv0.contains(e));
                assert(dv0.to_set().contains(e));
                assert(dv0.to_set() =~= dv0.to_set().insert(e));
            }
            return ;
        }
    }
    r.insert(k, elem);
    proof {
        assert forall|i: int| 0 <= i < r.deep_view().len() implies r.deep_view()[i] == dv0.insert(
            ki,
            e,
        )[i] by {
            lemma_dv_index(*r, i);
            dv0.insert_ensures(ki, e);
        }
        assert(r.deep_view() =~= dv0.insert(ki, e));
        lemma_insert_to_set(dv0, ki, e);
        dv0.insert_ensures(ki, e);
        let dv1 = r.deep_view();
        assert forall|i: int, j: int| 0 <= i < j < dv1.len() implies #[trigger] lex_leq(
            dv1[i],
            dv1[j],
        ) && dv1[i] != dv1[j] by {
            if j < ki {
                lemma_strict_index(dv0, i, j);
            } else if i < ki && j == ki {
                lemma_lex_total(e, dv0[i]);
                lemma_strict_not_present(dv0, ki, e, i);
            } else if i < ki && j > ki {
                lemma_strict_index(dv0, i, j - 1);
            } else if i == ki {
                assert(dv1[j] == dv0[j - 1]);
                assert(lex_leq(e, dv0[ki]));
                assert(e != dv0[ki]);
                if j - 1 > ki {
                    lemma_strict_index(dv0, ki, j - 1);
                    lemma_lex_trans(e, dv0[ki], dv0[j - 1]);
                    if e == dv0[j - 1] {
                        lemma_lex_antisym(e, dv0[ki]);
                    }
                }
            } else {
                lemma_strict_index(dv0, i - 1, j - 1);
            }
        }
    }
}

/// In a strictly sorted sequence, an entry strictly below the position found
/// for `e` differs from `e`.
proof fn lemma_strict_not_present(s: Seq<Seq<char>>, k: int, e: Seq<char>, i: int)
    requires
        strictly_sorted(s),
        0 <= i < k <= s.len(),
        !lex_leq(e, s[i]),
    ensures
        s[i] != e,
{
    if s[i] == e {
        lemma_lex_refl(e);
    }
}

/// Sorts the entries lexicographically, keeping duplicates.
pub fn sorted_copy(v: Vec<Vec<char>>) -> (r: Vec<Vec<char>>)
    ensures
        lex_sorted(r.deep_view()),
        r.deep_view().to_multiset() == v.deep_view().to_multiset(),
{
    broadcast use vstd::seq_lib::group_to_multiset_ensures;
    broadcast use vstd::multiset::group_multiset_axioms;

    let ghost total = v.deep_view().to_multiset();
    let mut rest = v;
    let mut r: Vec<Vec<char>> = Vec::new();
    proof {
        assert(r.deep_view() =~= Seq::<Seq<char>>::empty());
        assert(r.deep_view().to_multiset().add(rest.deep_view().to_multiset())
            =~= rest.deep_view().to_multiset());
    }
    while rest.len() > 0
        invariant
            lex_sorted(r.deep_view()),
            r.deep_view().to_multiset().add(rest.deep_view().to_multiset()) == total,
        decreases rest.len(),
    {
        let ghost rest0 = rest.deep_view();
        let e = rest.pop().unwrap();
        proof {
            lemma_chars_dv(e);
            assert forall|i: int| 0 <= i < rest0.len() implies rest0[i] == rest.deep_view().push(
                e@,
            )[i] by {
                if i < rest0.len() - 1 {
                    lemma_dv_index(rest, i);
                }
            }
            assert(rest0 =~= rest.deep_view().push(e@));
            vstd::seq_lib::to_multiset_build(rest.deep_view(), e@);
            assert(rest0.to_multiset() == rest.deep_view().to_multiset().insert(e@));
        }
        insert_sorted(&mut r, e);
        proof {
            assert(r.deep_view().to_multiset().add(rest.deep_view().to_multiset()) =~= total);
        }
    }
    proof {
        assert(rest.deep_view() =~= Seq::<Seq<char>>::empty());
        assert(r.deep_view().to_multiset().add(rest.deep_view().to_multiset())
            =~= r.deep_view().to_multiset());
    }
    r
}

/// Sorts the entries lexicographically and removes duplicates; the result
/// is strictly sorted and has the same set of entries.
pub fn sorted_dedup(v: Vec<Vec<char>>) -> (r: Vec<Vec<char>>)
    ensures
        strictly_sorted(r.deep_view()),
        r.deep_view().to_set() == v.deep_view().to_set(),
{
    let ghost total = v.deep_view().to_set();
    let mut rest = v;
    let mut r: Vec<Vec<char>> = Vec::new();
    proof {
        assert(r.deep_view() =~= Seq::<Seq<char>>::empty());
        assert(forall|y: Seq<char>| !(#[trigger] Seq::<Seq<char>>::empty().contains(y)));
        assert(r.deep_view().to_set().union(rest.deep_view().to_set())
            =~= rest.deep_view().to_set());
    }
    while rest.len() > 0
        invariant
            strictly_sorted(r.deep_view()),
            r.deep_view().to_set().union(rest.deep_view().to_set()) == total,
        decreases rest.len(),
    {
        let ghost rest0 = rest.deep_view();
        let e = rest.pop().unwrap();
        proof {
            lemma_chars_dv(e);
            assert forall|i: int| 0 <= i < rest0.len() implies rest0[i] == rest.deep_view().push(
                e@,
            )[i] by {
                if i < rest0.len() - 1 {
                    lemma_dv_index(rest, i);
                }
            }
            assert(rest0 =~= rest.deep_view().push(e@));
            assert forall|y: Seq<char>| #[trigger] rest0.contains(y) implies
                rest.deep_view().contains(y) || y == e@ by {
                let i = choose|i: int| 0 <= i < rest0.len() && rest0[i] == y;
                if i < rest0.len() - 1 {
                    assert(rest.deep_view()[i] == y);
                }
            }
            assert forall|y: Seq<char>|
                rest.deep_view().contains(y) || y == e@ implies #[trigger] rest0.contains(y) by {
                if y == e@ {
                    assert(rest0[rest0.len() - 1] == y);
                } else {
                    let i = choose|i: int|
                        0 <= i < rest.deep_view().len() && rest.deep_view()[i] == y;
                    assert(rest0[i] == y);
                }
            }
            assert(rest0.to_set() =~= rest.deep_view().to_set().insert(e@));
        }
        insert_unique(&mut r, e);
        proof {
            assert(r.deep_view().to_set().union(rest.deep_view().to_set()) =~= total);
        }
    }
    proof {
        assert(rest.deep_view() =~= Seq::<Seq<char>>::empty());
        assert(forall|y: Seq<char>| !(#[trigger] Seq::<Seq<char>>::empty().contains(y)));
        assert(r.deep_view().to_set().union(rest.deep_view().to_set())
            =~= r.deep_view().to_set());
    }
    r
}

/// Two strictly sorted sequences with the same set of entries are equal.
/// Together with the extractor's contract — a strictly sorted result with a
/// fixed set of entries — this pins the extractor's output down to one value.
pub proof fn lemma_strictly_sorted_same_set(x: Seq<Seq<char>>, y: Seq<Seq<char>>)
    requires
        strictly_sorted(x),
        strictly_sorted(y),
        x.to_set() == y.to_set(),
    ensures
        x == y,
{
    broadcast use vstd::seq_lib::group_to_multiset_ensures;
    broadcast use vstd::multiset::group_multiset_axioms;

    assert(x.no_duplicates()) by {
        assert forall|i: int, j: int|
            0 <= i < x.len() && 0 <= j < x.len() && i != j implies x[i] != x[j] by {
            if i < j {
                lemma_strict_index(x, i, j);
            } else {
                lemma_strict_index(x, j, i);
            }
        }
    }
    assert(y.no_duplicates()) by {
        assert forall|i: int, j: int|
            0 <= i < y.len() && 0 <= j < y.len() && i != j implies y[i] != y[j] by {
            if i < j {
                lemma_strict_index(y, i, j);
            } else {
                lemma_strict_index(y, j, i);
            }
        }
    }
    x.lemma_multiset_has_no_duplicates();
    y.lemma_multiset_has_no_duplicates();
    assert forall|a: Seq<char>|
        #[trigger] x.to_multiset().count(a) == y.to_multiset().count(a) by {
        assert(x.contains(a) <==> x.to_set().contains(a));
        assert(y.contains(a) <==> y.to_set().contains(a));
        if x.contains(a) {
            assert(x.to_multiset().contains(a));
            assert(x.to_multiset().count(a) == 1);
            assert(y.contains(a));
            assert(y.to_multiset().contains(a));
            assert(y.to_multiset().count(a) == 1);
        } else {
            assert(!y.contains(a));
            assert(x.to_multiset().count(a) == 0);
            assert(y.to_multiset().count(a) == 0);
        }
    }
    assert(x.to_multiset() =~= y.to_multiset());
    lemma_lex_total_ordering();
    assert forall|i: int, j: int| 0 <= i < j < x.len() implies #[trigger] lex_rel()(
        x[i],
        x[j],
    ) by {
        lemma_strict_index(x, i, j);
    }
    assert forall|i: int, j: int| 0 <= i < j < y.len() implies #[trigger] lex_rel()(
        y[i],
        y[j],
    ) by {
        lemma_strict_index(y, i, j);
    }
    vstd::seq_lib::lemma_sorted_unique(x, y, lex_rel());
}

/// Two sorted sequences with the same multiset of entries are equal.
pub proof fn lemma_lex_sorted_same_multiset(x: Seq<Seq<char>>, y: Seq<Seq<char>>)
    requires
        lex_sorted(x),
        lex_sorted(y),
        x.to_multiset() == y.to_multiset(),
    ensures
        x == y,
{
    lemma_lex_total_ordering();
    lemma_lex_sorted_is_sorted_by(x);
    lemma_lex_sorted_is_sorted_by(y);
    vstd::seq_lib::lemma_sorted_unique(x, y, lex_rel());
}

} // verus!
