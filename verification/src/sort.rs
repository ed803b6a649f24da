//! Sorting by byte-string keys: the lexicographic orders of `[u8]` and of
//! sequences of byte strings, and a verified merge sort.
use vstd::prelude::*;
use vstd::multiset::Multiset;

verus! {

broadcast use vstd::seq_lib::group_to_multiset_ensures;

/// The lexicographic order of byte strings, the order of `[u8]` and `str`.
pub open spec fn bytes_le(a: Seq<u8>, b: Seq<u8>) -> bool
    decreases a.len(),
{
    if a.len() == 0 {
        true
    } else if b.len() == 0 {
        false
    } else if a[0] != b[0] {
        a[0] < b[0]
    } else {
        bytes_le(a.drop_first(), b.drop_first())
    }
}

/// The lexicographic order of sequences of byte strings.
pub open spec fn key_le(a: Seq<Seq<u8>>, b: Seq<Seq<u8>>) -> bool
    decreases a.len(),
{
    if a.len() == 0 {
        true
    } else if b.len() == 0 {
        false
    } else if a[0] != b[0] {
        bytes_le(a[0], b[0])
    } else {
        key_le(a.drop_first(), b.drop_first())
    }
}

/// A value that is ordered by a key.
pub trait Keyed: View + Sized {
    /// The key by which values are ordered.
    spec fn key_of(v: Self::V) -> Seq<Seq<u8>>;

    /// Computes the key of `self`.
    fn key(&self) -> (k: Vec<Vec<u8>>)
        ensures
            k@.map_values(|b: Vec<u8>| b@) == Self::key_of(self@),
    ;
}

/// A value that is ordered by a key that tells values apart.
pub trait DistinctKeyed: Keyed {
    /// Values with the same key are equal.
    proof fn lemma_key_injective(a: Self::V, b: Self::V)
        requires
            Self::key_of(a) == Self::key_of(b),
        ensures
            a == b,
    ;
}

/// The views of the items of `s`.
pub open spec fn views<T: View>(s: Seq<T>) -> Seq<T::V> {
    s.map_values(|x: T| x@)
}

/// `s` is in non-decreasing order of keys.
pub open spec fn sorted_by_key<T: Keyed>(s: Seq<T::V>) -> bool {
    forall|i: int, j: int|
        0 <= i < j < s.len() ==> key_le(T::key_of(#[trigger] s[i]), T::key_of(#[trigger] s[j]))
}

pub proof fn lemma_bytes_le_total(a: Seq<u8>, b: Seq<u8>)
    ensures
        bytes_le(a, b) || bytes_le(b, a),
    decreases a.len(),
{
    if a.len() > 0 && b.len() > 0 && a[0] == b[0] {
        lemma_bytes_le_total(a.drop_first(), b.drop_first());
    }
}

pub proof fn lemma_bytes_le_antisymmetric(a: Seq<u8>, b: Seq<u8>)
    requires
        bytes_le(a, b),
        bytes_le(b, a),
    ensures
        a == b,
    decreases a.len(),
{
    if a.len() > 0 {
        lemma_bytes_le_antisymmetric(a.drop_first(), b.drop_first());
        assert(a =~= seq![a[0]] + a.drop_first());
        assert(b =~= seq![b[0]] + b.drop_first());
    } else {
        assert(b.len() == 0 ==> a =~= b);
    }
}

pub proof fn lemma_bytes_le_transitive(a: Seq<u8>, b: Seq<u8>, c: Seq<u8>)
    requires
        bytes_le(a, b),
        bytes_le(b, c),
    ensures
        bytes_le(a, c),
    decreases a.len(),
{
    if a.len() > 0 && b.len() > 0 && c.len() > 0 && a[0] == b[0] && b[0] == c[0] {
        lemma_bytes_le_transitive(a.drop_first(), b.drop_first(), c.drop_first());
    }
}

pub proof fn lemma_key_le_total(a: Seq<Seq<u8>>, b: Seq<Seq<u8>>)
    ensures
        key_le(a, b) || key_le(b, a),
    decreases a.len(),
{
    if a.len() > 0 && b.len() > 0 {
        if a[0] == b[0] {
            lemma_key_le_total(a.drop_first(), b.drop_first());
        } else {
            lemma_bytes_le_total(a[0], b[0]);
        }
    }
}

pub proof fn lemma_key_le_antisymmetric(a: Seq<Seq<u8>>, b: Seq<Seq<u8>>)
    requires
        key_le(a, b),
        key_le(b, a),
    ensures
        a == b,
    decreases a.len(),
{
    if a.len() > 0 {
        if a[0] == b[0] {
            lemma_key_le_antisymmetric(a.drop_first(), b.drop_first());
            assert(a =~= seq![a[0]] + a.drop_first());
            assert(b =~= seq![b[0]] + b.drop_first());
        } else {
            lemma_bytes_le_antisymmetric(a[0], b[0]);
        }
    } else {
        assert(b.len() == 0 ==> a =~= b);
    }
}

pub proof fn lemma_key_le_transitive(a: Seq<Seq<u8>>, b: Seq<Seq<u8>>, c: Seq<Seq<u8>>)
    requires
        key_le(a, b),
        key_le(b, c),
    ensures
        key_le(a, c),
    decreases a.len(),
{
    if a.len() > 0 && b.len() > 0 && c.len() > 0 {
        if a[0] == b[0] && b[0] == c[0] {
            lemma_key_le_transitive(a.drop_first(), b.drop_first(), c.drop_first());
        } else if a[0] == b[0] {
        } else if b[0] == c[0] {
        } else {
            lemma_bytes_le_transitive(a[0], b[0], c[0]);
            if a[0] == c[0] {
                lemma_bytes_le_antisymmetric(a[0], b[0]);
            }
        }
    }
}

/// Whether `a` comes before or equals `b` in the order of byte strings.
pub fn bytes_le_exec(a: &[u8], b: &[u8]) -> (r: bool)
    ensures
        r == bytes_le(a@, b@),
{
    let mut i: usize = 0;
    assert(a@.skip(0) =~= a@);
    assert(b@.skip(0) =~= b@);
    loop
        invariant
            i <= a.len(),
            i <= b.len(),
            bytes_le(a@, b@) == bytes_le(a@.skip(i as int), b@.skip(i as int)),
        decreases a.len() - i,
    {
        if i == a.len() {
            return true;
        }
        if i == b.len() {
            return false;
        }
        if a[i] != b[i] {
            return a[i] < b[i];
        }
        assert(a@.skip(i as int).drop_first() =~= a@.skip(i + 1));
        assert(b@.skip(i as int).drop_first() =~= b@.skip(i + 1));
        i = i + 1;
    }
}

/// Whether the byte strings `a` and `b` are equal.
pub fn bytes_eq_exec(a: &[u8], b: &[u8]) -> (r: bool)
    ensures
        r == (a@ == b@),
{
    if a.len() != b.len() {
        return false;
    }
    let mut i: usize = 0;
    while i < a.len()
        invariant
            a.len() == b.len(),
            i <= a.len(),
            forall|k: int| 0 <= k < i ==> a@[k] == b@[k],
        decreases a.len() - i,
    {
        if a[i] != b[i] {
            return false;
        }
        i = i + 1;
    }
    assert(a@ =~= b@);
    true
}

/// Whether key `a` comes before or equals key `b`.
pub fn key_le_exec(a: &Vec<Vec<u8>>, b: &Vec<Vec<u8>>) -> (r: bool)
    ensures
        r == key_le(a@.map_values(|x: Vec<u8>| x@), b@.map_values(|x: Vec<u8>| x@)),
{
    let ghost av = a@.map_values(|x: Vec<u8>| x@);
    let ghost bv = b@.map_values(|x: Vec<u8>| x@);
    let mut i: usize = 0;
    assert(av.skip(0) =~= av);
    assert(bv.skip(0) =~= bv);
    loop
        invariant
            i <= a.len(),
            i <= b.len(),
            av == a@.map_values(|x: Vec<u8>| x@),
            bv == b@.map_values(|x: Vec<u8>| x@),
            key_le(av, bv) == key_le(av.skip(i as int), bv.skip(i as int)),
        decreases a.len() - i,
    {
        if i == a.len() {
            return true;
        }
        if i == b.len() {
            return false;
        }
        assert(av.skip(i as int)[0] == a@[i as int]@);
        assert(bv.skip(i as int)[0] == b@[i as int]@);
        if !bytes_eq_exec(&a[i], &b[i]) {
            return bytes_le_exec(&a[i], &b[i]);
        }
        assert(av.skip(i as int).drop_first() =~= av.skip(i + 1));
        assert(bv.skip(i as int).drop_first() =~= bv.skip(i + 1));
        i = i + 1;
    }
}

/// The key of a pair, as a sequence of byte strings.
pub open spec fn pair_key<T>(p: (Vec<Vec<u8>>, T)) -> Seq<Seq<u8>> {
    p.0@.map_values(|b: Vec<u8>| b@)
}

/// Each pair holds the key of its value.
pub open spec fn pairs_ok<T: Keyed>(s: Seq<(Vec<Vec<u8>>, T)>) -> bool {
    forall|i: int| 0 <= i < s.len() ==> pair_key(#[trigger] s[i]) == T::key_of(s[i].1@)
}

/// The values of the pairs.
pub open spec fn pair_values<T: Keyed>(s: Seq<(Vec<Vec<u8>>, T)>) -> Seq<T::V> {
    s.map_values(|p: (Vec<Vec<u8>>, T)| p.1@)
}

/// The pairs are in non-decreasing order of keys.
pub open spec fn pairs_sorted<T>(s: Seq<(Vec<Vec<u8>>, T)>) -> bool {
    forall|i: int, j: int|
        0 <= i < j < s.len() ==> key_le(pair_key(#[trigger] s[i]), pair_key(#[trigger] s[j]))
}

/// The pairs are in non-increasing order of keys.
pub open spec fn pairs_sorted_down<T>(s: Seq<(Vec<Vec<u8>>, T)>) -> bool {
    forall|i: int, j: int|
        0 <= i < j < s.len() ==> key_le(pair_key(#[trigger] s[j]), pair_key(#[trigger] s[i]))
}

/// Every pair of `s` has a key at most `k`.
pub open spec fn all_at_most<T>(s: Seq<(Vec<Vec<u8>>, T)>, k: Seq<Seq<u8>>) -> bool {
    forall|i: int| 0 <= i < s.len() ==> key_le(pair_key(#[trigger] s[i]), k)
}

proof fn lemma_pop_values<T: Keyed>(s: Seq<(Vec<Vec<u8>>, T)>)
    requires
        s.len() > 0,
    ensures
        forall|y: T::V|
            #![trigger pair_values(s).contains(y)]
            pair_values(s).contains(y) <==> pair_values(s.drop_last()).contains(y) || y
                == s.last().1@,
        pair_values(s) =~= pair_values(s.drop_last()).push(s.last().1@),
        pair_values(s).to_multiset() =~= pair_values(s.drop_last()).to_multiset().insert(
            s.last().1@,
        ),
{
    let all = pair_values(s);
    let front = pair_values(s.drop_last());
    assert(all =~= front.push(s.last().1@));
    assert forall|y: T::V| all.contains(y) <==> front.contains(y) || y == s.last().1@ by {
        if all.contains(y) {
            let i = choose|i: int| 0 <= i < all.len() && all[i] == y;
            if i < front.len() {
                assert(front[i] == y);
            }
        }
        if front.contains(y) {
            let i = choose|i: int| 0 <= i < front.len() && front[i] == y;
            assert(all[i] == y);
        }
        if y == s.last().1@ {
            assert(all[all.len() - 1] == y);
        }
    }
}

/// Merges two key-sorted sequences of pairs into one.
fn merge<T: Keyed>(a: Vec<(Vec<Vec<u8>>, T)>, b: Vec<(Vec<Vec<u8>>, T)>) -> (r: Vec<
    (Vec<Vec<u8>>, T),
>)
    requires
        pairs_ok(a@),
        pairs_ok(b@),
        pairs_sorted(a@),
        pairs_sorted(b@),
    ensures
        pairs_ok(r@),
        pairs_sorted(r@),
        pair_values(r@).to_multiset() == pair_values(a@).to_multiset().add(
            pair_values(b@).to_multiset(),
        ),
{
    let ghost total = pair_values(a@).to_multiset().add(pair_values(b@).to_multiset());
    let mut a = a;
    let mut b = b;
    let mut down: Vec<(Vec<Vec<u8>>, T)> = Vec::new();
    while a.len() > 0 || b.len() > 0
        invariant
            pairs_ok(a@),
            pairs_ok(b@),
            pairs_ok(down@),
            pairs_sorted(a@),
            pairs_sorted(b@),
            pairs_sorted_down(down@),
            down@.len() > 0 ==> all_at_most(a@, pair_key(down@.last())),
            down@.len() > 0 ==> all_at_most(b@, pair_key(down@.last())),
            pair_values(a@).to_multiset().add(pair_values(b@).to_multiset()).add(
                pair_values(down@).to_multiset(),
            ) == total,
        decreases a@.len() + b@.len(),
    {
        let take_a = if a.len() == 0 {
            false
        } else if b.len() == 0 {
            true
        } else {
            !key_le_exec(&a[a.len() - 1].0, &b[b.len() - 1].0)
        };
        let ghost a_before = a@;
        let ghost b_before = b@;
        let ghost down_before = down@;
        let p = if take_a {
            a.pop().unwrap()
        } else {
            b.pop().unwrap()
        };
        proof {
            let k = pair_key(p);
            if take_a {
                lemma_pop_values(a_before);
                assert(a@ =~= a_before.drop_last());
                if b_before.len() > 0 {
                    lemma_key_le_total(pair_key(a_before.last()), pair_key(b_before.last()));
                }
            } else {
                lemma_pop_values(b_before);
                assert(b@ =~= b_before.drop_last());
            }
            // the chosen key bounds what remains
            assert forall|i: int| 0 <= i < a@.len() implies key_le(
                pair_key(#[trigger] a@[i]),
                k,
            ) by {
                if take_a {
                    assert(a_before[i] == a@[i]);
                } else {
                    let al = pair_key(a_before.last());
                    lemma_key_le_total(al, k);
                    if i < a_before.len() - 1 {
                        lemma_key_le_transitive(pair_key(a_before[i]), al, k);
                    }
                }
            }
            assert forall|i: int| 0 <= i < b@.len() implies key_le(
                pair_key(#[trigger] b@[i]),
                k,
            ) by {
                if !take_a {
                    assert(b_before[i] == b@[i]);
                } else {
                    let bl = pair_key(b_before.last());
                    lemma_key_le_total(bl, k);
                    if i < b_before.len() - 1 {
                        lemma_key_le_transitive(pair_key(b_before[i]), bl, k);
                    }
                }
            }
            if down_before.len() > 0 {
                assert(key_le(k, pair_key(down_before.last())));
                assert forall|i: int| 0 <= i < down_before.len() implies key_le(
                    k,
                    pair_key(#[trigger] down_before[i]),
                ) by {
                    if i < down_before.len() - 1 {
                        lemma_key_le_transitive(
                            k,
                            pair_key(down_before.last()),
                            pair_key(down_before[i]),
                        );
                    }
                }
            }
        }
        down.push(p);
        proof {
            assert(down@.drop_last() =~= down_before);
            lemma_pop_values(down@);
            assert(pairs_sorted_down(down@)) by {
                assert forall|i: int, j: int| 0 <= i < j < down@.len() implies key_le(
                    pair_key(#[trigger] down@[j]),
                    pair_key(#[trigger] down@[i]),
                ) by {
                    if j < down_before.len() {
                        assert(down@[i] == down_before[i] && down@[j] == down_before[j]);
                    } else {
                        assert(down@[i] == down_before[i]);
                    }
                }
            }
        }
    }
    let mut r: Vec<(Vec<Vec<u8>>, T)> = Vec::new();
    while down.len() > 0
        invariant
            pairs_ok(down@),
            pairs_ok(r@),
            pairs_sorted(r@),
            pairs_sorted_down(down@),
            r@.len() > 0 ==> forall|i: int|
                0 <= i < down@.len() ==> key_le(pair_key(r@.last()), pair_key(#[trigger] down@[i])),
            pair_values(r@).to_multiset().add(pair_values(down@).to_multiset()) == total,
        decreases down@.len(),
    {
        let ghost down_before = down@;
        let ghost r_before = r@;
        let p = down.pop().unwrap();
        proof {
            lemma_pop_values(down_before);
            assert(down@ =~= down_before.drop_last());
        }
        r.push(p);
        proof {
            assert(r@.drop_last() =~= r_before);
            lemma_pop_values(r@);
            assert forall|i: int, j: int| 0 <= i < j < r@.len() implies key_le(
                pair_key(#[trigger] r@[i]),
                pair_key(#[trigger] r@[j]),
            ) by {
                if j < r_before.len() {
                    assert(r@[i] == r_before[i] && r@[j] == r_before[j]);
                } else if r_before.len() > 0 {
                    assert(r@[i] == r_before[i]);
                    assert(key_le(pair_key(r_before.last()), pair_key(down_before.last())));
                    if i < r_before.len() - 1 {
                    lemma_key_le_transitive(
                        pair_key(r_before[i]),
                        pair_key(r_before.last()),
                        pair_key(p),
                    );
                    }
                }
            }
            assert forall|i: int| 0 <= i < down@.len() implies key_le(
                pair_key(r@.last()),
                pair_key(#[trigger] down@[i]),
            ) by {
                assert(down@[i] == down_before[i]);
            }
        }
    }
    proof {
        assert(pair_values(down@) =~= Seq::<T::V>::empty());
        assert(pair_values(r@).to_multiset().add(Multiset::empty()) =~= pair_values(
            r@,
        ).to_multiset());
    }
    r
}

/// Sorts pairs by key, as a merge sort.
fn merge_sort<T: Keyed>(v: Vec<(Vec<Vec<u8>>, T)>) -> (r: Vec<(Vec<Vec<u8>>, T)>)
    requires
        pairs_ok(v@),
    ensures
        pairs_ok(r@),
        pairs_sorted(r@),
        pair_values(r@).to_multiset() == pair_values(v@).to_multiset(),
    decreases v@.len(),
{
    if v.len() <= 1 {
        return v;
    }
    let ghost whole = v@;
    let mut left = v;
    let mid = left.len() / 2;
    let right = left.split_off(mid);
    proof {
        assert(whole =~= left@ + right@);
        assert(pair_values(whole) =~= pair_values(left@) + pair_values(right@));
        vstd::seq_lib::lemma_multiset_commutative(pair_values(left@), pair_values(right@));
    }
    let left = merge_sort(left);
    let right = merge_sort(right);
    merge(left, right)
}

/// Pairs each item with its key.
fn with_keys<T: Keyed>(items: Vec<T>) -> (r: Vec<(Vec<Vec<u8>>, T)>)
    ensures
        pairs_ok(r@),
        pair_values(r@).to_multiset() == views(items@).to_multiset(),
{
    let ghost given = items@;
    let mut rest = items;
    let mut r: Vec<(Vec<Vec<u8>>, T)> = Vec::new();
    while rest.len() > 0
        invariant
            pairs_ok(r@),
            pair_values(r@).to_multiset().add(views(rest@).to_multiset()) == views(
                given,
            ).to_multiset(),
        decreases rest@.len(),
    {
        let ghost rest_before = rest@;
        let ghost r_before = r@;
        let x = rest.pop().unwrap();
        let k = x.key();
        r.push((k, x));
        proof {
            assert(rest_before =~= rest@.push(x));
            assert(views(rest_before) =~= views(rest@).push(x@));
            assert(r@.drop_last() =~= r_before);
            lemma_pop_values(r@);
        }
    }
    proof {
        assert(views(rest@) =~= Seq::<T::V>::empty());
        assert(pair_values(r@).to_multiset().add(Multiset::empty()) =~= pair_values(
            r@,
        ).to_multiset());
    }
    r
}

/// The items of the pairs, in order.
fn without_keys<T: Keyed>(pairs: Vec<(Vec<Vec<u8>>, T)>) -> (r: Vec<T>)
    ensures
        views(r@) == pair_values(pairs@),
{
    let ghost given = pairs@;
    let mut rest = pairs;
    let mut down: Vec<T> = Vec::new();
    while rest.len() > 0
        invariant
            rest@.len() + down@.len() == given.len(),
            forall|i: int| 0 <= i < rest@.len() ==> #[trigger] rest@[i] == given[i],
            forall|i: int|
                0 <= i < down@.len() ==> (#[trigger] down@[i])@ == given[given.len() - 1
                    - i].1@,
        decreases rest@.len(),
    {
        let (_, x) = rest.pop().unwrap();
        down.push(x);
    }
    let mut r: Vec<T> = Vec::new();
    while down.len() > 0
        invariant
            down@.len() + r@.len() == given.len(),
            forall|i: int|
                0 <= i < down@.len() ==> (#[trigger] down@[i])@ == given[given.len() - 1
                    - i].1@,
            forall|i: int| 0 <= i < r@.len() ==> (#[trigger] r@[i])@ == given[i].1@,
        decreases down@.len(),
    {
        let x = down.pop().unwrap();
        r.push(x);
    }
    assert(views(r@) =~= pair_values(given));
    r
}

/// Sorts `items` into non-decreasing order of their keys.
pub fn sort_by_key<T: Keyed>(items: Vec<T>) -> (r: Vec<T>)
    ensures
        views(r@).to_multiset() == views(items@).to_multiset(),
        sorted_by_key::<T>(views(r@)),
{
    let pairs = merge_sort(with_keys(items));
    let r = without_keys(pairs);
    assert forall|i: int, j: int| 0 <= i < j < views(r@).len() implies key_le(
        T::key_of(#[trigger] views(r@)[i]),
        T::key_of(#[trigger] views(r@)[j]),
    ) by {
        assert(views(r@)[i] == pair_values(pairs@)[i]);
        assert(views(r@)[j] == pair_values(pairs@)[j]);
        assert(key_le(pair_key(pairs@[i]), pair_key(pairs@[j])));
    }
    r
}

/// Keeps, of each run of pairs with equal keys, the first.
fn dedup_sorted<T: DistinctKeyed>(v: Vec<(Vec<Vec<u8>>, T)>) -> (r: Vec<(Vec<Vec<u8>>, T)>)
    requires
        pairs_ok(v@),
        pairs_sorted(v@),
    ensures
        pairs_ok(r@),
        pairs_sorted(r@),
        forall|i: int, j: int|
            0 <= i < j < r@.len() ==> pair_key(#[trigger] r@[i]) != pair_key(#[trigger] r@[j]),
        forall|x: T::V| pair_values(r@).contains(x) <==> pair_values(v@).contains(x),
{
    let ghost given = v@;
    let mut rest = v;
    let mut down: Vec<(Vec<Vec<u8>>, T)> = Vec::new();
    while rest.len() > 0
        invariant
            pairs_ok(rest@),
            pairs_ok(down@),
            pairs_sorted(rest@),
            pairs_sorted_down(down@),
            forall|i: int, j: int|
                0 <= i < j < down@.len() ==> pair_key(#[trigger] down@[i]) != pair_key(
                    #[trigger] down@[j],
                ),
            down@.len() > 0 ==> all_at_most(rest@, pair_key(down@.last())),
            forall|x: T::V|
                pair_values(given).contains(x) <==> pair_values(rest@).contains(x)
                    || pair_values(down@).contains(x),
        decreases rest@.len(),
    {
        let ghost rest_before = rest@;
        let ghost down_before = down@;
        let p = rest.pop().unwrap();
        proof {
            lemma_pop_values(rest_before);
            assert(rest@ =~= rest_before.drop_last());
            assert forall|i: int| 0 <= i < rest@.len() implies key_le(
                pair_key(#[trigger] rest@[i]),
                pair_key(p),
            ) by {
                assert(rest@[i] == rest_before[i]);
            }
        }
        let keep = if down.len() == 0 {
            true
        } else {
            !key_le_exec(&down[down.len() - 1].0, &p.0)
        };
        if keep {
            proof {
                if down_before.len() > 0 {
                    let last = pair_key(down_before.last());
                    lemma_key_le_total(last, pair_key(p));
                    assert forall|i: int| 0 <= i < down_before.len() implies key_le(
                        pair_key(p),
                        pair_key(#[trigger] down_before[i]),
                    ) && pair_key(p) != pair_key(down_before[i]) by {
                        if i < down_before.len() - 1 {
                            lemma_key_le_transitive(pair_key(p), last, pair_key(down_before[i]));
                            if pair_key(p) == pair_key(down_before[i]) {
                                lemma_key_le_antisymmetric(last, pair_key(down_before[i]));
                            }
                        }
                    }
                }
            }
            down.push(p);
            proof {
                assert(down@.drop_last() =~= down_before);
                lemma_pop_values(down@);
                assert forall|i: int, j: int| 0 <= i < j < down@.len() implies key_le(
                    pair_key(#[trigger] down@[j]),
                    pair_key(#[trigger] down@[i]),
                ) && pair_key(down@[i]) != pair_key(down@[j]) by {
                    if j < down_before.len() {
                        assert(down@[i] == down_before[i] && down@[j] == down_before[j]);
                    } else {
                        assert(down@[i] == down_before[i]);
                    }
                }
            }
        } else {
            proof {
                let last = down_before.last();
                assert(key_le(pair_key(p), pair_key(last)));
                lemma_key_le_antisymmetric(pair_key(last), pair_key(p));
                T::lemma_key_injective(p.1@, last.1@);
                assert(pair_values(down_before)[down_before.len() - 1] == p.1@);
            }
        }
    }
    let mut r: Vec<(Vec<Vec<u8>>, T)> = Vec::new();
    while down.len() > 0
        invariant
            pairs_ok(down@),
            pairs_ok(r@),
            pairs_sorted(r@),
            pairs_sorted_down(down@),
            forall|i: int, j: int|
                0 <= i < j < down@.len() ==> pair_key(#[trigger] down@[i]) != pair_key(
                    #[trigger] down@[j],
                ),
            forall|i: int, j: int|
                0 <= i < j < r@.len() ==> pair_key(#[trigger] r@[i]) != pair_key(#[trigger] r@[j]),
            r@.len() > 0 ==> forall|i: int|
                0 <= i < down@.len() ==> key_le(pair_key(r@.last()), pair_key(#[trigger] down@[i]))
                    && pair_key(r@.last()) != pair_key(down@[i]),
            forall|x: T::V|
                pair_values(given).contains(x) <==> pair_values(r@).contains(x)
                    || pair_values(down@).contains(x),
        decreases down@.len(),
    {
        let ghost down_before = down@;
        let ghost r_before = r@;
        let p = down.pop().unwrap();
        proof {
            lemma_pop_values(down_before);
            assert(down@ =~= down_before.drop_last());
        }
        r.push(p);
        proof {
            assert(r@.drop_last() =~= r_before);
            lemma_pop_values(r@);
            assert forall|i: int, j: int| 0 <= i < j < r@.len() implies key_le(
                pair_key(#[trigger] r@[i]),
                pair_key(#[trigger] r@[j]),
            ) && pair_key(r@[i]) != pair_key(r@[j]) by {
                if j < r_before.len() {
                    assert(r@[i] == r_before[i] && r@[j] == r_before[j]);
                } else if r_before.len() > 0 {
                    assert(r@[i] == r_before[i]);
                    assert(key_le(pair_key(r_before.last()), pair_key(down_before.last())));
                    if i < r_before.len() - 1 {
                        lemma_key_le_transitive(
                            pair_key(r_before[i]),
                            pair_key(r_before.last()),
                            pair_key(p),
                        );
                        if pair_key(r_before[i]) == pair_key(p) {
                            lemma_key_le_antisymmetric(
                                pair_key(r_before[i]),
                                pair_key(r_before.last()),
                            );
                        }
                    }
                }
            }
            assert forall|i: int| 0 <= i < down@.len() implies key_le(
                pair_key(r@.last()),
                pair_key(#[trigger] down@[i]),
            ) && pair_key(r@.last()) != pair_key(down@[i]) by {
                assert(down@[i] == down_before[i]);
            }
        }
    }
    r
}

/// Sorts `items` by key, keeping one of each value.
pub fn sort_distinct<T: DistinctKeyed>(items: Vec<T>) -> (r: Vec<T>)
    ensures
        views(r@).to_set() == views(items@).to_set(),
        views(r@).no_duplicates(),
        sorted_by_key::<T>(views(r@)),
{
    let pairs = merge_sort(with_keys(items));
    proof {
        assert forall|x: T::V| pair_values(pairs@).contains(x) <==> views(items@).contains(x) by {
            assert(pair_values(pairs@).contains(x) <==> pair_values(pairs@).to_multiset().count(x)
                > 0);
            assert(views(items@).contains(x) <==> views(items@).to_multiset().count(x) > 0);
        }
    }
    let distinct = dedup_sorted(pairs);
    let r = without_keys(distinct);
    assert forall|i: int, j: int| 0 <= i < j < views(r@).len() implies key_le(
        T::key_of(#[trigger] views(r@)[i]),
        T::key_of(#[trigger] views(r@)[j]),
    ) && views(r@)[i] != views(r@)[j] by {
        assert(views(r@)[i] == pair_values(distinct@)[i]);
        assert(views(r@)[j] == pair_values(distinct@)[j]);
        assert(key_le(pair_key(distinct@[i]), pair_key(distinct@[j])));
        assert(pair_key(distinct@[i]) != pair_key(distinct@[j]));
    }
    assert(views(r@).to_set() =~= views(items@).to_set());
    r
}

/// Sorting is deterministic: two sequences that hold the same values, each
/// sorted by a key that tells values apart, are the same sequence.
pub proof fn law_sorted_permutation_unique<T: DistinctKeyed>(a: Seq<T::V>, b: Seq<T::V>)
    requires
        a.to_multiset() == b.to_multiset(),
        sorted_by_key::<T>(a),
        sorted_by_key::<T>(b),
    ensures
        a == b,
    decreases a.len(),
{
    assert(a.len() == a.to_multiset().len());
    assert(b.len() == b.to_multiset().len());
    if a.len() > 0 {
        let x = a.last();
        let y = b.last();
        assert(a.to_multiset().count(x) > 0);
        assert(b.contains(x));
        let i = choose|i: int| 0 <= i < b.len() && b[i] == x;
        assert(b.to_multiset().count(y) > 0);
        assert(a.contains(y));
        let j = choose|j: int| 0 <= j < a.len() && a[j] == y;
        if i < b.len() - 1 {
            assert(key_le(T::key_of(b[i]), T::key_of(y)));
        } else {
            lemma_key_le_total(T::key_of(x), T::key_of(y));
        }
        if j < a.len() - 1 {
            assert(key_le(T::key_of(a[j]), T::key_of(x)));
        } else {
            lemma_key_le_total(T::key_of(y), T::key_of(x));
        }
        lemma_key_le_antisymmetric(T::key_of(x), T::key_of(y));
        T::lemma_key_injective(x, y);
        assert(a =~= a.drop_last().push(x));
        assert(b =~= b.drop_last().push(y));
        assert(a.drop_last().to_multiset() =~= a.to_multiset().remove(x));
        assert(b.drop_last().to_multiset() =~= b.to_multiset().remove(y));
        law_sorted_permutation_unique::<T>(a.drop_last(), b.drop_last());
    }
}

/// The order of byte strings is the lexicographic one: `a` comes first
/// (or equals `b`) exactly when it is a prefix of `b`, or at the first
/// index where they differ its byte is the smaller.
pub proof fn law_bytes_le_lexicographic(a: Seq<u8>, b: Seq<u8>)
    ensures
        bytes_le(a, b) <==> (a.len() <= b.len() && a == b.take(a.len() as int)) || exists|i: int|
            0 <= i < a.len() && i < b.len() && a.take(i) == b.take(i) && #[trigger] a[i] < b[i],
    decreases a.len(),
{
    if a.len() == 0 {
        assert(a =~= b.take(0));
    } else if b.len() == 0 {
    } else if a[0] != b[0] {
        if a[0] < b[0] {
            assert(a.take(0) =~= b.take(0));
        } else {
            if a.len() <= b.len() && a == b.take(a.len() as int) {
                assert(a[0] == b.take(a.len() as int)[0]);
            }
            if exists|i: int|
                0 <= i < a.len() && i < b.len() && a.take(i) == b.take(i) && #[trigger] a[i] < b[i] {
                let i = choose|i: int|
                    0 <= i < a.len() && i < b.len() && a.take(i) == b.take(i) && #[trigger] a[i]
                        < b[i];
                if i > 0 {
                    assert(a.take(i)[0] == b.take(i)[0]);
                }
            }
        }
    } else {
        let a1 = a.drop_first();
        let b1 = b.drop_first();
        law_bytes_le_lexicographic(a1, b1);
        if a.len() <= b.len() && a == b.take(a.len() as int) {
            assert(a1 =~= b1.take(a1.len() as int));
        }
        if a1.len() <= b1.len() && a1 == b1.take(a1.len() as int) {
            assert(a =~= b.take(a.len() as int)) by {
                assert forall|k: int| 0 <= k < a.len() implies a[k] == b.take(a.len() as int)[k] by {
                    if k > 0 {
                        assert(a[k] == a1[k - 1]);
                        assert(a1[k - 1] == b1.take(a1.len() as int)[k - 1]);
                    }
                }
            }
        }
        if exists|i: int|
            0 <= i < a.len() && i < b.len() && a.take(i) == b.take(i) && #[trigger] a[i] < b[i] {
            let i = choose|i: int|
                0 <= i < a.len() && i < b.len() && a.take(i) == b.take(i) && #[trigger] a[i] < b[i];
            assert(i > 0);
            assert(a1.take(i - 1) =~= b1.take(i - 1)) by {
                assert forall|k: int| 0 <= k < i - 1 implies a1[k] == b1[k] by {
                    assert(a.take(i)[k + 1] == b.take(i)[k + 1]);
                }
            }
            assert(a1[i - 1] < b1[i - 1]);
        }
        if exists|i: int|
            0 <= i < a1.len() && i < b1.len() && a1.take(i) == b1.take(i) && #[trigger] a1[i]
                < b1[i] {
            let i = choose|i: int|
                0 <= i < a1.len() && i < b1.len() && a1.take(i) == b1.take(i) && #[trigger] a1[i]
                    < b1[i];
            assert(a.take(i + 1) =~= b.take(i + 1)) by {
                assert forall|k: int| 0 <= k < i + 1 implies a[k] == b[k] by {
                    if k > 0 {
                        assert(a1.take(i)[k - 1] == b1.take(i)[k - 1]);
                    }
                }
            }
            assert(a[i + 1] < b[i + 1]);
        }
    }
}

} // verus!
