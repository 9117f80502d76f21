use vstd::prelude::*;

verus! {

/// The first element of `s` whose key, under `key`, equals `id`.
pub open spec fn find_by<T, K>(s: Seq<T>, key: spec_fn(T) -> K, id: K) -> Option<T>
    decreases s.len(),
{
    if s.len() == 0 {
        None
    } else if key(s[0]) == id {
        Some(s[0])
    } else {
        find_by(s.drop_first(), key, id)
    }
}

/// `s` with the first element keyed `id` removed; `s` itself when no element is.
pub open spec fn remove_by<T, K>(s: Seq<T>, key: spec_fn(T) -> K, id: K) -> Seq<T>
    decreases s.len(),
{
    if s.len() == 0 {
        s
    } else if key(s[0]) == id {
        s.drop_first()
    } else {
        seq![s[0]] + remove_by(s.drop_first(), key, id)
    }
}

/// No two elements of `s` share a key under `key`.
pub open spec fn keys_distinct<T, K>(s: Seq<T>, key: spec_fn(T) -> K) -> bool {
    forall|i: int, j: int| 0 <= i < j < s.len() ==> key(s[i]) != key(s[j])
}

pub proof fn lemma_distinct_drop_first<T, K>(s: Seq<T>, key: spec_fn(T) -> K)
    requires
        s.len() > 0,
        keys_distinct(s, key),
    ensures
        keys_distinct(s.drop_first(), key),
{
    let r = s.drop_first();
    assert forall|i: int, j: int| 0 <= i < j < r.len() implies key(#[trigger] r[i]) != key(
        #[trigger] r[j],
    ) by {
        assert(r[i] == s[i + 1]);
        assert(r[j] == s[j + 1]);
    }
}

/// `find_by` misses exactly when no element carries the key.
pub proof fn lemma_find_by_none<T, K>(s: Seq<T>, key: spec_fn(T) -> K, id: K)
    ensures
        (find_by(s, key, id) is None) <==> (forall|i: int| 0 <= i < s.len() ==> key(s[i]) != id),
    decreases s.len(),
{
    if s.len() > 0 {
        let rest = s.drop_first();
        lemma_find_by_none(rest, key, id);
        if key(s[0]) == id {
        } else {
            if forall|i: int| 0 <= i < rest.len() ==> key(rest[i]) != id {
                assert forall|i: int| 0 <= i < s.len() implies key(s[i]) != id by {
                    if i >= 1 {
                        assert(key(rest[i - 1]) != id);
                        assert(rest[i - 1] == s[i]);
                    }
                }
            } else {
                let i = choose|i: int| 0 <= i < rest.len() && key(rest[i]) == id;
                assert(s[i + 1] == rest[i]);
            }
        }
    }
}

/// A hit of `find_by` is an element of the sequence carrying the key.
pub proof fn lemma_find_by_some<T, K>(s: Seq<T>, key: spec_fn(T) -> K, id: K)
    requires
        find_by(s, key, id) is Some,
    ensures
        exists|i: int|
            0 <= i < s.len() && s[i] == find_by(s, key, id)->0 && key(#[trigger] s[i]) == id,
    decreases s.len(),
{
    if key(s[0]) == id {
        assert(s[0] == find_by(s, key, id)->0 && key(s[0]) == id);
    } else {
        lemma_find_by_some(s.drop_first(), key, id);
        let i = choose|i: int|
            0 <= i < s.drop_first().len() && s.drop_first()[i] == find_by(
                s.drop_first(),
                key,
                id,
            )->0 && key(#[trigger] s.drop_first()[i]) == id;
        assert(s[i + 1] == s.drop_first()[i]);
    }
}

/// One binding of `find_by` after replacing the element at `i` by one with
/// the same key.
pub proof fn lemma_find_by_update_one<T, K>(s: Seq<T>, key: spec_fn(T) -> K, i: int, v: T, id: K)
    requires
        keys_distinct(s, key),
        0 <= i < s.len(),
        key(v) == key(s[i]),
    ensures
        find_by(s.update(i, v), key, id) == if id == key(v) {
            Some(v)
        } else {
            find_by(s, key, id)
        },
    decreases s.len(),
{
    let s2 = s.update(i, v);
    if i == 0 {
        assert(s2[0] == v);
        if id != key(v) {
            assert(s2.drop_first() =~= s.drop_first());
        }
    } else {
        lemma_distinct_drop_first(s, key);
        assert(s.drop_first()[i - 1] == s[i]);
        lemma_find_by_update_one(s.drop_first(), key, i - 1, v, id);
        assert(s2.drop_first() =~= s.drop_first().update(i - 1, v));
        assert(s2[0] == s[0]);
        if key(s[0]) == id {
            assert(key(s[0]) != key(s[i]));
        }
    }
}

/// Replacing the element at `i` by one with the same key updates that key's
/// binding and no other.
pub proof fn lemma_find_by_update<T, K>(s: Seq<T>, key: spec_fn(T) -> K, i: int, v: T)
    requires
        keys_distinct(s, key),
        0 <= i < s.len(),
        key(v) == key(s[i]),
    ensures
        keys_distinct(s.update(i, v), key),
        forall|id: K|
            #[trigger] find_by(s.update(i, v), key, id) == if id == key(v) {
                Some(v)
            } else {
                find_by(s, key, id)
            },
{
    let s2 = s.update(i, v);
    assert forall|m: int, n: int| 0 <= m < n < s2.len() implies key(#[trigger] s2[m]) != key(
        #[trigger] s2[n],
    ) by {
        assert(key(s2[m]) == key(s[m]));
        assert(key(s2[n]) == key(s[n]));
    }
    assert forall|id: K|
        #[trigger] find_by(s.update(i, v), key, id) == if id == key(v) {
            Some(v)
        } else {
            find_by(s, key, id)
        } by {
        lemma_find_by_update_one(s, key, i, v, id);
    }
}

/// One binding of `find_by` after appending an element with a fresh key.
pub proof fn lemma_find_by_push_one<T, K>(s: Seq<T>, key: spec_fn(T) -> K, v: T, id: K)
    requires
        find_by(s, key, key(v)) is None,
    ensures
        find_by(s.push(v), key, id) == if id == key(v) {
            Some(v)
        } else {
            find_by(s, key, id)
        },
    decreases s.len(),
{
    let s2 = s.push(v);
    if s.len() == 0 {
        assert(s2[0] == v);
        if id != key(v) {
            assert(s2.drop_first() =~= Seq::<T>::empty());
            assert(find_by(Seq::<T>::empty(), key, id) is None);
        }
    } else {
        assert(key(s[0]) != key(v));
        lemma_find_by_push_one(s.drop_first(), key, v, id);
        assert(s2.drop_first() =~= s.drop_first().push(v));
        assert(s2[0] == s[0]);
    }
}

/// Appending an element with a fresh key adds that binding and keeps the rest.
pub proof fn lemma_find_by_push<T, K>(s: Seq<T>, key: spec_fn(T) -> K, v: T)
    requires
        find_by(s, key, key(v)) is None,
    ensures
        keys_distinct(s, key) ==> keys_distinct(s.push(v), key),
        forall|id: K|
            #[trigger] find_by(s.push(v), key, id) == if id == key(v) {
                Some(v)
            } else {
                find_by(s, key, id)
            },
{
    lemma_find_by_none(s, key, key(v));
    let s2 = s.push(v);
    if keys_distinct(s, key) {
        assert forall|m: int, n: int| 0 <= m < n < s2.len() implies key(#[trigger] s2[m]) != key(
            #[trigger] s2[n],
        ) by {
            if n < s.len() {
                assert(s2[m] == s[m]);
                assert(s2[n] == s[n]);
            } else {
                assert(s2[n] == v);
                assert(s2[m] == s[m]);
            }
        }
    }
    assert forall|id: K|
        #[trigger] find_by(s.push(v), key, id) == if id == key(v) {
            Some(v)
        } else {
            find_by(s, key, id)
        } by {
        lemma_find_by_push_one(s, key, v, id);
    }
}

/// A binding other than the removed one survives `remove_by` unchanged.
pub proof fn lemma_remove_by_other<T, K>(s: Seq<T>, key: spec_fn(T) -> K, id: K, id2: K)
    requires
        keys_distinct(s, key),
        id2 != id,
    ensures
        find_by(remove_by(s, key, id), key, id2) == find_by(s, key, id2),
    decreases s.len(),
{
    if s.len() == 0 {
    } else if key(s[0]) == id {
    } else {
        lemma_distinct_drop_first(s, key);
        lemma_remove_by_other(s.drop_first(), key, id, id2);
        let r = remove_by(s, key, id);
        assert(r == seq![s[0]] + remove_by(s.drop_first(), key, id));
        assert(r.len() > 0);
        assert(r[0] == s[0]);
        assert(r.drop_first() =~= remove_by(s.drop_first(), key, id));
    }
}

/// `remove_by` drops exactly the given key's binding and keeps every other.
pub proof fn lemma_remove_by<T, K>(s: Seq<T>, key: spec_fn(T) -> K, id: K)
    requires
        keys_distinct(s, key),
    ensures
        keys_distinct(remove_by(s, key, id), key),
        find_by(remove_by(s, key, id), key, id) is None,
        forall|id2: K|
            id2 != id ==> #[trigger] find_by(remove_by(s, key, id), key, id2) == find_by(
                s,
                key,
                id2,
            ),
        find_by(s, key, id) is Some ==> remove_by(s, key, id).len() == s.len() - 1,
        find_by(s, key, id) is None ==> remove_by(s, key, id) == s,
    decreases s.len(),
{
    lemma_find_by_none(s, key, id);
    assert forall|id2: K|
        id2 != id implies #[trigger] find_by(remove_by(s, key, id), key, id2) == find_by(
        s,
        key,
        id2,
    ) by {
        lemma_remove_by_other(s, key, id, id2);
    }
    if s.len() == 0 {
    } else if key(s[0]) == id {
        lemma_distinct_drop_first(s, key);
        lemma_find_by_none(s.drop_first(), key, id);
        assert forall|i: int| 0 <= i < s.drop_first().len() implies key(
            #[trigger] s.drop_first()[i],
        ) != id by {
            assert(s.drop_first()[i] == s[i + 1]);
        }
    } else {
        lemma_distinct_drop_first(s, key);
        lemma_remove_by(s.drop_first(), key, id);
        let rr = remove_by(s.drop_first(), key, id);
        let r = remove_by(s, key, id);
        assert(r == seq![s[0]] + rr);
        assert(r[0] == s[0]);
        assert(r.drop_first() =~= rr);
        lemma_find_by_none(rr, key, id);
        assert forall|m: int, n: int| 0 <= m < n < r.len() implies key(#[trigger] r[m]) != key(
            #[trigger] r[n],
        ) by {
            if m == 0 {
                assert(rr[n - 1] == r[n]);
                lemma_remove_by_membership(s.drop_first(), key, id, n - 1);
                let w = choose|w: int|
                    0 <= w < s.drop_first().len() && s.drop_first()[w] == rr[n - 1];
                assert(s[w + 1] == rr[n - 1]);
            } else {
                assert(r[m] == rr[m - 1]);
                assert(r[n] == rr[n - 1]);
            }
        }
        if find_by(s, key, id) is None {
            assert(rr == s.drop_first());
            assert(r =~= s);
        }
    }
}

/// Every element of `remove_by`'s result occurs in the sequence it came from.
pub proof fn lemma_remove_by_membership<T, K>(s: Seq<T>, key: spec_fn(T) -> K, id: K, i: int)
    requires
        0 <= i < remove_by(s, key, id).len(),
    ensures
        exists|j: int| 0 <= j < s.len() && s[j] == remove_by(s, key, id)[i],
    decreases s.len(),
{
    if s.len() == 0 {
    } else if key(s[0]) == id {
        assert(s.drop_first()[i] == s[i + 1]);
    } else {
        let r = remove_by(s, key, id);
        if i == 0 {
            assert(r[0] == s[0]);
        } else {
            lemma_remove_by_membership(s.drop_first(), key, id, i - 1);
            let rr = remove_by(s.drop_first(), key, id);
            assert(r[i] == rr[i - 1]);
            let j = choose|j: int| 0 <= j < s.drop_first().len() && s.drop_first()[j] == rr[i - 1];
            assert(s[j + 1] == rr[i - 1]);
        }
    }
}

/// Removing the element at an index `i` that is the first occurrence of its key
/// is what `remove_by` describes.
pub proof fn lemma_remove_by_index<T, K>(s: Seq<T>, key: spec_fn(T) -> K, i: int)
    requires
        0 <= i < s.len(),
        forall|j: int| 0 <= j < i ==> key(s[j]) != key(s[i]),
    ensures
        remove_by(s, key, key(s[i])) == s.remove(i),
    decreases s.len(),
{
    if i == 0 {
        assert(s.remove(0) =~= s.drop_first());
    } else {
        assert forall|j: int| 0 <= j < i - 1 implies key(#[trigger] s.drop_first()[j]) != key(
            s.drop_first()[i - 1],
        ) by {
            assert(s.drop_first()[j] == s[j + 1]);
            assert(s.drop_first()[i - 1] == s[i]);
        }
        assert(s.drop_first()[i - 1] == s[i]);
        lemma_remove_by_index(s.drop_first(), key, i - 1);
        assert(key(s[0]) != key(s[i]));
        assert(remove_by(s, key, key(s[i])) == seq![s[0]] + s.drop_first().remove(i - 1));
        assert(seq![s[0]] + s.drop_first().remove(i - 1) =~= s.remove(i));
    }
}

/// One step of a linear scan: skipping past a non-matching element keeps the result.
pub proof fn lemma_find_by_skip_step<T, K>(s: Seq<T>, key: spec_fn(T) -> K, id: K, i: int)
    requires
        0 <= i < s.len(),
        key(s[i]) != id,
    ensures
        find_by(s.skip(i), key, id) == find_by(s.skip(i + 1), key, id),
{
    assert(s.skip(i)[0] == s[i]);
    assert(s.skip(i).drop_first() =~= s.skip(i + 1));
}

/// Byte-vector equality, element by element.
pub fn bytes_eq(a: &Vec<u8>, b: &Vec<u8>) -> (r: bool)
    ensures
        r <==> a@ == b@,
{
    if a.len() != b.len() {
        return false;
    }
    let mut i: usize = 0;
    while i < a.len()
        invariant
            i <= a.len(),
            a.len() == b.len(),
            forall|j: int| 0 <= j < i ==> a@[j] == b@[j],
        decreases a.len() - i,
    {
        if a[i] != b[i] {
            return false;
        }
        i += 1;
    }
    proof {
        assert(a@ =~= b@);
    }
    true
}

/// A fresh copy of a byte vector.
pub fn clone_bytes(a: &Vec<u8>) -> (r: Vec<u8>)
    ensures
        r@ == a@,
{
    let mut r: Vec<u8> = Vec::new();
    let mut i: usize = 0;
    while i < a.len()
        invariant
            i <= a.len(),
            r@ =~= a@.take(i as int),
        decreases a.len() - i,
    {
        r.push(a[i]);
        i += 1;
    }
    proof {
        assert(a@.take(a@.len() as int) =~= a@);
    }
    r
}

} // verus!
