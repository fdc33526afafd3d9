use vstd::prelude::*;

verus! {

// Weighted lists of keys: the mathematical side of sparse vectors and of
// cardinality distributions. A list may repeat a key; the weight of a key is
// the sum over its entries.

/// Summed weight of the entries of `s` whose key is `key`.
pub open spec fn weight_of<K>(s: Seq<(K, int)>, key: K) -> int
    decreases s.len(),
{
    if s.len() == 0 {
        0
    } else {
        weight_of(s.drop_last(), key) + if s.last().0 == key {
            s.last().1
        } else {
            0
        }
    }
}

/// Summed weight of all entries.
pub open spec fn total<K>(s: Seq<(K, int)>) -> int
    decreases s.len(),
{
    if s.len() == 0 {
        0
    } else {
        total(s.drop_last()) + s.last().1
    }
}

pub open spec fn nonneg<K>(s: Seq<(K, int)>) -> bool {
    forall|i: int| 0 <= i < s.len() ==> #[trigger] s[i].1 >= 0
}

pub open spec fn keys_unique<K>(s: Seq<(K, int)>) -> bool {
    forall|i: int, j: int| 0 <= i < j < s.len() ==> #[trigger] s[i].0 != #[trigger] s[j].0
}

/// Every key's weight fits in a `u64`.
pub open spec fn fits_u64<K>(s: Seq<(K, int)>) -> bool {
    forall|key: K| #[trigger] weight_of(s, key) <= u64::MAX
}

/// Index of the first entry with key `key`, or -1.
pub open spec fn key_index<K>(s: Seq<(K, int)>, key: K) -> int
    decreases s.len(),
{
    if s.len() == 0 {
        -1
    } else {
        let r = key_index(s.drop_last(), key);
        if r >= 0 {
            r
        } else if s.last().0 == key {
            s.len() - 1
        } else {
            -1
        }
    }
}

/// Adds one weighted key: to the entry of that key if there is one, else as a new last entry.
pub open spec fn insert_weight<K>(s: Seq<(K, int)>, e: (K, int)) -> Seq<(K, int)> {
    let i = key_index(s, e.0);
    if i >= 0 {
        s.update(i, (e.0, s[i].1 + e.1))
    } else {
        s.push(e)
    }
}

/// The list with one entry per key, in order of first occurrence, each with its summed weight.
pub open spec fn merge<K>(s: Seq<(K, int)>) -> Seq<(K, int)>
    decreases s.len(),
{
    if s.len() == 0 {
        Seq::empty()
    } else {
        insert_weight(merge(s.drop_last()), s.last())
    }
}

/// Every weight multiplied by `c`.
pub open spec fn scaled<K>(c: int, s: Seq<(K, int)>) -> Seq<(K, int)> {
    s.map_values(|e: (K, int)| (e.0, c * e.1))
}

pub proof fn lemma_key_index<K>(s: Seq<(K, int)>, key: K)
    ensures
        -1 <= key_index(s, key) < s.len(),
        key_index(s, key) >= 0 ==> s[key_index(s, key)].0 == key,
        forall|j: int|
            0 <= j < s.len() && (key_index(s, key) < 0 || j < key_index(s, key)) ==> s[j].0 != key,
    decreases s.len(),
{
    if s.len() > 0 {
        let d = s.drop_last();
        lemma_key_index(d, key);
        assert forall|j: int|
            0 <= j < s.len() && (key_index(s, key) < 0 || j < key_index(s, key)) implies #[trigger] s[j].0
            != key by {
            if j < s.len() - 1 {
                assert(s[j] == d[j]);
            }
        }
    }
}

pub proof fn lemma_weight_append<K>(a: Seq<(K, int)>, b: Seq<(K, int)>, key: K)
    ensures
        weight_of(a + b, key) == weight_of(a, key) + weight_of(b, key),
        total(a + b) == total(a) + total(b),
    decreases b.len(),
{
    if b.len() == 0 {
        assert(a + b =~= a);
    } else {
        assert((a + b).drop_last() =~= a + b.drop_last());
        lemma_weight_append(a, b.drop_last(), key);
    }
}

pub proof fn lemma_weight_nonneg<K>(s: Seq<(K, int)>, key: K)
    requires
        nonneg(s),
    ensures
        weight_of(s, key) >= 0,
        total(s) >= 0,
    decreases s.len(),
{
    if s.len() > 0 {
        assert(s.last().1 >= 0);
        lemma_weight_nonneg(s.drop_last(), key);
    }
}

/// A prefix of a list of nonnegative weights weighs no more than the list.
pub proof fn lemma_prefix_weight<K>(s: Seq<(K, int)>, m: int, key: K)
    requires
        nonneg(s),
        0 <= m <= s.len(),
    ensures
        weight_of(s.subrange(0, m), key) <= weight_of(s, key),
{
    let rest = s.subrange(m, s.len() as int);
    assert(s.subrange(0, m) + rest =~= s);
    lemma_weight_append(s.subrange(0, m), rest, key);
    assert(nonneg(rest)) by {
        assert forall|i: int| 0 <= i < rest.len() implies #[trigger] rest[i].1 >= 0 by {
            assert(rest[i] == s[m + i]);
        }
    }
    lemma_weight_nonneg(rest, key);
}

proof fn lemma_weight_update<K>(s: Seq<(K, int)>, i: int, x: int, key: K)
    requires
        0 <= i < s.len(),
    ensures
        weight_of(s.update(i, (s[i].0, s[i].1 + x)), key) == weight_of(s, key) + if s[i].0
            == key {
            x
        } else {
            0
        },
        total(s.update(i, (s[i].0, s[i].1 + x))) == total(s) + x,
    decreases s.len(),
{
    let u = s.update(i, (s[i].0, s[i].1 + x));
    if i < s.len() - 1 {
        assert(u.drop_last() =~= s.drop_last().update(i, (s[i].0, s[i].1 + x)));
        lemma_weight_update(s.drop_last(), i, x, key);
    } else {
        assert(u.drop_last() =~= s.drop_last());
    }
}

pub proof fn lemma_insert_weight<K>(s: Seq<(K, int)>, e: (K, int), key: K)
    ensures
        weight_of(insert_weight(s, e), key) == weight_of(s, key) + if e.0 == key {
            e.1
        } else {
            0
        },
        total(insert_weight(s, e)) == total(s) + e.1,
        keys_unique(s) ==> keys_unique(insert_weight(s, e)),
{
    lemma_key_index(s, e.0);
    let i = key_index(s, e.0);
    if i >= 0 {
        lemma_weight_update(s, i, e.1, key);
    } else {
        assert(insert_weight(s, e).drop_last() =~= s);
    }
}

/// Merging keeps every key's weight and the total, and leaves each key once.
pub proof fn lemma_merge<K>(s: Seq<(K, int)>, key: K)
    ensures
        weight_of(merge(s), key) == weight_of(s, key),
        total(merge(s)) == total(s),
        keys_unique(merge(s)),
    decreases s.len(),
{
    if s.len() > 0 {
        lemma_merge(s.drop_last(), key);
        lemma_insert_weight(merge(s.drop_last()), s.last(), key);
    }
}

/// With each key once, the weight of a key is that of its entry.
pub proof fn lemma_weight_unique<K>(s: Seq<(K, int)>, key: K)
    requires
        keys_unique(s),
    ensures
        key_index(s, key) >= 0 ==> weight_of(s, key) == s[key_index(s, key)].1,
        key_index(s, key) < 0 ==> weight_of(s, key) == 0,
    decreases s.len(),
{
    lemma_key_index(s, key);
    if s.len() > 0 {
        let d = s.drop_last();
        assert(keys_unique(d));
        lemma_weight_unique(d, key);
        lemma_key_index(d, key);
        if key_index(d, key) >= 0 {
            assert(s.last().0 != key) by {
                assert(s[key_index(d, key)].0 != s[s.len() - 1].0);
            }
        }
    }
}

pub proof fn lemma_weight_scaled<K>(c: int, s: Seq<(K, int)>, key: K)
    ensures
        weight_of(scaled(c, s), key) == c * weight_of(s, key),
        (c >= 0 && nonneg(s)) ==> nonneg(scaled(c, s)),
    decreases s.len(),
{
    if s.len() > 0 {
        assert(scaled(c, s).drop_last() =~= scaled(c, s.drop_last()));
        lemma_weight_scaled(c, s.drop_last(), key);
        let a = weight_of(s.drop_last(), key);
        let x = s.last().1;
        assert(c * (a + x) == c * a + c * x) by (nonlinear_arith);
        assert(c * (a + 0) == c * a + 0) by (nonlinear_arith);
    }
    if c >= 0 && nonneg(s) {
        assert forall|i: int| 0 <= i < scaled(c, s).len() implies #[trigger] scaled(c, s)[i].1
            >= 0 by {
            let x = s[i].1;
            assert(x >= 0);
            assert(c * x >= 0) by (nonlinear_arith)
                requires
                    c >= 0,
                    x >= 0,
            ;
        }
    }
}

} // verus!
