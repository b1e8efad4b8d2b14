//! The LRU cache core: a bounded key-value store whose entries are kept in
//! recency order. The model of a cache is the sequence of its (key, value)
//! pairs, least recently used first; `put_model` and `get_model` say exactly
//! how each operation rewrites that sequence.

use crate::decimal::{dec_digits, dec_val, is_dec, dec_string, parse_usize, push_char};
use vstd::prelude::*;

verus! {

/// Executable equality for cache keys, tied to mathematical equality, so that
/// the linear recency scan can be verified against the sequence model.
pub trait CacheKey: Sized {
    /// Decides whether two keys are equal.
    fn key_eq(&self, other: &Self) -> (r: bool)
        ensures
            r <==> *self == *other,
    ;
}

/// Serialization for snapshot persistence. A snapshot line holds a key and a
/// value separated by `|`, so a serialization that is to survive the format
/// (`ser_ok`) must avoid that delimiter and the line break; each implementor
/// proves that such values round-trip.
pub trait Persistent: Sized {
    /// The serialized characters of this value.
    spec fn ser(&self) -> Seq<char>;

    /// The value a string of characters denotes, if any.
    spec fn deser(s: Seq<char>) -> Option<Self>;

    /// Whether this value's serialization survives the snapshot line format.
    spec fn ser_ok(&self) -> bool;

    /// A format-safe value round-trips, and its serialization contains
    /// neither the entry delimiter nor a line break.
    proof fn lemma_round_trip(&self)
        requires
            self.ser_ok(),
        ensures
            Self::deser(self.ser()) == Some(*self),
            forall|i: int|
                0 <= i < self.ser().len() ==> (#[trigger] self.ser()[i]) != '|' && self.ser()[i]
                    != '\n',
    ;

    /// Serializes this value.
    fn serialize(&self) -> (s: String)
        ensures
            s@ == self.ser(),
    ;

    /// Parses a serialized value back, if the string denotes one.
    fn deserialize(s: &str) -> (r: Option<Self>)
        ensures
            r == Self::deser(s@),
    ;
}

/// No two entries of the sequence share a key.
pub open spec fn keys_distinct<K, V>(s: Seq<(K, V)>) -> bool {
    forall|i: int, j: int| 0 <= i < j < s.len() ==> (#[trigger] s[i]).0 != (#[trigger] s[j]).0
}

/// Some entry of the sequence has key `k`.
pub open spec fn has_key<K, V>(s: Seq<(K, V)>, k: K) -> bool {
    exists|i: int| 0 <= i < s.len() && (#[trigger] s[i]).0 == k
}

/// An index at which key `k` sits; unique when the keys are distinct.
pub open spec fn key_index<K, V>(s: Seq<(K, V)>, k: K) -> int {
    choose|i: int| 0 <= i < s.len() && (#[trigger] s[i]).0 == k
}

/// The value stored under key `k`.
pub open spec fn value_of<K, V>(s: Seq<(K, V)>, k: K) -> V {
    s[key_index(s, k)].1
}

/// Moves key `k` to the most-recently-used end, now bound to `v`.
pub open spec fn bump_key<K, V>(s: Seq<(K, V)>, k: K, v: V) -> Seq<(K, V)> {
    s.remove(key_index(s, k)).push((k, v))
}

/// What `put` does to the entry sequence: an existing key is rebound and
/// promoted without eviction; a new key is appended, evicting the head entry
/// first when the cache is full.
pub open spec fn put_model<K, V>(s: Seq<(K, V)>, cap: nat, k: K, v: V) -> Seq<(K, V)> {
    if has_key(s, k) {
        bump_key(s, k, v)
    } else if s.len() >= cap {
        s.drop_first().push((k, v))
    } else {
        s.push((k, v))
    }
}

/// What `get` does to the entry sequence: a present key is promoted to
/// most-recently-used, keeping its value; an absent key changes nothing.
pub open spec fn get_model<K, V>(s: Seq<(K, V)>, k: K) -> Seq<(K, V)> {
    if has_key(s, k) {
        bump_key(s, k, value_of(s, k))
    } else {
        s
    }
}

/// With distinct keys, the witness index for a key is the only one.
pub proof fn lemma_key_index<K, V>(s: Seq<(K, V)>, k: K, i: int)
    requires
        keys_distinct(s),
        0 <= i < s.len(),
        s[i].0 == k,
    ensures
        has_key(s, k),
        key_index(s, k) == i,
        value_of(s, k) == s[i].1,
{
    assert(has_key(s, k));
    let j = key_index(s, k);
    assert(0 <= j < s.len() && s[j].0 == k);
    if j != i {
        if j < i {
            assert(s[j].0 != s[i].0);
        } else {
            assert(s[i].0 != s[j].0);
        }
    }
}

/// Properties of `bump_key`: the promoted key moves to the tail with its new
/// value, every other entry keeps its place in the order and its value.
pub proof fn lemma_bump_key<K, V>(s: Seq<(K, V)>, k: K, v: V)
    requires
        keys_distinct(s),
        has_key(s, k),
    ensures
        bump_key(s, k, v).len() == s.len(),
        keys_distinct(bump_key(s, k, v)),
        has_key(bump_key(s, k, v), k),
        value_of(bump_key(s, k, v), k) == v,
        bump_key(s, k, v).last() == (k, v),
        forall|k2: K| k2 != k ==> (has_key(bump_key(s, k, v), k2) <==> has_key(s, k2)),
        forall|k2: K|
            k2 != k && has_key(s, k2) ==> value_of(bump_key(s, k, v), k2) == value_of(s, k2),
        s.len() >= 2 ==> bump_key(s, k, v)[0] == (if key_index(s, k) == 0 {
            s[1]
        } else {
            s[0]
        }),
{
    let i = key_index(s, k);
    assert(0 <= i < s.len() && s[i].0 == k);
    let r = bump_key(s, k, v);
    s.remove_ensures(i);
    assert forall|a: int| 0 <= a < s.len() - 1 implies (#[trigger] s.remove(i)[a]) == (if a < i {
        s[a]
    } else {
        s[a + 1]
    }) by {}
    assert forall|a: int| 0 <= a < s.len() - 1 implies (#[trigger] s.remove(i)[a]).0 != k by {
        if a < i {
            lemma_key_index(s, k, i);
        }
    }
    assert(keys_distinct(r));
    assert(r[s.len() - 1] == (k, v));
    assert(has_key(r, k));
    lemma_key_index(r, k, s.len() as int - 1);
    assert forall|k2: K| k2 != k && has_key(s, k2) implies has_key(r, k2)
        && value_of(r, k2) == value_of(s, k2) by {
        let a = key_index(s, k2);
        assert(0 <= a < s.len() && s[a].0 == k2);
        lemma_key_index(s, k2, a);
        assert(a != i);
        let b: int = if a < i { a } else { a - 1 };
        assert(r[b] == s[a]);
        lemma_key_index(r, k2, b);
    }
    assert forall|k2: K| k2 != k && has_key(r, k2) implies has_key(s, k2) by {
        let b = key_index(r, k2);
        assert(0 <= b < r.len() && r[b].0 == k2);
        assert(b != s.len() - 1);
        let a: int = if b < i { b } else { b + 1 };
        assert(s[a] == r[b]);
        assert(has_key(s, k2));
    }
}

/// A cache key never found by the scan is in no entry.
pub proof fn lemma_no_key<K, V>(s: Seq<(K, V)>, k: K)
    requires
        forall|i: int| 0 <= i < s.len() ==> (#[trigger] s[i]).0 != k,
    ensures
        !has_key(s, k),
{
}

/// Properties of a `put` that does not evict (the key is present, or there is
/// room): the key ends up most recently used with the new value, and every
/// other key keeps its presence and its value.
pub proof fn lemma_put_model_no_evict<K, V>(s: Seq<(K, V)>, cap: nat, k: K, v: V)
    requires
        keys_distinct(s),
        has_key(s, k) || s.len() < cap,
    ensures
        keys_distinct(put_model(s, cap, k, v)),
        has_key(s, k) ==> put_model(s, cap, k, v).len() == s.len(),
        !has_key(s, k) ==> put_model(s, cap, k, v).len() == s.len() + 1,
        has_key(put_model(s, cap, k, v), k),
        value_of(put_model(s, cap, k, v), k) == v,
        put_model(s, cap, k, v).last() == (k, v),
        forall|k2: K| k2 != k ==> (has_key(put_model(s, cap, k, v), k2) <==> has_key(s, k2)),
        forall|k2: K|
            k2 != k && has_key(s, k2) ==> value_of(put_model(s, cap, k, v), k2) == value_of(
                s,
                k2,
            ),
{
    let r = put_model(s, cap, k, v);
    if has_key(s, k) {
        lemma_bump_key(s, k, v);
    } else {
        assert(r == s.push((k, v)));
        assert(r[s.len() as int] == (k, v));
        assert(has_key(r, k));
        assert forall|a: int, b: int| 0 <= a < b < r.len() implies (#[trigger] r[a]).0 != (
        #[trigger] r[b]).0 by {
            if b == s.len() {
                assert(r[a] == s[a]);
                assert(s[a].0 != k) by {
                    if s[a].0 == k {
                        assert(has_key(s, k));
                    }
                }
            } else {
                assert(r[a] == s[a] && r[b] == s[b]);
            }
        }
        lemma_key_index(r, k, s.len() as int);
        assert forall|k2: K| k2 != k && has_key(s, k2) implies has_key(r, k2) && value_of(r, k2)
            == value_of(s, k2) by {
            let a = key_index(s, k2);
            assert(0 <= a < s.len() && s[a].0 == k2);
            lemma_key_index(s, k2, a);
            assert(r[a] == s[a]);
            lemma_key_index(r, k2, a);
        }
        assert forall|k2: K| k2 != k && has_key(r, k2) implies has_key(s, k2) by {
            let b = key_index(r, k2);
            assert(0 <= b < r.len() && r[b].0 == k2);
            assert(b != s.len());
            assert(s[b] == r[b]);
            assert(has_key(s, k2));
        }
    }
}

/// Properties of a `put` of a new key into a full cache: exactly the head
/// entry (the least recently used one) is evicted; the new key ends up most
/// recently used, and every other key keeps its presence and its value.
pub proof fn lemma_put_model_evict<K, V>(s: Seq<(K, V)>, cap: nat, k: K, v: V)
    requires
        keys_distinct(s),
        !has_key(s, k),
        s.len() == cap,
        0 < cap,
    ensures
        keys_distinct(put_model(s, cap, k, v)),
        put_model(s, cap, k, v).len() == cap,
        has_key(put_model(s, cap, k, v), k),
        value_of(put_model(s, cap, k, v), k) == v,
        put_model(s, cap, k, v).last() == (k, v),
        !has_key(put_model(s, cap, k, v), s[0].0),
        forall|k2: K|
            k2 != k && k2 != s[0].0 ==> (has_key(put_model(s, cap, k, v), k2) <==> has_key(
                s,
                k2,
            )),
        forall|k2: K|
            k2 != k && k2 != s[0].0 && has_key(s, k2) ==> value_of(put_model(s, cap, k, v), k2)
                == value_of(s, k2),
{
    let r = put_model(s, cap, k, v);
    assert(r == s.drop_first().push((k, v)));
    assert(r.len() == cap);
    assert forall|a: int| 0 <= a < cap - 1 implies (#[trigger] r[a]) == s[a + 1] by {}
    assert(r[cap as int - 1] == (k, v));
    assert forall|a: int, b: int| 0 <= a < b < r.len() implies (#[trigger] r[a]).0 != (
    #[trigger] r[b]).0 by {
        if b == cap - 1 {
            assert(r[a] == s[a + 1]);
            if s[a + 1].0 == k {
                assert(has_key(s, k));
            }
        } else {
            assert(s[a + 1].0 != s[b + 1].0);
        }
    }
    assert(has_key(r, k));
    lemma_key_index(r, k, cap as int - 1);
    assert(!has_key(r, s[0].0)) by {
        if has_key(r, s[0].0) {
            let b = key_index(r, s[0].0);
            assert(0 <= b < r.len() && r[b].0 == s[0].0);
            if b == cap - 1 {
                assert(has_key(s, k));
            } else {
                assert(r[b] == s[b + 1]);
                assert(s[0].0 != s[b + 1].0);
            }
        }
    }
    assert forall|k2: K| k2 != k && k2 != s[0].0 && has_key(s, k2) implies has_key(r, k2)
        && value_of(r, k2) == value_of(s, k2) by {
        let a = key_index(s, k2);
        assert(0 <= a < s.len() && s[a].0 == k2);
        lemma_key_index(s, k2, a);
        assert(a != 0);
        assert(r[a - 1] == s[a]);
        lemma_key_index(r, k2, a - 1);
    }
    assert forall|k2: K| k2 != k && k2 != s[0].0 && has_key(r, k2) implies has_key(s, k2) by {
        let b = key_index(r, k2);
        assert(0 <= b < r.len() && r[b].0 == k2);
        assert(b != cap - 1);
        assert(s[b + 1] == r[b]);
        assert(has_key(s, k2));
    }
}

/// Law: overwriting a key that is already present never evicts, even when the
/// cache is exactly at capacity. The number of entries and the set of resident
/// keys are unchanged; only the overwritten key's value and recency change.
pub proof fn lemma_put_overwrite_no_eviction<K, V>(s: Seq<(K, V)>, cap: nat, k: K, v: V)
    requires
        keys_distinct(s),
        s.len() <= cap,
        has_key(s, k),
    ensures
        put_model(s, cap, k, v).len() == s.len(),
        forall|k2: K| has_key(put_model(s, cap, k, v), k2) <==> has_key(s, k2),
        value_of(put_model(s, cap, k, v), k) == v,
{
    lemma_put_model_no_evict(s, cap, k, v);
}

/// Law: a `get` promotes the accessed key to most recently used, so an
/// immediately following overflow evicts the key that is then least recently
/// used, which is a different key: the accessed key survives the eviction.
pub proof fn lemma_get_protects_key<K, V>(s: Seq<(K, V)>, cap: nat, k: K, k2: K, v2: V)
    requires
        keys_distinct(s),
        s.len() == cap,
        2 <= cap,
        has_key(s, k),
        !has_key(s, k2),
    ensures
        get_model(s, k).last().0 == k,
        get_model(s, k)[0].0 != k,
        has_key(put_model(get_model(s, k), cap, k2, v2), k),
        !has_key(put_model(get_model(s, k), cap, k2, v2), get_model(s, k)[0].0),
{
    lemma_bump_key(s, k, value_of(s, k));
    let g = get_model(s, k);
    let i = key_index(s, k);
    assert(0 <= i < s.len() && s[i].0 == k);
    lemma_key_index(s, k, i);
    assert(g[0].0 != k) by {
        if i == 0 {
            assert(g[0] == s[1]);
            assert(s[0].0 != s[1].0);
        } else {
            assert(g[0] == s[0]);
            assert(s[0].0 != s[i].0);
        }
    }
    assert(k2 != k);
    assert(!has_key(g, k2));
    lemma_put_model_evict(g, cap, k2, v2);
    assert(k != g[0].0 && k != k2);
}

/// The result of applying a sequence of `put` operations in order, each one
/// inserting its pair's key with its pair's value.
pub open spec fn apply_puts<K, V>(s: Seq<(K, V)>, cap: nat, ops: Seq<(K, V)>) -> Seq<(K, V)>
    decreases ops.len(),
{
    if ops.len() == 0 {
        s
    } else {
        apply_puts(put_model(s, cap, ops[0].0, ops[0].1), cap, ops.drop_first())
    }
}

/// The index of the last operation writing key `k`, or -1 if none does.
pub open spec fn last_write_index<K, V>(ops: Seq<(K, V)>, k: K) -> int
    decreases ops.len(),
{
    if ops.len() == 0 {
        -1
    } else if ops.last().0 == k {
        ops.len() - 1
    } else {
        last_write_index(ops.drop_last(), k)
    }
}

/// Splitting a key search at the first operation.
proof fn lemma_has_key_unfold<K, V>(ops: Seq<(K, V)>, k: K)
    requires
        ops.len() > 0,
    ensures
        has_key(ops, k) <==> (ops[0].0 == k || has_key(ops.drop_first(), k)),
{
    let d = ops.drop_first();
    if has_key(ops, k) {
        let i = key_index(ops, k);
        assert(0 <= i < ops.len() && ops[i].0 == k);
        if i > 0 {
            assert(d[i - 1] == ops[i]);
            assert(has_key(d, k));
        }
    }
    if has_key(d, k) {
        let i = key_index(d, k);
        assert(0 <= i < d.len() && d[i].0 == k);
        assert(ops[i + 1] == d[i]);
        assert(has_key(ops, k));
    }
    if ops[0].0 == k {
        assert(has_key(ops, k));
    }
}

/// A present key's last write sits at a valid index and writes that key.
proof fn lemma_last_write_index_some<K, V>(ops: Seq<(K, V)>, k: K)
    requires
        has_key(ops, k),
    ensures
        0 <= last_write_index(ops, k) < ops.len(),
        ops[last_write_index(ops, k)].0 == k,
    decreases ops.len(),
{
    assert(ops.len() > 0) by {
        let i = key_index(ops, k);
        assert(0 <= i < ops.len() && ops[i].0 == k);
    }
    if ops.last().0 != k {
        assert(has_key(ops.drop_last(), k)) by {
            let i = key_index(ops, k);
            assert(0 <= i < ops.len() && ops[i].0 == k);
            assert(i != ops.len() - 1);
            assert(ops.drop_last()[i] == ops[i]);
        }
        lemma_last_write_index_some(ops.drop_last(), k);
        assert(ops[last_write_index(ops, k)] == ops.drop_last()[last_write_index(
            ops.drop_last(),
            k,
        )]);
    }
}

/// How the last write of a key moves when the first operation is peeled off:
/// if the key is written after the first operation, indices shift by one.
proof fn lemma_last_write_index_drop_first<K, V>(ops: Seq<(K, V)>, k: K)
    requires
        ops.len() > 0,
        has_key(ops.drop_first(), k),
    ensures
        has_key(ops, k),
        last_write_index(ops, k) == 1 + last_write_index(ops.drop_first(), k),
        ops[last_write_index(ops, k)] == ops.drop_first()[last_write_index(
            ops.drop_first(),
            k,
        )],
    decreases ops.len(),
{
    let d = ops.drop_first();
    lemma_has_key_unfold(ops, k);
    assert(d.len() >= 1);
    assert(ops.len() >= 2) by {
        assert(d.len() == ops.len() - 1);
    }
    assert(d.last() == ops.last());
    if ops.last().0 == k {
        assert(last_write_index(ops, k) == ops.len() - 1);
        assert(last_write_index(d, k) == d.len() - 1);
        assert(ops[ops.len() - 1] == d[d.len() - 1]);
    } else {
        assert(has_key(d.drop_last(), k)) by {
            let i = key_index(d, k);
            assert(0 <= i < d.len() && d[i].0 == k);
            assert(i != d.len() - 1);
            assert(d.drop_last()[i] == d[i]);
        }
        assert(ops.drop_last().drop_first() =~= d.drop_last());
        lemma_last_write_index_drop_first(ops.drop_last(), k);
        assert(last_write_index(ops, k) == last_write_index(ops.drop_last(), k));
        assert(last_write_index(d, k) == last_write_index(d.drop_last(), k));
        let x = last_write_index(d.drop_last(), k);
        lemma_last_write_index_some(d.drop_last(), k);
        assert(ops.drop_last()[1 + x] == ops[1 + x]);
        assert(d[x] == d.drop_last()[x]);
    }
}

/// If the first operation writes the key and no later one does, the last
/// write is the first operation.
proof fn lemma_last_write_index_first<K, V>(ops: Seq<(K, V)>, k: K)
    requires
        ops.len() > 0,
        ops[0].0 == k,
        !has_key(ops.drop_first(), k),
    ensures
        last_write_index(ops, k) == 0,
    decreases ops.len(),
{
    let d = ops.drop_first();
    if ops.len() == 1 {
        assert(ops.last() == ops[0]);
    } else {
        assert(d[d.len() - 1] == ops.last());
        assert(ops.last().0 != k) by {
            if ops.last().0 == k {
                assert(has_key(d, k));
            }
        }
        assert(ops.drop_last()[0] == ops[0]);
        assert(!has_key(ops.drop_last().drop_first(), k)) by {
            assert(ops.drop_last().drop_first() =~= d.drop_last());
            if has_key(d.drop_last(), k) {
                let i = key_index(d.drop_last(), k);
                assert(0 <= i < d.len() - 1 && d.drop_last()[i].0 == k);
                assert(d[i] == d.drop_last()[i]);
                assert(has_key(d, k));
            }
        }
        lemma_last_write_index_first(ops.drop_last(), k);
    }
}

/// The workhorse behind the capacity law: while the total number of entries
/// and operations stays within capacity nothing is ever evicted, so a key is
/// present exactly when it started present or was written, with its
/// last-written value (or its starting value if never written).
pub proof fn lemma_apply_puts_no_evict<K, V>(s: Seq<(K, V)>, cap: nat, ops: Seq<(K, V)>, k: K)
    requires
        keys_distinct(s),
        s.len() + ops.len() <= cap,
    ensures
        keys_distinct(apply_puts(s, cap, ops)),
        s.len() <= apply_puts(s, cap, ops).len() <= s.len() + ops.len(),
        has_key(apply_puts(s, cap, ops), k) <==> (has_key(s, k) || has_key(ops, k)),
        has_key(ops, k) ==> value_of(apply_puts(s, cap, ops), k) == ops[last_write_index(
            ops,
            k,
        )].1,
        !has_key(ops, k) && has_key(s, k) ==> value_of(apply_puts(s, cap, ops), k) == value_of(
            s,
            k,
        ),
    decreases ops.len(),
{
    if ops.len() == 0 {
        assert(!has_key(ops, k)) by {
            if has_key(ops, k) {
                let i = key_index(ops, k);
                assert(0 <= i < ops.len());
            }
        }
    } else {
        let k0 = ops[0].0;
        let v0 = ops[0].1;
        let s1 = put_model(s, cap, k0, v0);
        let d = ops.drop_first();
        lemma_put_model_no_evict(s, cap, k0, v0);
        lemma_apply_puts_no_evict(s1, cap, d, k);
        lemma_has_key_unfold(ops, k);
        if has_key(d, k) {
            lemma_last_write_index_drop_first(ops, k);
            lemma_last_write_index_some(d, k);
        } else if k0 == k {
            lemma_last_write_index_first(ops, k);
        }
    }
}

/// Law: for any sequence of `put` operations that does not exceed the
/// capacity of an initially empty cache, every key written is still present
/// afterwards, bound to the value of its last write — so `get` on it succeeds
/// and returns that value.
pub proof fn lemma_puts_within_capacity_retrievable<K, V>(cap: nat, ops: Seq<(K, V)>, k: K)
    requires
        0 < cap,
        ops.len() <= cap,
        has_key(ops, k),
    ensures
        has_key(apply_puts(Seq::<(K, V)>::empty(), cap, ops), k),
        value_of(apply_puts(Seq::<(K, V)>::empty(), cap, ops), k) == ops[last_write_index(
            ops,
            k,
        )].1,
{
    lemma_apply_puts_no_evict(Seq::<(K, V)>::empty(), cap, ops, k);
}

/// Filling an empty region of the cache with pairwise-new keys appends the
/// operations one for one, in operation order.
pub proof fn lemma_apply_puts_all_new<K, V>(s: Seq<(K, V)>, cap: nat, ops: Seq<(K, V)>)
    requires
        keys_distinct(s),
        keys_distinct(ops),
        s.len() + ops.len() <= cap,
        forall|i: int| 0 <= i < ops.len() ==> !has_key(s, (#[trigger] ops[i]).0),
    ensures
        apply_puts(s, cap, ops) == s + ops,
    decreases ops.len(),
{
    if ops.len() == 0 {
        assert(s + ops =~= s);
    } else {
        let k0 = ops[0].0;
        let v0 = ops[0].1;
        let d = ops.drop_first();
        assert(!has_key(s, k0));
        assert(s.len() < cap);
        let s1 = put_model(s, cap, k0, v0);
        assert(s1 == s.push((k0, v0)));
        assert((k0, v0) == ops[0]);
        lemma_put_model_no_evict(s, cap, k0, v0);
        assert forall|i: int| 0 <= i < d.len() implies !has_key(s1, (#[trigger] d[i]).0) by {
            assert(d[i] == ops[i + 1]);
            assert(ops[0].0 != ops[i + 1].0);
            assert(!has_key(s, ops[i + 1].0));
            if has_key(s1, d[i].0) {
                let b = key_index(s1, d[i].0);
                assert(0 <= b < s1.len() && s1[b].0 == d[i].0);
                if b < s.len() {
                    assert(s[b] == s1[b]);
                    assert(has_key(s, d[i].0));
                } else {
                    assert(s1[b] == (k0, v0));
                }
            }
        }
        assert forall|a: int, b: int| 0 <= a < b < d.len() implies (#[trigger] d[a]).0 != (
        #[trigger] d[b]).0 by {
            assert(d[a] == ops[a + 1] && d[b] == ops[b + 1]);
        }
        lemma_apply_puts_all_new(s1, cap, d);
        assert(s1 + d =~= s + ops);
    }
}

/// Applying a concatenation of operation sequences is applying one after the
/// other.
pub proof fn lemma_apply_puts_concat<K, V>(s: Seq<(K, V)>, cap: nat, a: Seq<(K, V)>, b: Seq<
    (K, V),
>)
    ensures
        apply_puts(s, cap, a + b) == apply_puts(apply_puts(s, cap, a), cap, b),
    decreases a.len(),
{
    if a.len() == 0 {
        assert(a + b =~= b);
    } else {
        assert((a + b)[0] == a[0]);
        let s1 = put_model(s, cap, a[0].0, a[0].1);
        assert((a + b).drop_first() =~= a.drop_first() + b);
        lemma_apply_puts_concat(s1, cap, a.drop_first(), b);
        assert((a + b).len() > 0);
    }
}

/// Law: after inserting capacity + 1 pairwise-distinct keys into an empty
/// cache, none of them ever re-accessed, the first-inserted key — the only
/// one that was least recently used at overflow time — has been evicted, so
/// `get` on it answers `None`, while the last-inserted key is present.
pub proof fn lemma_first_key_evicted<K, V>(cap: nat, ops: Seq<(K, V)>)
    requires
        0 < cap,
        ops.len() == cap + 1,
        keys_distinct(ops),
    ensures
        !has_key(apply_puts(Seq::<(K, V)>::empty(), cap, ops), ops[0].0),
        has_key(apply_puts(Seq::<(K, V)>::empty(), cap, ops), ops[cap as int].0),
{
    let e = Seq::<(K, V)>::empty();
    let a = ops.take(cap as int);
    let b = ops.skip(cap as int);
    assert(ops =~= a + b);
    lemma_apply_puts_concat(e, cap, a, b);
    assert forall|i: int, j: int| 0 <= i < j < a.len() implies (#[trigger] a[i]).0 != (
    #[trigger] a[j]).0 by {
        assert(a[i] == ops[i] && a[j] == ops[j]);
    }
    assert forall|i: int| 0 <= i < a.len() implies !has_key(e, (#[trigger] a[i]).0) by {
        if has_key(e, a[i].0) {
            let w = key_index(e, a[i].0);
            assert(0 <= w < e.len());
        }
    }
    lemma_apply_puts_all_new(e, cap, a);
    let full = apply_puts(e, cap, a);
    assert(full =~= a);
    assert(b.len() == 1);
    let k1 = b[0].0;
    let v1 = b[0].1;
    assert(b[0] == ops[cap as int]);
    let s1 = put_model(full, cap, k1, v1);
    assert(b.drop_first().len() == 0);
    assert(apply_puts(full, cap, b) == apply_puts(s1, cap, b.drop_first()));
    assert(apply_puts(s1, cap, b.drop_first()) == s1);
    assert(!has_key(full, k1)) by {
        if has_key(full, k1) {
            let w = key_index(full, k1);
            assert(0 <= w < full.len() && full[w].0 == k1);
            assert(full[w] == ops[w]);
            assert(ops[w].0 != ops[cap as int].0);
        }
    }
    lemma_put_model_evict(full, cap, k1, v1);
    assert(full[0] == ops[0]);
    assert(ops[0].0 != ops[cap as int].0);
}

/// The character sequences behind a sequence of strings.
pub open spec fn lines_view(lines: Seq<String>) -> Seq<Seq<char>> {
    Seq::new(lines.len(), |i: int| lines[i]@)
}

/// The snapshot line for one entry: serialized key, delimiter, serialized
/// value.
pub open spec fn line_of<K: Persistent, V: Persistent>(e: (K, V)) -> Seq<char> {
    e.0.ser() + seq!['|'] + e.1.ser()
}

/// The full snapshot of an entry sequence: a header line holding the decimal
/// entry count, then one line per entry in recency order, least recently used
/// first.
pub open spec fn snapshot_model<K: Persistent, V: Persistent>(s: Seq<(K, V)>) -> Seq<Seq<char>> {
    Seq::new(
        s.len() + 1,
        |i: int|
            if i == 0 {
                dec_digits(s.len())
            } else {
                line_of(s[i - 1])
            },
    )
}

/// The index of the first delimiter in a line, or -1 if there is none.
pub open spec fn find_bar(l: Seq<char>) -> int
    decreases l.len(),
{
    if l.len() == 0 {
        -1
    } else if l[0] == '|' {
        0
    } else if find_bar(l.drop_first()) < 0 {
        -1
    } else {
        1 + find_bar(l.drop_first())
    }
}

/// `find_bar` finds the first delimiter exactly when there is one.
pub proof fn lemma_find_bar(l: Seq<char>)
    ensures
        find_bar(l) == -1 ==> forall|i: int| 0 <= i < l.len() ==> l[i] != '|',
        find_bar(l) >= 0 ==> 0 <= find_bar(l) < l.len() && l[find_bar(l)] == '|' && forall|j: int|
            0 <= j < find_bar(l) ==> l[j] != '|',
    decreases l.len(),
{
    if l.len() > 0 && l[0] != '|' {
        let d = l.drop_first();
        lemma_find_bar(d);
        if find_bar(d) < 0 {
            assert forall|i: int| 0 <= i < l.len() implies l[i] != '|' by {
                if i > 0 {
                    assert(d[i - 1] == l[i]);
                }
            }
        } else {
            let f = 1 + find_bar(d);
            assert(l[f] == d[f - 1]);
            assert forall|j: int| 0 <= j < f implies l[j] != '|' by {
                if j > 0 {
                    assert(d[j - 1] == l[j]);
                }
            }
        }
    }
}

/// If the first delimiter of a line sits at `i`, `find_bar` says so.
pub proof fn lemma_find_bar_at(l: Seq<char>, i: int)
    requires
        0 <= i < l.len(),
        l[i] == '|',
        forall|j: int| 0 <= j < i ==> l[j] != '|',
    ensures
        find_bar(l) == i,
{
    lemma_find_bar(l);
}

/// The entry a snapshot line denotes: the part before the first delimiter
/// must parse as a key, the part after it as a value.
pub open spec fn parse_line<K: Persistent, V: Persistent>(l: Seq<char>) -> Option<(K, V)> {
    let i = find_bar(l);
    if i < 0 {
        None
    } else {
        match (K::deser(l.take(i)), V::deser(l.skip(i + 1))) {
            (Some(k), Some(v)) => Some((k, v)),
            _ => None,
        }
    }
}

/// How loading folds the data lines into an entry sequence: a line that does
/// not parse is skipped, as is one whose key is already resident or that
/// would exceed the capacity.
pub open spec fn load_entries<K: Persistent, V: Persistent>(
    cap: nat,
    lines: Seq<Seq<char>>,
    acc: Seq<(K, V)>,
) -> Seq<(K, V)>
    decreases lines.len(),
{
    if lines.len() == 0 {
        acc
    } else {
        let acc2 = match parse_line::<K, V>(lines[0]) {
            Some(e) => if has_key(acc, e.0) || acc.len() >= cap {
                acc
            } else {
                acc.push(e)
            },
            None => acc,
        };
        load_entries(cap, lines.drop_first(), acc2)
    }
}

/// The entry sequence a whole snapshot denotes: the header gives the number
/// of data lines to read (a malformed header reads as zero, missing lines
/// are simply not read), and the data lines are folded in order.
pub open spec fn load_model<K: Persistent, V: Persistent>(cap: nat, lines: Seq<Seq<char>>) -> Seq<
    (K, V),
> {
    if lines.len() == 0 {
        Seq::<(K, V)>::empty()
    } else {
        let count: int = if is_dec(lines[0]) && dec_val(lines[0]) <= usize::MAX {
            dec_val(lines[0]) as int
        } else {
            0
        };
        let take_n: int = if count <= lines.len() - 1 {
            count
        } else {
            lines.len() - 1
        };
        load_entries(cap, lines.subrange(1, 1 + take_n), Seq::<(K, V)>::empty())
    }
}

/// Parses one snapshot line into an entry.
fn parse_line_exec<K: Persistent, V: Persistent>(line: &str) -> (r: Option<(K, V)>)
    ensures
        r == parse_line::<K, V>(line@),
{
    let n = line.unicode_len();
    let mut i: usize = 0;
    while i < n
        invariant
            n == line@.len(),
            i <= n,
            forall|j: int| 0 <= j < i ==> line@[j] != '|',
        decreases n - i,
    {
        let c = line.get_char(i);
        if c == '|' {
            proof {
                lemma_find_bar_at(line@, i as int);
            }
            let key_part = line.substring_char(0, i);
            let val_part = line.substring_char(i + 1, n);
            proof {
                assert(key_part@ =~= line@.take(i as int));
                assert(val_part@ =~= line@.skip(i + 1));
            }
            let k = K::deserialize(key_part);
            let v = V::deserialize(val_part);
            match (k, v) {
                (Some(k), Some(v)) => {
                    return Some((k, v));
                },
                _ => {
                    return None;
                },
            }
        }
        i = i + 1;
    }
    proof {
        lemma_find_bar(line@);
        if find_bar(line@) >= 0 {
            assert(line@[find_bar(line@)] == '|');
        }
    }
    None
}

impl<K: CacheKey + Persistent, V: Persistent> Cache<K, V> {
    /// Serializes the cache into snapshot lines: the entry count, then one
    /// line per entry in recency order, least recently used first.
    pub fn to_lines(&self) -> (lines: Vec<String>)
        ensures
            lines_view(lines@) == snapshot_model(self@),
    {
        let mut lines: Vec<String> = Vec::new();
        lines.push(dec_string(self.entries.len()));
        let n = self.entries.len();
        let mut i: usize = 0;
        while i < n
            invariant
                n == self.entries@.len(),
                i <= n,
                lines@.len() == i + 1,
                lines@[0]@ == dec_digits(self.entries@.len() as nat),
                forall|j: int| 1 <= j <= i ==> (#[trigger] lines@[j])@ == line_of(
                    self.entries@[j - 1],
                ),
            decreases n - i,
        {
            let e = &self.entries[i];
            let mut line = e.0.serialize();
            push_char(&mut line, '|');
            let vs = e.1.serialize();
            line.append(vs.as_str());
            proof {
                assert(line@ =~= line_of(self.entries@[i as int]));
            }
            lines.push(line);
            i = i + 1;
        }
        proof {
            assert(lines_view(lines@) =~= snapshot_model(self@));
        }
        lines
    }

    /// Restores a cache from snapshot lines. The header gives how many data
    /// lines to read; a line that does not parse, repeats a resident key or
    /// would exceed the capacity is skipped, so a well-formed cache comes
    /// back from any input.
    pub fn from_lines(capacity: usize, lines: &Vec<String>) -> (r: Self)
        requires
            0 < capacity,
        ensures
            r.wf(),
            r.cap() == capacity,
            r@ == load_model::<K, V>(capacity as nat, lines_view(lines@)),
    {
        let mut cache: Cache<K, V> = Cache::new(capacity);
        let ghost lv = lines_view(lines@);
        if lines.len() == 0 {
            return cache;
        }
        let count = match parse_usize(lines[0].as_str()) {
            Some(c) => c,
            None => 0,
        };
        let take_n = if count <= lines.len() - 1 {
            count
        } else {
            lines.len() - 1
        };
        let ghost dl = lv.subrange(1, 1 + take_n as int);
        proof {
            assert(dl.skip(0) =~= dl);
            assert(cache@ =~= Seq::<(K, V)>::empty());
        }
        let mut i: usize = 0;
        while i < take_n
            invariant
                0 < capacity,
                take_n + 1 <= lines@.len(),
                dl == lines_view(lines@).subrange(1, 1 + take_n as int),
                i <= take_n,
                cache.wf(),
                cache.cap() == capacity,
                load_entries::<K, V>(capacity as nat, dl, Seq::<(K, V)>::empty())
                    == load_entries::<K, V>(capacity as nat, dl.skip(i as int), cache@),
            decreases take_n - i,
        {
            let ghost pre = cache@;
            let ghost sk = dl.skip(i as int);
            let line = &lines[i + 1];
            proof {
                assert(sk[0] == lines@[i + 1]@);
            }
            match parse_line_exec::<K, V>(line.as_str()) {
                Some(e) => {
                    let ghost ge = e;
                    let dup = cache.find_index(&e.0);
                    proof {
                        match dup {
                            Some(j) => {
                                assert(pre[j as int].0 == ge.0);
                                assert(has_key(pre, ge.0));
                            },
                            None => {},
                        }
                    }
                    if dup.is_none() && cache.entries.len() < capacity {
                        proof {
                            let s1 = pre.push(ge);
                            assert forall|a: int, b: int| 0 <= a < b < s1.len() implies (
                            #[trigger] s1[a]).0 != (#[trigger] s1[b]).0 by {
                                if b == s1.len() - 1 {
                                    assert(s1[a] == pre[a]);
                                    if pre[a].0 == ge.0 {
                                        assert(has_key(pre, ge.0));
                                    }
                                } else {
                                    assert(s1[a] == pre[a] && s1[b] == pre[b]);
                                }
                            }
                        }
                        cache.entries.push(e);
                    }
                    proof {
                        assert(parse_line::<K, V>(sk[0]) == Some(ge));
                        if has_key(pre, ge.0) || pre.len() >= capacity as nat {
                            assert(cache@ == pre);
                        } else {
                            assert(cache@ == pre.push(ge));
                        }
                        assert(load_entries::<K, V>(capacity as nat, sk, pre)
                            == load_entries::<K, V>(capacity as nat, sk.drop_first(), cache@));
                    }
                },
                None => {
                    proof {
                        assert(parse_line::<K, V>(sk[0]) is None);
                        assert(load_entries::<K, V>(capacity as nat, sk, pre)
                            == load_entries::<K, V>(capacity as nat, sk.drop_first(), cache@));
                    }
                },
            }
            proof {
                assert(sk.drop_first() =~= dl.skip(i + 1));
            }
            i = i + 1;
        }
        proof {
            assert(dl.skip(take_n as int).len() == 0);
            assert(load_entries::<K, V>(capacity as nat, dl.skip(take_n as int), cache@)
                == cache@);
        }
        cache
    }
}

/// A parsed snapshot line of a format-safe entry gives the entry back.
proof fn lemma_parse_line_of<K: Persistent, V: Persistent>(e: (K, V))
    requires
        e.0.ser_ok(),
        e.1.ser_ok(),
    ensures
        parse_line::<K, V>(line_of(e)) == Some(e),
{
    e.0.lemma_round_trip();
    e.1.lemma_round_trip();
    let l = line_of(e);
    let kn = e.0.ser().len() as int;
    assert(l[kn] == '|');
    assert forall|j: int| 0 <= j < kn implies l[j] != '|' by {
        assert(l[j] == e.0.ser()[j]);
    }
    lemma_find_bar_at(l, kn);
    assert(l.take(kn) =~= e.0.ser());
    assert(l.skip(kn + 1) =~= e.1.ser());
    assert(K::deser(l.take(kn)) == Some(e.0));
    assert(V::deser(l.skip(kn + 1)) == Some(e.1));
    assert(e == (e.0, e.1));
}

/// Folding the snapshot lines of the suffix of `s` from index `t` onto the
/// already-loaded prefix restores all of `s`.
proof fn lemma_load_entries_round<K: Persistent, V: Persistent>(cap: nat, s: Seq<(K, V)>, t: int)
    requires
        keys_distinct(s),
        s.len() <= cap,
        forall|i: int|
            0 <= i < s.len() ==> (#[trigger] s[i]).0.ser_ok() && (#[trigger] s[i]).1.ser_ok(),
        0 <= t <= s.len(),
    ensures
        load_entries::<K, V>(
            cap,
            Seq::new(s.len(), |i: int| line_of(s[i])).skip(t),
            s.take(t),
        ) == s,
    decreases s.len() - t,
{
    let ls = Seq::new(s.len(), |i: int| line_of(s[i]));
    if t == s.len() {
        assert(ls.skip(t).len() == 0);
        assert(s.take(t) =~= s);
    } else {
        lemma_parse_line_of::<K, V>(s[t]);
        assert(ls.skip(t)[0] == ls[t]);
        assert(parse_line::<K, V>(ls.skip(t)[0]) == Some(s[t]));
        assert(!has_key(s.take(t), s[t].0)) by {
            if has_key(s.take(t), s[t].0) {
                let w = key_index(s.take(t), s[t].0);
                assert(0 <= w < t && s.take(t)[w].0 == s[t].0);
                assert(s[w].0 == s[t].0);
            }
        }
        assert(s.take(t).len() < cap);
        assert(s.take(t).push(s[t]) =~= s.take(t + 1));
        assert(ls.skip(t).drop_first() =~= ls.skip(t + 1));
        lemma_load_entries_round::<K, V>(cap, s, t + 1);
    }
}

/// Law: a snapshot round-trips. Serializing a well-formed cache whose keys
/// and values are format-safe and loading the lines back — under the same or
/// a larger capacity — restores the same entries in the same recency order,
/// so the same key would be evicted first.
pub proof fn lemma_snapshot_round_trip<K: Persistent, V: Persistent>(s: Seq<(K, V)>, cap: nat)
    requires
        keys_distinct(s),
        s.len() <= cap,
        s.len() <= usize::MAX,
        forall|i: int|
            0 <= i < s.len() ==> (#[trigger] s[i]).0.ser_ok() && (#[trigger] s[i]).1.ser_ok(),
    ensures
        load_model::<K, V>(cap, snapshot_model(s)) == s,
{
    let lines = snapshot_model(s);
    assert(lines.len() == s.len() + 1);
    assert(lines[0] == dec_digits(s.len()));
    crate::decimal::lemma_dec_digits_ok(s.len());
    assert(is_dec(lines[0]) && dec_val(lines[0]) == s.len());
    let ls = Seq::new(s.len(), |i: int| line_of(s[i]));
    assert(lines.subrange(1, 1 + s.len() as int) =~= ls);
    assert(ls.skip(0) =~= ls);
    assert(s.take(0) =~= Seq::<(K, V)>::empty());
    lemma_load_entries_round::<K, V>(cap, s, 0);
}

/// A fixed-capacity key-value cache with strict LRU eviction. Its view is the
/// sequence of entries in recency order: index 0 is the least recently used
/// entry, the one an overflowing insertion evicts.
pub struct Cache<K, V> {
    capacity: usize,
    entries: Vec<(K, V)>,
}

impl<K, V> Cache<K, V> {
    /// The entries in recency order, least recently used first.
    pub closed spec fn view(&self) -> Seq<(K, V)> {
        self.entries@
    }

    /// The fixed capacity the cache was created with.
    pub closed spec fn cap(&self) -> nat {
        self.capacity as nat
    }

    /// Well-formedness: positive capacity, never more entries than capacity,
    /// and no key stored twice.
    pub open spec fn wf(&self) -> bool {
        0 < self.cap() && self@.len() <= self.cap() && keys_distinct(self@)
    }
}

impl<K: CacheKey, V> Cache<K, V> {
    /// Creates an empty in-memory cache. A capacity of zero is a
    /// configuration error and is rejected here.
    pub fn new(capacity: usize) -> (r: Self)
        requires
            0 < capacity,
        ensures
            r.wf(),
            r.cap() == capacity,
            r@ == Seq::<(K, V)>::empty(),
    {
        Cache { capacity, entries: Vec::new() }
    }

    /// Index of the entry holding `key`, if any.
    fn find_index(&self, key: &K) -> (r: Option<usize>)
        ensures
            match r {
                Some(i) => i < self@.len() && self@[i as int].0 == *key,
                None => !has_key(self@, *key),
            },
    {
        let n = self.entries.len();
        let mut i: usize = 0;
        while i < n
            invariant
                n == self.entries@.len(),
                i <= n,
                forall|j: int| 0 <= j < i ==> (#[trigger] self.entries@[j]).0 != *key,
            decreases n - i,
        {
            let e = &self.entries[i];
            if e.0.key_eq(key) {
                return Some(i);
            }
            i = i + 1;
        }
        proof {
            lemma_no_key(self@, *key);
        }
        None
    }

    /// Inserts or updates an entry. An existing key is rebound and promoted
    /// to most-recently-used without any eviction; a new key is appended,
    /// and if the cache is already full the least-recently-used entry (the
    /// head of the order) is evicted first.
    pub fn put(&mut self, key: K, value: V)
        requires
            old(self).wf(),
        ensures
            final(self).wf(),
            final(self).cap() == old(self).cap(),
            final(self)@ == put_model(old(self)@, old(self).cap(), key, value),
    {
        let ghost s0 = self@;
        match self.find_index(&key) {
            Some(i) => {
                proof {
                    lemma_key_index(s0, key, i as int);
                    lemma_bump_key(s0, key, value);
                }
                let _replaced = self.entries.remove(i);
                self.entries.push((key, value));
                proof {
                    assert(self.entries@ =~= bump_key(s0, key, value));
                }
            },
            None => {
                if self.entries.len() >= self.capacity {
                    let ghost before = self.entries@;
                    let _evicted = self.entries.remove(0);
                    proof {
                        assert(self.entries@ =~= before.drop_first());
                    }
                }
                self.entries.push((key, value));
                proof {
                    let s1 = self.entries@;
                    assert forall|a: int, b: int| 0 <= a < b < s1.len() implies (
                    #[trigger] s1[a]).0 != (#[trigger] s1[b]).0 by {
                        if s0.len() >= self.capacity {
                            assert(s1 =~= s0.drop_first().push((key, value)));
                            if b < s1.len() - 1 {
                                assert(s0[a + 1].0 != s0[b + 1].0);
                            } else {
                                assert(s0[a + 1].0 != key);
                            }
                        } else {
                            if b == s1.len() - 1 {
                                assert(s0[a].0 != key);
                            }
                        }
                    }
                }
            },
        }
    }

    /// Looks a key up. A hit returns the stored value and promotes the key to
    /// most-recently-used; a miss returns `None` and changes nothing.
    pub fn get(&mut self, key: &K) -> (r: Option<&V>)
        requires
            old(self).wf(),
        ensures
            final(self).wf(),
            final(self).cap() == old(self).cap(),
            final(self)@ == get_model(old(self)@, *key),
            r is Some <==> has_key(old(self)@, *key),
            (r matches Some(v) ==> *v == value_of(old(self)@, *key)),
    {
        let ghost s0 = self@;
        match self.find_index(key) {
            Some(i) => {
                proof {
                    lemma_key_index(s0, *key, i as int);
                    lemma_bump_key(s0, *key, value_of(s0, *key));
                }
                let pair = self.entries.remove(i);
                self.entries.push(pair);
                proof {
                    assert(self.entries@ =~= bump_key(s0, *key, value_of(s0, *key)));
                }
                let last = self.entries.len() - 1;
                Some(&self.entries[last].1)
            },
            None => None,
        }
    }
}

} // verus!
