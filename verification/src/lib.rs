//! A fixed-capacity LRU (least-recently-used) cache with a snapshot codec for
//! persistence, plus a small alphabet-position service that fronts such a
//! cache. The cache tracks recency as a sequence of entries: index 0 is the
//! least recently used, the last index the most recently used, and an
//! overflowing insertion evicts exactly the head entry.

use vstd::prelude::*;

pub mod api_service;
pub mod cache;
pub mod decimal;

pub use api_service::AlphabetService;
pub use cache::Cache;

use api_service::alphabet_position;
use cache::{
    get_model, has_key, key_index, keys_distinct, lines_view, load_model, put_model,
    snapshot_model, value_of, CacheKey, Persistent,
};
use decimal::{dec_digits, dec_val, is_dec, lemma_dec_digits_ok, parse_u32};

verus! {

impl CacheKey for char {
    fn key_eq(&self, other: &Self) -> (r: bool) {
        *self == *other
    }
}

impl Persistent for char {
    open spec fn ser(&self) -> Seq<char> {
        seq![*self]
    }

    open spec fn deser(s: Seq<char>) -> Option<Self> {
        if s.len() >= 1 {
            Some(s[0])
        } else {
            None
        }
    }

    open spec fn ser_ok(&self) -> bool {
        *self != '|' && *self != '\n'
    }

    proof fn lemma_round_trip(&self) {
        assert(self.ser().len() == 1);
        assert(self.ser()[0] == *self);
    }

    fn serialize(&self) -> (s: String) {
        let mut s = String::new();
        decimal::push_char(&mut s, *self);
        proof {
            assert(s@ =~= seq![*self]);
        }
        s
    }

    fn deserialize(s: &str) -> (r: Option<Self>) {
        if s.unicode_len() >= 1 {
            Some(s.get_char(0))
        } else {
            None
        }
    }
}

impl Persistent for u32 {
    open spec fn ser(&self) -> Seq<char> {
        dec_digits(*self as nat)
    }

    open spec fn deser(s: Seq<char>) -> Option<Self> {
        if is_dec(s) && dec_val(s) <= u32::MAX {
            Some(dec_val(s) as u32)
        } else {
            None
        }
    }

    open spec fn ser_ok(&self) -> bool {
        true
    }

    proof fn lemma_round_trip(&self) {
        lemma_dec_digits_ok(*self as nat);
    }

    fn serialize(&self) -> (s: String) {
        decimal::dec_string(*self as usize)
    }

    fn deserialize(s: &str) -> (r: Option<Self>) {
        parse_u32(s)
    }
}

/// Every cache entry of the service holds the true alphabet position of its
/// key.
pub open spec fn positions_cached(s: Seq<(char, u32)>) -> bool {
    forall|i: int| 0 <= i < s.len() ==> Some((#[trigger] s[i]).1) == alphabet_position(s[i].0)
}

/// Promoting a correct entry keeps every entry correct.
proof fn lemma_positions_cached_get(s: Seq<(char, u32)>, k: char)
    requires
        keys_distinct(s),
        positions_cached(s),
        has_key(s, k),
    ensures
        positions_cached(get_model(s, k)),
{
    let i = key_index(s, k);
    assert(0 <= i < s.len() && s[i].0 == k);
    let r = get_model(s, k);
    s.remove_ensures(i);
    assert forall|j: int| 0 <= j < r.len() implies Some((#[trigger] r[j]).1) == alphabet_position(
        r[j].0,
    ) by {
        if j == r.len() - 1 {
            assert(r[j] == (k, value_of(s, k)));
            assert(Some(s[i].1) == alphabet_position(s[i].0));
        } else {
            if j < i {
                assert(r[j] == s[j]);
            } else {
                assert(r[j] == s[j + 1]);
            }
        }
    }
}

/// Inserting a correct entry keeps every entry correct, whichever branch the
/// insertion takes.
proof fn lemma_positions_cached_put(s: Seq<(char, u32)>, cap: nat, k: char, v: u32)
    requires
        keys_distinct(s),
        positions_cached(s),
        Some(v) == alphabet_position(k),
        0 < cap,
        s.len() <= cap,
    ensures
        positions_cached(put_model(s, cap, k, v)),
{
    let r = put_model(s, cap, k, v);
    if has_key(s, k) {
        let i = key_index(s, k);
        assert(0 <= i < s.len() && s[i].0 == k);
        s.remove_ensures(i);
        assert forall|j: int| 0 <= j < r.len() implies Some((#[trigger] r[j]).1)
            == alphabet_position(r[j].0) by {
            if j == r.len() - 1 {
                assert(r[j] == (k, v));
            } else {
                if j < i {
                    assert(r[j] == s[j]);
                } else {
                    assert(r[j] == s[j + 1]);
                }
            }
        }
    } else if s.len() >= cap {
        assert forall|j: int| 0 <= j < r.len() implies Some((#[trigger] r[j]).1)
            == alphabet_position(r[j].0) by {
            if j == r.len() - 1 {
                assert(r[j] == (k, v));
            } else {
                assert(r[j] == s[j + 1]);
            }
        }
    } else {
        assert forall|j: int| 0 <= j < r.len() implies Some((#[trigger] r[j]).1)
            == alphabet_position(r[j].0) by {
            if j == r.len() - 1 {
                assert(r[j] == (k, v));
            } else {
                assert(r[j] == s[j]);
            }
        }
    }
}

/// An alphabet-position service fronted by an LRU cache: a request is served
/// from the cache when possible and otherwise asked of the provider, whose
/// positive answers populate the cache.
pub struct CachedAlphabetService {
    api: AlphabetService,
    cache: Cache<char, u32>,
}

impl CachedAlphabetService {
    /// The entries of the backing cache, in recency order.
    pub closed spec fn cache_model(&self) -> Seq<(char, u32)> {
        self.cache@
    }

    /// The capacity of the backing cache.
    pub closed spec fn cache_cap(&self) -> nat {
        self.cache.cap()
    }

    /// The backing cache is well-formed.
    pub closed spec fn cache_wf(&self) -> bool {
        self.cache.wf()
    }

    /// Every cached position is the true one. Holds from construction on;
    /// a snapshot of foreign origin may break it, and then a hit simply
    /// returns whatever was cached, as `get_letter_position` states.
    pub open spec fn positions_ok(&self) -> bool {
        positions_cached(self.cache_model())
    }

    /// Creates a service backed by a fresh in-memory cache.
    pub fn new(api: AlphabetService, cache_capacity: usize) -> (s: Self)
        requires
            0 < cache_capacity,
        ensures
            s.cache_wf(),
            s.positions_ok(),
            s.cache_cap() == cache_capacity,
            s.cache_model() == Seq::<(char, u32)>::empty(),
    {
        CachedAlphabetService { api, cache: Cache::new(cache_capacity) }
    }

    /// Creates a service whose cache is restored from snapshot lines.
    pub fn new_from_lines(api: AlphabetService, cache_capacity: usize, lines: &Vec<String>) -> (s:
        Self)
        requires
            0 < cache_capacity,
        ensures
            s.cache_wf(),
            s.cache_cap() == cache_capacity,
            s.cache_model() == load_model::<char, u32>(
                cache_capacity as nat,
                lines_view(lines@),
            ),
    {
        CachedAlphabetService { api, cache: Cache::from_lines(cache_capacity, lines) }
    }

    /// The snapshot lines of the backing cache.
    pub fn snapshot_lines(&self) -> (lines: Vec<String>)
        ensures
            lines_view(lines@) == snapshot_model(self.cache_model()),
    {
        self.cache.to_lines()
    }

    /// The position (1-26) of a letter in the alphabet. A cache hit returns
    /// the cached position and only promotes the key; a miss asks the
    /// provider, caches a positive answer, and caches nothing on a negative
    /// one — so a repeated miss asks the provider again. When every cached
    /// position is true (as it is for any cache this type built up itself),
    /// the answer is exactly the alphabet position.
    pub fn get_letter_position(&mut self, letter: char) -> (r: Option<u32>)
        requires
            old(self).cache_wf(),
        ensures
            final(self).cache_wf(),
            final(self).cache_cap() == old(self).cache_cap(),
            has_key(old(self).cache_model(), letter) ==> r == Some(
                value_of(old(self).cache_model(), letter),
            ) && final(self).cache_model() == get_model(old(self).cache_model(), letter),
            !has_key(old(self).cache_model(), letter) ==> r == alphabet_position(letter) && (
            match alphabet_position(letter) {
                Some(p) => final(self).cache_model() == put_model(
                    old(self).cache_model(),
                    old(self).cache_cap(),
                    letter,
                    p,
                ),
                None => final(self).cache_model() == old(self).cache_model(),
            }),
            old(self).positions_ok() ==> final(self).positions_ok() && r == alphabet_position(
                letter,
            ),
    {
        let ghost s0 = self.cache@;
        match self.cache.get(&letter) {
            Some(p) => {
                let position = *p;
                proof {
                    if positions_cached(s0) {
                        let i = key_index(s0, letter);
                        assert(0 <= i < s0.len() && s0[i].0 == letter);
                        assert(Some(s0[i].1) == alphabet_position(s0[i].0));
                        cache::lemma_key_index(s0, letter, i);
                        lemma_positions_cached_get(s0, letter);
                    }
                }
                return Some(position);
            },
            None => {},
        }
        match self.api.get_letter_position(letter) {
            Some(position) => {
                proof {
                    if positions_cached(s0) {
                        lemma_positions_cached_put(
                            s0,
                            self.cache.cap(),
                            letter,
                            position,
                        );
                    }
                }
                self.cache.put(letter, position);
                Some(position)
            },
            None => None,
        }
    }
}

} // verus!
