use std::cmp::Ordering;

use vstd::prelude::*;

use crate::dispatcher::ParserKey;
use crate::tlv::TLV;

verus! {

/// A key as values: a TLV type code and a byte prefix.
pub type KeyView = (u8, Seq<u8>);

/// Compares a key prefix with a TLV value byte by byte: the first byte that
/// differs decides; a prefix that runs out first is equal to the value; a
/// value that runs out first is smaller than the prefix.
pub open spec fn prefix_cmp(k: Seq<u8>, v: Seq<u8>) -> Ordering
    decreases k.len(),
{
    if k.len() == 0 {
        Ordering::Equal
    } else if v.len() == 0 {
        Ordering::Greater
    } else if k[0] < v[0] {
        Ordering::Less
    } else if k[0] > v[0] {
        Ordering::Greater
    } else {
        prefix_cmp(k.skip(1), v.skip(1))
    }
}

/// `a` is a prefix of `b`.
pub open spec fn is_prefix(a: Seq<u8>, b: Seq<u8>) -> bool {
    a.len() <= b.len() && b.take(a.len() as int) == a
}

/// Lexicographic order on byte sequences, a proper prefix first.
pub open spec fn bytes_lt(a: Seq<u8>, b: Seq<u8>) -> bool
    decreases a.len(),
{
    if a.len() == 0 {
        b.len() > 0
    } else if b.len() == 0 {
        false
    } else if a[0] < b[0] {
        true
    } else if a[0] > b[0] {
        false
    } else {
        bytes_lt(a.skip(1), b.skip(1))
    }
}

/// The order of stored keys: by type, then by prefix.
pub open spec fn key_lt(a: KeyView, b: KeyView) -> bool {
    a.0 < b.0 || (a.0 == b.0 && bytes_lt(a.1, b.1))
}

/// Two keys can never match the same TLV.
pub open spec fn keys_compatible(a: KeyView, b: KeyView) -> bool {
    a.0 != b.0 || (!is_prefix(a.1, b.1) && !is_prefix(b.1, a.1))
}

/// How a key stands to a TLV of type `t` and value `v`: by type first,
/// then by [prefix_cmp].
pub open spec fn probe_cmp(k: KeyView, t: u8, v: Seq<u8>) -> Ordering {
    if k.0 < t {
        Ordering::Less
    } else if k.0 > t {
        Ordering::Greater
    } else {
        prefix_cmp(k.1, v)
    }
}

/// A key matches a TLV when the types agree and the prefix begins the value.
pub open spec fn key_matches(k: KeyView, t: u8, v: Seq<u8>) -> bool {
    k.0 == t && is_prefix(k.1, v)
}

pub proof fn lemma_prefix_cmp_equal(k: Seq<u8>, v: Seq<u8>)
    ensures
        (prefix_cmp(k, v) == Ordering::Equal) == is_prefix(k, v),
    decreases k.len(),
{
    if k.len() == 0 {
        assert(v.take(0) =~= k);
    } else if v.len() > 0 {
        if is_prefix(k, v) {
            assert(v.take(k.len() as int)[0] == v[0]);
        }
        if k[0] == v[0] {
            lemma_prefix_cmp_equal(k.skip(1), v.skip(1));
            if is_prefix(k.skip(1), v.skip(1)) {
                assert(v.take(k.len() as int) =~= seq![v[0]] + v.skip(1).take(k.len() - 1));
                assert(k =~= seq![k[0]] + k.skip(1));
            }
            if is_prefix(k, v) {
                assert(v.skip(1).take(k.len() - 1) =~= v.take(k.len() as int).skip(1));
            }
        }
    }
}

/// Among prefix-compatible keys in order, a later key that is below a value
/// has an earlier key below it too, and an earlier key above a value has a
/// later key above it too.
pub proof fn lemma_prefix_cmp_monotone(a: Seq<u8>, b: Seq<u8>, v: Seq<u8>)
    requires
        bytes_lt(a, b),
        !is_prefix(a, b),
    ensures
        prefix_cmp(b, v) == Ordering::Less ==> prefix_cmp(a, v) == Ordering::Less,
        prefix_cmp(a, v) == Ordering::Greater ==> prefix_cmp(b, v) == Ordering::Greater,
    decreases a.len(),
{
    if a.len() == 0 {
        assert(b.take(0) =~= a);
    } else if a[0] == b[0] && v.len() > 0 && a[0] == v[0] {
        if is_prefix(a.skip(1), b.skip(1)) {
            assert(b.take(a.len() as int) =~= seq![b[0]] + b.skip(1).take(a.len() - 1));
            assert(a =~= seq![a[0]] + a.skip(1));
        }
        lemma_prefix_cmp_monotone(a.skip(1), b.skip(1), v.skip(1));
    }
}

pub proof fn lemma_bytes_lt_transitive(a: Seq<u8>, b: Seq<u8>, c: Seq<u8>)
    requires
        bytes_lt(a, b),
        bytes_lt(b, c),
    ensures
        bytes_lt(a, c),
    decreases a.len(),
{
    if a.len() > 0 && b.len() > 0 && c.len() > 0 && a[0] == b[0] && b[0] == c[0] {
        lemma_bytes_lt_transitive(a.skip(1), b.skip(1), c.skip(1));
    }
}

pub proof fn lemma_bytes_lt_irreflexive(a: Seq<u8>)
    ensures
        !bytes_lt(a, a),
    decreases a.len(),
{
    if a.len() > 0 {
        lemma_bytes_lt_irreflexive(a.skip(1));
    }
}

pub proof fn lemma_bytes_lt_total(a: Seq<u8>, b: Seq<u8>)
    ensures
        a != b ==> bytes_lt(a, b) || bytes_lt(b, a),
        bytes_lt(a, b) ==> !bytes_lt(b, a),
    decreases a.len(),
{
    if a.len() > 0 && b.len() > 0 {
        lemma_bytes_lt_total(a.skip(1), b.skip(1));
        if a[0] == b[0] && a.skip(1) == b.skip(1) {
            assert(a =~= seq![a[0]] + a.skip(1));
            assert(b =~= seq![b[0]] + b.skip(1));
        }
    } else if a.len() == 0 && b.len() == 0 {
        assert(a =~= b);
    }
}

pub proof fn lemma_key_lt_transitive(a: KeyView, b: KeyView, c: KeyView)
    requires
        key_lt(a, b),
        key_lt(b, c),
    ensures
        key_lt(a, c),
{
    if a.0 == b.0 && b.0 == c.0 {
        lemma_bytes_lt_transitive(a.1, b.1, c.1);
    }
}

/// Probing sorted, compatible keys with one TLV gives `Less` up to some
/// point and `Greater` from some point on.
pub proof fn lemma_probe_monotone(a: KeyView, b: KeyView, t: u8, v: Seq<u8>)
    requires
        key_lt(a, b),
        keys_compatible(a, b),
    ensures
        probe_cmp(b, t, v) == Ordering::Less ==> probe_cmp(a, t, v) == Ordering::Less,
        probe_cmp(a, t, v) == Ordering::Greater ==> probe_cmp(b, t, v) == Ordering::Greater,
{
    if a.0 == b.0 {
        lemma_prefix_cmp_monotone(a.1, b.1, v);
    }
}

/// At most one of several compatible keys matches a given TLV.
pub proof fn lemma_match_unique(a: KeyView, b: KeyView, t: u8, v: Seq<u8>)
    requires
        keys_compatible(a, b),
        key_matches(a, t, v),
        key_matches(b, t, v),
    ensures
        a == b,
{
    if a.1.len() <= b.1.len() {
        assert(b.1.take(a.1.len() as int) =~= v.take(a.1.len() as int));
    } else {
        assert(a.1.take(b.1.len() as int) =~= v.take(b.1.len() as int));
    }
}

/// Compares values with a key-like value of another type.
pub trait LexOrder<O> {
    spec fn lex_order(&self, other: &O) -> Ordering;

    fn lex_cmp(&self, other: &O) -> (r: Ordering)
        ensures
            r == self.lex_order(other),
    ;
}

/// Values stored under keys, with the keys kept in ascending order so that a
/// TLV finds its key by binary search.
pub struct Storage<V> {
    keys: Vec<ParserKey>,
    values: Vec<V>,
    entries: Ghost<Map<KeyView, V>>,
}

impl<V> View for Storage<V> {
    type V = Map<KeyView, V>;

    closed spec fn view(&self) -> Map<KeyView, V> {
        self.entries@
    }
}

impl<V> Storage<V> {
    /// Keys ascending and pairwise compatible, each holding its value.
    pub closed spec fn wf(&self) -> bool {
        &&& self.keys@.len() == self.values@.len()
        &&& forall|i: int, j: int|
            0 <= i < j < self.keys@.len() ==> key_lt(self.keys@[i]@, self.keys@[j]@)
        &&& forall|i: int, j: int|
            0 <= i < self.keys@.len() && 0 <= j < self.keys@.len() && i != j ==> keys_compatible(
                self.keys@[i]@,
                self.keys@[j]@,
            )
        &&& forall|k: KeyView|
            self.entries@.contains_key(k) <==> exists|i: int|
                0 <= i < self.keys@.len() && (#[trigger] self.keys@[i])@ == k
        &&& forall|i: int|
            0 <= i < self.keys@.len() ==> self.entries@[(#[trigger] self.keys@[i])@] == self.values@[i]
    }

    /// Every stored key is compatible with every other stored key.
    pub proof fn lemma_compatible(&self, a: KeyView, b: KeyView)
        requires
            self.wf(),
            self@.contains_key(a),
            self@.contains_key(b),
            a != b,
        ensures
            keys_compatible(a, b),
    {
        let i = choose|i: int| 0 <= i < self.keys@.len() && (#[trigger] self.keys@[i])@ == a;
        let j = choose|j: int| 0 <= j < self.keys@.len() && (#[trigger] self.keys@[j])@ == b;
        assert(i != j);
    }

    pub fn new() -> (r: Self)
        ensures
            r.wf(),
            r@ == Map::<KeyView, V>::empty(),
    {
        Storage { keys: Vec::new(), values: Vec::new(), entries: Ghost(Map::empty()) }
    }

    /// Binary search for the key that a TLV matches.
    fn index_of(&self, key_like: &TLV) -> (r: Result<usize, usize>)
        requires
            self.wf(),
        ensures
            r is Ok ==> r->Ok_0 < self.keys@.len() && key_matches(
                self.keys@[r->Ok_0 as int]@,
                key_like.spec_type().byte(),
                key_like.spec_value(),
            ),
            r is Err ==> forall|j: int|
                0 <= j < self.keys@.len() ==> !key_matches(
                    #[trigger] self.keys@[j]@,
                    key_like.spec_type().byte(),
                    key_like.spec_value(),
                ),
    {
        let ghost t = key_like.spec_type().byte();
        let ghost v = key_like.spec_value();
        let mut lo: usize = 0;
        let mut hi: usize = self.keys.len();
        while lo < hi
            invariant
                self.wf(),
                t == key_like.spec_type().byte(),
                v == key_like.spec_value(),
                lo <= hi <= self.keys@.len(),
                forall|j: int| 0 <= j < lo ==> probe_cmp(#[trigger] self.keys@[j]@, t, v) == Ordering::Less,
                forall|j: int|
                    hi <= j < self.keys@.len() ==> probe_cmp(#[trigger] self.keys@[j]@, t, v)
                        == Ordering::Greater,
            decreases hi - lo,
        {
            let mid = lo + (hi - lo) / 2;
            match self.keys[mid].cmp_with_tlv(key_like) {
                Ordering::Less => {
                    assert forall|j: int| 0 <= j <= mid implies probe_cmp(
                        #[trigger] self.keys@[j]@,
                        t,
                        v,
                    ) == Ordering::Less by {
                        if j < mid {
                            assert(key_lt(self.keys@[j]@, self.keys@[mid as int]@));
                            assert(keys_compatible(self.keys@[j]@, self.keys@[mid as int]@));
                            lemma_probe_monotone(self.keys@[j]@, self.keys@[mid as int]@, t, v);
                        }
                    }
                    lo = mid + 1;
                },
                Ordering::Greater => {
                    assert forall|j: int| mid <= j < self.keys@.len() implies probe_cmp(
                        #[trigger] self.keys@[j]@,
                        t,
                        v,
                    ) == Ordering::Greater by {
                        if j > mid {
                            assert(key_lt(self.keys@[mid as int]@, self.keys@[j]@));
                            assert(keys_compatible(self.keys@[mid as int]@, self.keys@[j]@));
                            lemma_probe_monotone(self.keys@[mid as int]@, self.keys@[j]@, t, v);
                        }
                    }
                    hi = mid;
                },
                Ordering::Equal => {
                    proof {
                        lemma_prefix_cmp_equal(self.keys@[mid as int]@.1, v);
                    }
                    return Ok(mid);
                },
            }
        }
        assert forall|j: int| 0 <= j < self.keys@.len() implies !key_matches(
            #[trigger] self.keys@[j]@,
            t,
            v,
        ) by {
            lemma_prefix_cmp_equal(self.keys@[j]@.1, v);
        }
        Err(lo)
    }

    /// The stored key that a TLV matches.
    pub fn key_of(&self, key_like: &TLV) -> (r: Option<ParserKey>)
        requires
            self.wf(),
        ensures
            r is Some <==> exists|k: KeyView|
                self@.contains_key(k) && key_matches(
                    k,
                    key_like.spec_type().byte(),
                    key_like.spec_value(),
                ),
            r is Some ==> self@.contains_key(r->Some_0@) && key_matches(
                r->Some_0@,
                key_like.spec_type().byte(),
                key_like.spec_value(),
            ),
    {
        match self.index_of(key_like) {
            Ok(i) => {
                let k = self.keys[i].duplicate();
                Some(k)
            },
            Err(_) => {
                assert forall|k: KeyView| self@.contains_key(k) implies !key_matches(
                    k,
                    key_like.spec_type().byte(),
                    key_like.spec_value(),
                ) by {
                    let i = choose|i: int| 0 <= i < self.keys@.len() && (#[trigger] self.keys@[i])@ == k;
                }
                None
            },
        }
    }

    /// Binary search for a key in the stored order: its position, or where
    /// it would go.
    fn find(&self, key: &ParserKey) -> (r: Result<usize, usize>)
        requires
            self.wf(),
        ensures
            r is Ok ==> r->Ok_0 < self.keys@.len() && self.keys@[r->Ok_0 as int]@ == key@,
            r is Err ==> r->Err_0 <= self.keys@.len() && (forall|j: int|
                0 <= j < r->Err_0 ==> key_lt(#[trigger] self.keys@[j]@, key@)) && (forall|j: int|
                r->Err_0 <= j < self.keys@.len() ==> key_lt(key@, #[trigger] self.keys@[j]@)),
    {
        let mut lo: usize = 0;
        let mut hi: usize = self.keys.len();
        while lo < hi
            invariant
                self.wf(),
                lo <= hi <= self.keys@.len(),
                forall|j: int| 0 <= j < lo ==> key_lt(#[trigger] self.keys@[j]@, key@),
                forall|j: int| hi <= j < self.keys@.len() ==> key_lt(key@, #[trigger] self.keys@[j]@),
            decreases hi - lo,
        {
            let mid = lo + (hi - lo) / 2;
            match self.keys[mid].cmp_key(key) {
                Ordering::Less => {
                    assert forall|j: int| 0 <= j <= mid implies key_lt(#[trigger] self.keys@[j]@, key@) by {
                        if j < mid {
                            lemma_key_lt_transitive(self.keys@[j]@, self.keys@[mid as int]@, key@);
                        }
                    }
                    lo = mid + 1;
                },
                Ordering::Greater => {
                    assert forall|j: int| mid <= j < self.keys@.len() implies key_lt(
                        key@,
                        #[trigger] self.keys@[j]@,
                    ) by {
                        if j > mid {
                            lemma_key_lt_transitive(key@, self.keys@[mid as int]@, self.keys@[j]@);
                        }
                    }
                    hi = mid;
                },
                Ordering::Equal => {
                    return Ok(mid);
                },
            }
        }
        Err(lo)
    }

    /// The value stored under a key.
    pub fn get(&self, key: &ParserKey) -> (r: Option<&V>)
        requires
            self.wf(),
        ensures
            r is Some <==> self@.contains_key(key@),
            r is Some ==> *r->Some_0 == self@[key@],
    {
        match self.find(key) {
            Ok(i) => Some(&self.values[i]),
            Err(i) => {
                proof {
                    if self@.contains_key(key@) {
                        let j = choose|j: int|
                            0 <= j < self.keys@.len() && (#[trigger] self.keys@[j])@ == key@;
                        lemma_bytes_lt_irreflexive(key@.1);
                        if j < i {
                            assert(key_lt(self.keys@[j]@, key@));
                        } else {
                            assert(key_lt(key@, self.keys@[j]@));
                        }
                    }
                }
                None
            },
        }
    }

    /// The value stored under the key that a TLV matches.
    pub fn get_with(&self, key_like: &TLV) -> (r: Option<&V>)
        requires
            self.wf(),
        ensures
            r is Some <==> exists|k: KeyView|
                self@.contains_key(k) && key_matches(
                    k,
                    key_like.spec_type().byte(),
                    key_like.spec_value(),
                ),
            r is Some ==> exists|k: KeyView|
                self@.contains_key(k) && key_matches(
                    k,
                    key_like.spec_type().byte(),
                    key_like.spec_value(),
                ) && *r->Some_0 == self@[k],
    {
        let key = match self.key_of(key_like) {
            Some(key) => key,
            None => {
                return None;
            },
        };
        self.get(&key)
    }

    /// Stores a value under a key and gives back the value the key held
    /// before, if any. The key must not overlap a different stored key.
    pub fn insert(&mut self, key: ParserKey, value: V) -> (r: Option<V>)
        requires
            old(self).wf(),
            forall|k: KeyView|
                old(self)@.contains_key(k) && k != key@ ==> keys_compatible(k, key@),
        ensures
            final(self).wf(),
            final(self)@ == old(self)@.insert(key@, value),
            r is Some <==> old(self)@.contains_key(key@),
            r is Some ==> r->Some_0 == old(self)@[key@],
    {
        match self.find(&key) {
            Ok(i) => {
                let ghost old_keys = self.keys@;
                proof {
                    lemma_bytes_lt_irreflexive(key@.1);
                }
                let previous = self.values.remove(i);
                self.values.insert(i, value);
                proof {
                    self.entries@ = self.entries@.insert(key@, value);
                    assert forall|k: KeyView| self.entries@.contains_key(k) implies exists|j: int|
                        0 <= j < self.keys@.len() && (#[trigger] self.keys@[j])@ == k by {
                        if k == key@ {
                            assert(self.keys@[i as int]@ == k);
                        } else {
                            assert(old(self)@.contains_key(k));
                            let j = choose|j: int|
                                0 <= j < old_keys.len() && (#[trigger] old_keys[j])@ == k;
                            assert(self.keys@[j]@ == k);
                        }
                    }
                    assert forall|j: int| 0 <= j < self.keys@.len() implies self.entries@[(
                    #[trigger] self.keys@[j])@] == self.values@[j] by {
                        if j < i {
                            assert(key_lt(old_keys[j]@, old_keys[i as int]@));
                        }
                        if j > i {
                            assert(key_lt(old_keys[i as int]@, old_keys[j]@));
                        }
                    }
                }
                Some(previous)
            },
            Err(i) => {
                let ghost old_keys = self.keys@;
                proof {
                    assert(!old(self)@.contains_key(key@)) by {
                        if old(self)@.contains_key(key@) {
                            let j = choose|j: int|
                                0 <= j < old_keys.len() && (#[trigger] old_keys[j])@ == key@;
                            lemma_bytes_lt_irreflexive(key@.1);
                            if j < i {
                                assert(key_lt(old_keys[j]@, key@));
                            } else {
                                assert(key_lt(key@, old_keys[j]@));
                            }
                        }
                    }
                }
                let ghost kv = key@;
                self.keys.insert(i, key);
                self.values.insert(i, value);
                proof {
                    self.entries@ = self.entries@.insert(kv, value);
                    assert(self.keys@[i as int]@ == kv);
                    assert forall|a: int, b: int|
                        0 <= a < b < self.keys@.len() implies key_lt(self.keys@[a]@, self.keys@[b]@) by {
                        if a < i && b > i {
                            assert(self.keys@[a] == old_keys[a]);
                            assert(self.keys@[b] == old_keys[b - 1]);
                        }
                        if a > i {
                            assert(self.keys@[a] == old_keys[a - 1]);
                            assert(self.keys@[b] == old_keys[b - 1]);
                        }
                        if b < i {
                            assert(self.keys@[a] == old_keys[a]);
                            assert(self.keys@[b] == old_keys[b]);
                        }
                        if a == i {
                            assert(self.keys@[b] == old_keys[b - 1]);
                        }
                        if b == i {
                            assert(self.keys@[a] == old_keys[a]);
                        }
                    }
                    assert forall|a: int, b: int|
                        0 <= a < self.keys@.len() && 0 <= b < self.keys@.len() && a != b implies keys_compatible(
                        self.keys@[a]@,
                        self.keys@[b]@,
                    ) by {
                        let oa = if a < i {
                            a
                        } else {
                            a - 1
                        };
                        let ob = if b < i {
                            b
                        } else {
                            b - 1
                        };
                        if a != i && b != i {
                            assert(self.keys@[a] == old_keys[oa]);
                            assert(self.keys@[b] == old_keys[ob]);
                            assert(oa != ob);
                            assert(keys_compatible(old_keys[oa]@, old_keys[ob]@));
                        } else if a == i {
                            assert(self.keys@[b] == old_keys[ob]);
                            assert(old(self)@.contains_key(old_keys[ob]@));
                            assert(old_keys[ob]@ != kv);
                            assert(keys_compatible(old_keys[ob]@, kv));
                            assert(keys_compatible(kv, old_keys[ob]@));
                        } else {
                            assert(self.keys@[a] == old_keys[oa]);
                            assert(old(self)@.contains_key(old_keys[oa]@));
                            assert(old_keys[oa]@ != kv);
                            assert(keys_compatible(old_keys[oa]@, kv));
                        }
                    }
                    assert forall|k: KeyView| self.entries@.contains_key(k) <==> exists|j: int|
                        0 <= j < self.keys@.len() && (#[trigger] self.keys@[j])@ == k by {
                        if self.entries@.contains_key(k) && k != kv {
                            let j = choose|j: int|
                                0 <= j < old_keys.len() && (#[trigger] old_keys[j])@ == k;
                            if j < i {
                                assert(self.keys@[j] == old_keys[j]);
                            } else {
                                assert(self.keys@[j + 1] == old_keys[j]);
                            }
                        }
                        if exists|j: int| 0 <= j < self.keys@.len() && (#[trigger] self.keys@[j])@ == k {
                            let j = choose|j: int|
                                0 <= j < self.keys@.len() && (#[trigger] self.keys@[j])@ == k;
                            if j < i {
                                assert(self.keys@[j] == old_keys[j]);
                            } else if j > i {
                                assert(self.keys@[j] == old_keys[j - 1]);
                            }
                        }
                    }
                    assert forall|j: int| 0 <= j < self.keys@.len() implies self.entries@[(
                    #[trigger] self.keys@[j])@] == self.values@[j] by {
                        lemma_bytes_lt_irreflexive(kv.1);
                        if j < i {
                            assert(self.keys@[j] == old_keys[j]);
                        } else if j > i {
                            assert(self.keys@[j] == old_keys[j - 1]);
                        }
                        if j != i {
                            assert(self.keys@[j]@ != kv);
                        }
                    }
                }
                None
            },
        }
    }
}

} // verus!
