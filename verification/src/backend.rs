//! The store: three independent namespaces (strings, hashes, sets), each
//! keyed by UTF-8 text kept as bytes.  The backing collections come from the
//! `dashmap` crate; their contents are named by the `*_contents` functions,
//! and every operation the store makes is wrapped with a contract over those
//! names.  The store's own operations are verified against a mathematical
//! view of all three namespaces.

use vstd::prelude::*;

use crate::resp::frame::{clone_bytes, FrameView, RespFrame};
use dashmap::{DashMap, DashSet};

verus! {

#[verifier::external_type_specification]
#[verifier::external_body]
#[verifier::reject_recursive_types(K)]
#[verifier::reject_recursive_types(V)]
#[verifier::reject_recursive_types(S)]
pub struct ExDashMap<K, V, S>(DashMap<K, V, S>);

#[verifier::external_type_specification]
#[verifier::external_body]
#[verifier::reject_recursive_types(K)]
#[verifier::reject_recursive_types(S)]
pub struct ExDashSet<K, S>(DashSet<K, S>);

/// The string namespace a value-map holds: key to the stored frame's value.
pub uninterp spec fn kv_contents(m: DashMap<Vec<u8>, RespFrame>) -> Map<Seq<u8>, FrameView>;

/// The hash namespace a map-of-maps holds: key to field-to-value mapping.
pub uninterp spec fn hkv_contents(m: DashMap<Vec<u8>, DashMap<Vec<u8>, RespFrame>>) -> Map<
    Seq<u8>,
    Map<Seq<u8>, FrameView>,
>;

/// The set namespace a map-of-sets holds: key to its member set.
pub uninterp spec fn sets_contents(m: DashMap<Vec<u8>, DashSet<Vec<u8>>>) -> Map<
    Seq<u8>,
    Set<Seq<u8>>,
>;

/// An empty string namespace.
pub open spec fn empty_strings() -> Map<Seq<u8>, FrameView> {
    Map::empty()
}

/// An empty hash namespace.
pub open spec fn empty_hashes() -> Map<Seq<u8>, Map<Seq<u8>, FrameView>> {
    Map::empty()
}

/// An empty set namespace.
pub open spec fn empty_sets() -> Map<Seq<u8>, Set<Seq<u8>>> {
    Map::empty()
}

/// Relies on dashmap::DashMap::new: a freshly built map is empty.
#[verifier::external_body]
fn new_kv() -> (r: DashMap<Vec<u8>, RespFrame>)
    ensures
        kv_contents(r) == empty_strings(),
{
    DashMap::new()
}

/// Relies on dashmap::DashMap::new: a freshly built map is empty.
#[verifier::external_body]
fn new_hkv() -> (r: DashMap<Vec<u8>, DashMap<Vec<u8>, RespFrame>>)
    ensures
        hkv_contents(r) == empty_hashes(),
{
    DashMap::new()
}

/// Relies on dashmap::DashMap::new: a freshly built map is empty.
#[verifier::external_body]
fn new_sets() -> (r: DashMap<Vec<u8>, DashSet<Vec<u8>>>)
    ensures
        sets_contents(r) == empty_sets(),
{
    DashMap::new()
}

/// Relies on dashmap::DashMap::get: the entry stored under the key, cloned.
#[verifier::external_body]
fn kv_get(m: &DashMap<Vec<u8>, RespFrame>, key: &Vec<u8>) -> (r: Option<RespFrame>)
    ensures
        r is Some <==> kv_contents(*m).dom().contains(key@),
        r is Some ==> r->Some_0@ == kv_contents(*m)[key@],
{
    m.get(key).map(|v| v.value().clone())
}

/// Relies on dashmap::DashMap::insert: the key now maps to the new value and
/// every other key is untouched.
#[verifier::external_body]
fn kv_put(m: &mut DashMap<Vec<u8>, RespFrame>, key: Vec<u8>, value: RespFrame)
    ensures
        kv_contents(*final(m)) == kv_contents(*old(m)).insert(key@, value@),
{
    m.insert(key, value);
}

/// Relies on dashmap::DashMap::entry, Entry::or_default and
/// dashmap::DashMap::insert: the field of the named hash now maps to the new
/// value, the hash is created empty first if absent, and everything else is
/// untouched.
#[verifier::external_body]
fn hkv_put(
    m: &mut DashMap<Vec<u8>, DashMap<Vec<u8>, RespFrame>>,
    key: Vec<u8>,
    field: Vec<u8>,
    value: RespFrame,
)
    ensures
        ({
            let before = hkv_contents(*old(m));
            let inner = if before.dom().contains(key@) {
                before[key@]
            } else {
                Map::<Seq<u8>, FrameView>::empty()
            };
            hkv_contents(*final(m)) == before.insert(key@, inner.insert(field@, value@))
        }),
{
    let hmap = m.entry(key).or_default();
    hmap.insert(field, value);
}

/// Relies on dashmap::DashMap::get and iteration over the inner map: a
/// snapshot of the named hash as cloned field-value pairs, in no particular
/// order, one pair per field.
#[verifier::external_body]
fn hkv_snapshot(m: &DashMap<Vec<u8>, DashMap<Vec<u8>, RespFrame>>, key: &Vec<u8>) -> (r: Option<
    Vec<(Vec<u8>, RespFrame)>,
>)
    ensures
        r is Some <==> hkv_contents(*m).dom().contains(key@),
        r is Some ==> ({
            let pairs = r->Some_0;
            let inner = hkv_contents(*m)[key@];
            &&& forall|i: int|
                0 <= i < pairs@.len() ==> inner.dom().contains(#[trigger] pairs@[i].0@)
                    && inner[pairs@[i].0@] == pairs@[i].1@
            &&& forall|i: int, j: int|
                0 <= i < j < pairs@.len() ==> (#[trigger] pairs@[i].0@) != (#[trigger] pairs@[j].0@)
            &&& forall|f: Seq<u8>|
                inner.dom().contains(f) ==> exists|i: int|
                    0 <= i < pairs@.len() && (#[trigger] pairs@[i].0@) == f
        }),
{
    m.get(key).map(
        |inner| inner.iter().map(|e| (e.key().clone(), e.value().clone())).collect(),
    )
}

/// Relies on dashmap::DashMap::entry, Entry::or_default and
/// dashmap::DashSet::insert: the member joins the named set (created empty
/// first if absent); the result says whether it was newly added.
#[verifier::external_body]
fn set_put(m: &mut DashMap<Vec<u8>, DashSet<Vec<u8>>>, key: Vec<u8>, member: Vec<u8>) -> (r: bool)
    ensures
        ({
            let before = sets_contents(*old(m));
            let s = if before.dom().contains(key@) {
                before[key@]
            } else {
                Set::<Seq<u8>>::empty()
            };
            &&& r == !s.contains(member@)
            &&& sets_contents(*final(m)) == before.insert(key@, s.insert(member@))
        }),
{
    let entry = m.entry(key).or_default();
    entry.insert(member)
}

/// Relies on dashmap::DashMap::entry and Entry::or_default: the named set
/// now exists (created empty when absent) and nothing else changes.
#[verifier::external_body]
fn set_touch(m: &mut DashMap<Vec<u8>, DashSet<Vec<u8>>>, key: Vec<u8>)
    ensures
        ({
            let before = sets_contents(*old(m));
            let s = if before.dom().contains(key@) {
                before[key@]
            } else {
                Set::<Seq<u8>>::empty()
            };
            sets_contents(*final(m)) == before.insert(key@, s)
        }),
{
    m.entry(key).or_default();
}

/// Relies on dashmap::DashMap::get and dashmap::DashSet::contains: whether
/// the named set exists and holds the member.
#[verifier::external_body]
fn set_has(m: &DashMap<Vec<u8>, DashSet<Vec<u8>>>, key: &Vec<u8>, member: &Vec<u8>) -> (r: bool)
    ensures
        r == (sets_contents(*m).dom().contains(key@) && sets_contents(*m)[key@].contains(member@)),
{
    m.get(key).map(|s| s.contains(member)).unwrap_or(false)
}

/// The mathematical value of the whole store: one map per namespace.
pub struct StoreView {
    pub strings: Map<Seq<u8>, FrameView>,
    pub hashes: Map<Seq<u8>, Map<Seq<u8>, FrameView>>,
    pub sets: Map<Seq<u8>, Set<Seq<u8>>>,
}

/// The views of a sequence of byte-string keys or members.
pub open spec fn key_views(s: Seq<Vec<u8>>) -> Seq<Seq<u8>> {
    Seq::new(s.len(), |i: int| s[i]@)
}

/// The member set of `v` under `k`, empty when the key is absent.
pub open spec fn set_at(v: StoreView, k: Seq<u8>) -> Set<Seq<u8>> {
    if v.sets.dom().contains(k) {
        v.sets[k]
    } else {
        Set::empty()
    }
}

/// The member set after adding each of `members` in order.
pub open spec fn members_added(s: Set<Seq<u8>>, members: Seq<Seq<u8>>) -> Set<Seq<u8>>
    decreases members.len(),
{
    if members.len() == 0 {
        s
    } else {
        members_added(s.insert(members[0]), members.subrange(1, members.len() as int))
    }
}

/// How many of `members`, added in order, were not yet present.
pub open spec fn members_newly_added(s: Set<Seq<u8>>, members: Seq<Seq<u8>>) -> int
    decreases members.len(),
{
    if members.len() == 0 {
        0
    } else {
        (if s.contains(members[0]) {
            0int
        } else {
            1int
        }) + members_newly_added(s.insert(members[0]), members.subrange(1, members.len() as int))
    }
}

/// The store as three backing collections.  One store is built per process;
/// the surrounding program hands every connection access to the same one.
#[derive(Debug)]
pub struct Backend {
    strings: DashMap<Vec<u8>, RespFrame>,
    hashes: DashMap<Vec<u8>, DashMap<Vec<u8>, RespFrame>>,
    sets: DashMap<Vec<u8>, DashSet<Vec<u8>>>,
}

// The view is closed: the backing collections are opaque, so the store is
// reasoned about only through the contracts of its operations.


impl View for Backend {
    type V = StoreView;

    closed spec fn view(&self) -> StoreView {
        StoreView {
            strings: kv_contents(self.strings),
            hashes: hkv_contents(self.hashes),
            sets: sets_contents(self.sets),
        }
    }
}

impl Backend {
    /// A store with all three namespaces empty.
    pub fn new() -> (r: Backend)
        ensures
            r@.strings == Map::<Seq<u8>, FrameView>::empty(),
            r@.hashes == Map::<Seq<u8>, Map<Seq<u8>, FrameView>>::empty(),
            r@.sets == Map::<Seq<u8>, Set<Seq<u8>>>::empty(),
    {
        Backend { strings: new_kv(), hashes: new_hkv(), sets: new_sets() }
    }

    /// The current value under `key` in the string namespace, if any.
    pub fn get(&self, key: &Vec<u8>) -> (r: Option<RespFrame>)
        ensures
            r is Some <==> self@.strings.dom().contains(key@),
            r is Some ==> r->Some_0@ == self@.strings[key@],
    {
        kv_get(&self.strings, key)
    }

    /// Replace whatever was under `key` in the string namespace with `value`.
    pub fn set(&mut self, key: Vec<u8>, value: RespFrame)
        ensures
            final(self)@.strings == old(self)@.strings.insert(key@, value@),
            final(self)@.hashes == old(self)@.hashes,
            final(self)@.sets == old(self)@.sets,
    {
        kv_put(&mut self.strings, key, value);
    }

    /// The value of `field` in hash `key`, if both exist.
    pub fn hget(&self, key: &Vec<u8>, field: &Vec<u8>) -> (r: Option<RespFrame>)
        ensures
            r is Some <==> self@.hashes.dom().contains(key@)
                && self@.hashes[key@].dom().contains(field@),
            r is Some ==> r->Some_0@ == self@.hashes[key@][field@],
    {
        match hkv_snapshot(&self.hashes, key) {
            None => None,
            Some(mut pairs) => {
                let ghost inner = self@.hashes[key@];
                let n = pairs.len();
                let mut i: usize = 0;
                while i < n
                    invariant
                        i <= n,
                        n == pairs@.len(),
                        inner == self@.hashes[key@],
                        self@.hashes.dom().contains(key@),
                        forall|j: int|
                            0 <= j < pairs@.len() ==> inner.dom().contains(
                                #[trigger] pairs@[j].0@,
                            ) && inner[pairs@[j].0@] == pairs@[j].1@,
                        forall|f: Seq<u8>|
                            inner.dom().contains(f) ==> exists|j: int|
                                0 <= j < pairs@.len() && (#[trigger] pairs@[j].0@) == f,
                        forall|j: int| 0 <= j < i ==> (#[trigger] pairs@[j].0@) != field@,
                    decreases n - i,
                {
                    if pairs[i].0 == *field {
                        proof {
                            assert(pairs@[i as int].0@ =~= field@);
                        }
                        let (_, value) = pairs.remove(i);
                        return Some(value);
                    }
                    proof {
                        if pairs@[i as int].0@ == field@ {
                            assert(pairs@[i as int].0 == *field);
                        }
                    }
                    i = i + 1;
                }
                proof {
                    if inner.dom().contains(field@) {
                        let j = choose|j: int|
                            0 <= j < pairs@.len() && (#[trigger] pairs@[j].0@) == field@;
                        assert(false);
                    }
                }
                None
            },
        }
    }

    /// Create hash `key` if absent, then insert or replace `field`.
    pub fn hset(&mut self, key: Vec<u8>, field: Vec<u8>, value: RespFrame)
        ensures
            ({
                let before = old(self)@.hashes;
                let inner = if before.dom().contains(key@) {
                    before[key@]
                } else {
                    Map::<Seq<u8>, FrameView>::empty()
                };
                final(self)@.hashes == before.insert(key@, inner.insert(field@, value@))
            }),
            final(self)@.strings == old(self)@.strings,
            final(self)@.sets == old(self)@.sets,
    {
        hkv_put(&mut self.hashes, key, field, value);
    }

    /// A snapshot of hash `key` as field-value pairs (order unspecified), or
    /// nothing when the hash does not exist.
    pub fn hgetall(&self, key: &Vec<u8>) -> (r: Option<Vec<(Vec<u8>, RespFrame)>>)
        ensures
            r is Some <==> self@.hashes.dom().contains(key@),
            r is Some ==> ({
                let pairs = r->Some_0;
                let inner = self@.hashes[key@];
                &&& forall|i: int|
                    0 <= i < pairs@.len() ==> inner.dom().contains(#[trigger] pairs@[i].0@)
                        && inner[pairs@[i].0@] == pairs@[i].1@
                &&& forall|i: int, j: int|
                    0 <= i < j < pairs@.len() ==> (#[trigger] pairs@[i].0@) != (
                    #[trigger] pairs@[j].0@)
                &&& forall|f: Seq<u8>|
                    inner.dom().contains(f) ==> exists|i: int|
                        0 <= i < pairs@.len() && (#[trigger] pairs@[i].0@) == f
            }),
    {
        hkv_snapshot(&self.hashes, key)
    }

    /// Create set `key` if absent, add each member in order, and return how
    /// many were newly added (duplicates count zero).
    pub fn sadd(&mut self, key: Vec<u8>, members: Vec<Vec<u8>>) -> (r: i64)
        requires
            members@.len() <= i64::MAX,
        ensures
            final(self)@.sets == old(self)@.sets.insert(
                key@,
                members_added(set_at(old(self)@, key@), key_views(members@)),
            ),
            r == members_newly_added(set_at(old(self)@, key@), key_views(members@)),
            final(self)@.strings == old(self)@.strings,
            final(self)@.hashes == old(self)@.hashes,
    {
        let ghost base = set_at(old(self)@, key@);
        let ghost views = key_views(members@);
        let n = members.len();
        let mut cnt: i64 = 0;
        let mut i: usize = 0;
        proof {
            assert(views.skip(0) =~= views);
        }
        if n == 0 {
            // SADD observably creates its set even when no members follow
            set_touch(&mut self.sets, key);
            proof {
                assert(views =~= Seq::<Seq<u8>>::empty());
            }
            return cnt;
        }
        while i < n
            invariant
                0 < n,
                i <= n,
                n == members@.len(),
                n <= i64::MAX,
                views == key_views(members@),
                views.len() == n,
                0 <= cnt <= i,
                self@.strings == old(self)@.strings,
                self@.hashes == old(self)@.hashes,
                base == set_at(old(self)@, key@),
                if i == 0 {
                    self@.sets == old(self)@.sets
                } else {
                    self@.sets == old(self)@.sets.insert(key@, set_at(self@, key@))
                },
                members_added(base, views) == members_added(
                    if i == 0 {
                        base
                    } else {
                        set_at(self@, key@)
                    },
                    views.skip(i as int),
                ),
                members_newly_added(base, views) == cnt + members_newly_added(
                    if i == 0 {
                        base
                    } else {
                        set_at(self@, key@)
                    },
                    views.skip(i as int),
                ),
            decreases n - i,
    {
            let ghost cur = if i == 0 {
                base
            } else {
                set_at(self@, key@)
            };
            let member = clone_bytes(&members[i]);
            proof {
                assert(views.skip(i as int)[0] == views[i as int]);
                assert(views[i as int] == members@[i as int]@);
                assert(views.skip(i as int).subrange(1, views.skip(i as int).len() as int) =~= views.skip(
                    i as int + 1,
                ));
            }
            let key2 = clone_bytes(&key);
            let newly = set_put(&mut self.sets, key2, member);
            if newly {
                cnt = cnt + 1;
            }
            proof {
                assert(set_at(self@, key@) == cur.insert(views[i as int]));
                assert(self@.sets == old(self)@.sets.insert(key@, set_at(self@, key@)));
            }
            i = i + 1;
        }
        proof {
            assert(views.skip(n as int) =~= Seq::<Seq<u8>>::empty());
        }
        cnt
    }

    /// Whether set `key` exists and holds `member`.
    pub fn sismember(&self, key: &Vec<u8>, member: &Vec<u8>) -> (r: bool)
        ensures
            r == (self@.sets.dom().contains(key@) && self@.sets[key@].contains(member@)),
    {
        set_has(&self.sets, key, member)
    }

    /// Add every value to set `key`, creating it when absent; like `sadd`
    /// without the count.
    pub fn insert_set(&mut self, key: Vec<u8>, values: Vec<Vec<u8>>)
        requires
            values@.len() <= i64::MAX,
        ensures
            final(self)@.sets == old(self)@.sets.insert(
                key@,
                members_added(set_at(old(self)@, key@), key_views(values@)),
            ),
            final(self)@.strings == old(self)@.strings,
            final(self)@.hashes == old(self)@.hashes,
    {
        let _ = self.sadd(key, values);
    }
}

/// Law: adding one member twice reports it as new exactly once, and
/// membership holds from the first addition on.  Stated over the store view:
/// the first addition of an absent member counts one, the second counts zero
/// and leaves the store unchanged, and the member is present after each.
pub proof fn lemma_sadd_idempotent(v: StoreView, k: Seq<u8>, m: Seq<u8>)
    requires
        !set_at(v, k).contains(m),
    ensures
        ({
            let v1 = StoreView {
                strings: v.strings,
                hashes: v.hashes,
                sets: v.sets.insert(k, members_added(set_at(v, k), seq![m])),
            };
            let v2 = StoreView {
                strings: v1.strings,
                hashes: v1.hashes,
                sets: v1.sets.insert(k, members_added(set_at(v1, k), seq![m])),
            };
            &&& members_newly_added(set_at(v, k), seq![m]) == 1
            &&& members_newly_added(set_at(v1, k), seq![m]) == 0
            &&& set_at(v1, k).contains(m)
            &&& set_at(v2, k).contains(m)
            &&& v2 == v1
        }),
{
    reveal_with_fuel(members_added, 3);
    reveal_with_fuel(members_newly_added, 3);
    let s0 = set_at(v, k);
    assert(seq![m].subrange(1, 1) =~= Seq::<Seq<u8>>::empty());
    assert(members_added(s0, seq![m]) == s0.insert(m));
    assert(members_newly_added(s0, seq![m]) == 1);
    let v1 = StoreView {
        strings: v.strings,
        hashes: v.hashes,
        sets: v.sets.insert(k, members_added(s0, seq![m])),
    };
    let s1 = set_at(v1, k);
    assert(s1 == s0.insert(m));
    assert(s1.contains(m));
    assert(members_added(s1, seq![m]) == s1.insert(m));
    assert(s1.insert(m) =~= s1);
    assert(members_newly_added(s1, seq![m]) == 0);
    let v2 = StoreView {
        strings: v1.strings,
        hashes: v1.hashes,
        sets: v1.sets.insert(k, members_added(s1, seq![m])),
    };
    assert(v2.sets =~= v1.sets);
    assert(v2 == v1);
}

} // verus!
