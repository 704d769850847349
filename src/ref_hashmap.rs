use vstd::prelude::*;
use core::cmp::Ordering;
use crate::order::{lex_lt, compare_bytes, lemma_lex_transitive, lemma_lex_trichotomy};
use crate::station::{Station, Summary, combine, MAX_COUNT};

verus! {

/// The map that a sequence of entries denotes; a later entry wins.
pub open spec fn map_of(e: Seq<(Seq<u8>, Summary)>) -> Map<Seq<u8>, Summary>
    decreases e.len(),
{
    if e.len() == 0 {
        Map::empty()
    } else {
        map_of(e.drop_last()).insert(e.last().0, e.last().1)
    }
}

/// Entries whose keys ascend strictly.
pub open spec fn keys_ascending(e: Seq<(Seq<u8>, Summary)>) -> bool {
    forall|i: int, j: int| 0 <= i < j < e.len() ==> lex_lt(#[trigger] e[i].0, #[trigger] e[j].0)
}

/// With ascending keys, each entry is in the map, and nothing else is.
pub proof fn lemma_map_of(e: Seq<(Seq<u8>, Summary)>)
    requires
        keys_ascending(e),
    ensures
        forall|i: int| 0 <= i < e.len() ==> #[trigger] map_of(e).contains_key(e[i].0)
            && map_of(e)[e[i].0] == e[i].1,
        forall|k: Seq<u8>| #[trigger] map_of(e).contains_key(k) ==> exists|i: int|
            0 <= i < e.len() && e[i].0 == k,
    decreases e.len(),
{
    if e.len() > 0 {
        let init = e.drop_last();
        let last = e.last();
        assert(keys_ascending(init));
        lemma_map_of(init);
        assert(map_of(e) == map_of(init).insert(last.0, last.1));
        assert forall|i: int| 0 <= i < e.len() implies #[trigger] map_of(e).contains_key(e[i].0)
            && map_of(e)[e[i].0] == e[i].1 by {
            if i < e.len() - 1 {
                assert(init[i] == e[i]);
                assert(lex_lt(e[i].0, e[e.len() - 1].0));
                lemma_lex_trichotomy(e[i].0, last.0);
                assert(map_of(init).contains_key(init[i].0));
            }
        }
        assert forall|k: Seq<u8>| #[trigger] map_of(e).contains_key(k) implies exists|i: int|
            0 <= i < e.len() && e[i].0 == k by {
            if k != last.0 {
                assert(map_of(init).contains_key(k));
                let i = choose|i: int| 0 <= i < init.len() && init[i].0 == k;
                assert(e[i] == init[i]);
            } else {
                assert(e[e.len() - 1].0 == k);
            }
        }
    }
}

/// A map that agrees with the entries on each of their keys and holds no
/// other key is the map they denote.
pub proof fn lemma_map_of_is(e: Seq<(Seq<u8>, Summary)>, m: Map<Seq<u8>, Summary>)
    requires
        keys_ascending(e),
        forall|i: int| 0 <= i < e.len() ==> #[trigger] m.contains_key(e[i].0) && m[e[i].0] == e[i].1,
        forall|k: Seq<u8>| #[trigger] m.contains_key(k) ==> exists|i: int| 0 <= i < e.len() && e[i].0 == k,
    ensures
        map_of(e) == m,
{
    lemma_map_of(e);
    assert forall|k: Seq<u8>| #[trigger] map_of(e).contains_key(k) == m.contains_key(k) by {
        if m.contains_key(k) {
            let i = choose|i: int| 0 <= i < e.len() && e[i].0 == k;
        }
        if map_of(e).contains_key(k) {
            let i = choose|i: int| 0 <= i < e.len() && e[i].0 == k;
        }
    }
    assert forall|k: Seq<u8>| #[trigger] m.contains_key(k) implies map_of(e)[k] == m[k] by {
        let i = choose|i: int| 0 <= i < e.len() && e[i].0 == k;
        assert(map_of(e).contains_key(e[i].0));
    }
    assert(map_of(e) =~= m);
}

/// A station name as the table sees it: borrowed from a block during a
/// lookup, or owned once it is stored.
pub enum RefKey<'a> {
    Borrowed(&'a [u8]),
    Owned(Vec<u8>),
}

impl<'a> View for RefKey<'a> {
    type V = Seq<u8>;

    open spec fn view(&self) -> Seq<u8> {
        match self {
            RefKey::Borrowed(s) => s@,
            RefKey::Owned(v) => v@,
        }
    }
}

impl<'a> RefKey<'a> {
    /// An owned key.
    pub fn new(val: Vec<u8>) -> (r: RefKey<'a>)
        ensures
            r@ == val@,
            r is Owned,
    {
        RefKey::Owned(val)
    }

    /// A key that borrows its bytes.
    pub fn borrowed(val: &'a [u8]) -> (r: RefKey<'a>)
        ensures
            r@ == val@,
            r is Borrowed,
    {
        RefKey::Borrowed(val)
    }

    /// The bytes of the key, as a slice.
    pub fn as_slice(&self) -> (r: &[u8])
        ensures
            r@ == self@,
    {
        match self {
            RefKey::Borrowed(s) => s,
            RefKey::Owned(v) => v.as_slice(),
        }
    }

    /// The owned bytes of the key; a borrowed key is copied here, once.
    pub fn inner(self) -> (r: Vec<u8>)
        ensures
            r@ == self@,
    {
        match self {
            RefKey::Borrowed(s) => vstd::slice::slice_to_vec(s),
            RefKey::Owned(v) => v,
        }
    }
}

/// Per-station table keyed by station name. A lookup takes a borrowed name
/// and never allocates; the name is copied once, when it is first inserted.
/// Entries are kept in ascending byte order of their names.
pub struct RefHashMap {
    keys: Vec<Vec<u8>>,
    values: Vec<Station>,
}

impl RefHashMap {
    /// The entries, in ascending order of names.
    pub closed spec fn entries(&self) -> Seq<(Seq<u8>, Summary)> {
        Seq::new(self.keys@.len(), |i: int| (self.keys@[i]@, self.values@[i]@))
    }

    /// The stored accumulator at a position.
    pub closed spec fn station_at(&self, i: int) -> Station {
        self.values@[i]
    }

    pub closed spec fn wf(&self) -> bool {
        &&& self.keys@.len() == self.values@.len()
        &&& keys_ascending(self.entries())
        &&& forall|i: int| 0 <= i < self.values@.len() ==> (#[trigger] self.values@[i]).wf()
    }

    /// Every stored accumulator has room for `n` more observations.
    pub open spec fn has_room(&self, n: int) -> bool {
        forall|k: Seq<u8>| #[trigger] self@.contains_key(k) ==> self@[k].count + n <= MAX_COUNT
    }

    /// An empty table with room for `capacity` names.
    pub fn with_capacity(capacity: usize) -> (r: RefHashMap)
        ensures
            r.wf(),
            r@ == Map::<Seq<u8>, Summary>::empty(),
    {
        let r = RefHashMap { keys: Vec::with_capacity(capacity), values: Vec::with_capacity(capacity) };
        assert(r.entries() =~= Seq::<(Seq<u8>, Summary)>::empty());
        r
    }

    /// The number of stations.
    pub fn len(&self) -> (r: usize)
        requires
            self.wf(),
        ensures
            r == self.entries().len(),
            r == self@.len(),
    {
        proof {
            self.lemma_view();
        }
        self.keys.len()
    }

    /// Facts about the view of a well-formed table.
    pub proof fn lemma_view(&self)
        requires
            self.wf(),
        ensures
            self@ == map_of(self.entries()),
            keys_ascending(self.entries()),
            self@.dom().finite(),
            self@.len() == self.entries().len(),
            forall|i: int| 0 <= i < self.entries().len() ==> #[trigger] self@.contains_key(self.entries()[i].0)
                && self@[self.entries()[i].0] == self.entries()[i].1
                && self.entries()[i].1 == self.station_at(i)@
                && self.station_at(i).wf(),
            forall|k: Seq<u8>| #[trigger] self@.contains_key(k) ==> exists|i: int|
                0 <= i < self.entries().len() && self.entries()[i].0 == k,
    {
        let e = self.entries();
        lemma_map_of(e);
        lemma_map_of_len(e);
        assert forall|i: int| 0 <= i < e.len() implies #[trigger] self@.contains_key(e[i].0)
            && self@[e[i].0] == e[i].1 && e[i].1 == self.station_at(i)@ && self.station_at(i).wf() by {
            assert(map_of(e).contains_key(e[i].0));
            assert(self.values@[i].wf());
        }
    }

    /// Looks a name up without copying it.
    pub fn entry_ref<'k>(&self, key: &'k [u8]) -> (r: Entry<'k>)
        requires
            self.wf(),
        ensures
            r.key() == key@,
            r.occupied() == self@.contains_key(key@),
            r.points_into(self),
    {
        proof {
            self.lemma_view();
        }
        let ghost e = self.entries();
        let mut lo: usize = 0;
        let mut hi: usize = self.keys.len();
        while lo < hi
            invariant
                self.wf(),
                e == self.entries(),
                lo <= hi <= e.len(),
                forall|j: int| 0 <= j < lo ==> lex_lt(#[trigger] e[j].0, key@),
                forall|j: int| hi <= j < e.len() ==> lex_lt(key@, #[trigger] e[j].0),
            decreases hi - lo,
        {
            let mid: usize = lo + (hi - lo) / 2;
            assert(e[mid as int].0 == self.keys@[mid as int]@);
            match compare_bytes(self.keys[mid].as_slice(), key) {
                Ordering::Less => {
                    assert forall|j: int| 0 <= j < mid + 1 implies lex_lt(#[trigger] e[j].0, key@) by {
                        if j < mid {
                            lemma_lex_transitive(e[j].0, e[mid as int].0, key@);
                        }
                    }
                    lo = mid + 1;
                },
                Ordering::Greater => {
                    assert forall|j: int| mid <= j < e.len() implies lex_lt(key@, #[trigger] e[j].0) by {
                        if j > mid {
                            lemma_lex_transitive(key@, e[mid as int].0, e[j].0);
                        }
                    }
                    hi = mid;
                },
                Ordering::Equal => {
                    proof {
                        self.lemma_view();
                    }
                    assert(self@.contains_key(e[mid as int].0));
                    return Entry { key: RefKey::borrowed(key), index: mid, occupied: true };
                },
            }
        }
        assert forall|j: int| 0 <= j < e.len() implies e[j].0 != key@ by {
            lemma_lex_trichotomy(e[j].0, key@);
        }
        Entry { key: RefKey::borrowed(key), index: lo, occupied: false }
    }

    /// Consumes the table into its entries, in ascending order of names.
    pub fn drain(self) -> (r: Vec<(Vec<u8>, Station)>)
        requires
            self.wf(),
        ensures
            r@.len() == self.entries().len(),
            forall|i: int| 0 <= i < r@.len() ==> ((#[trigger] r@[i]).0@, r@[i].1@) == self.entries()[i]
                && r@[i].1.wf(),
    {
        let ghost e = self.entries();
        let n: usize = self.len();
        let mut it = self.into_iter();
        let mut out: Vec<(Vec<u8>, Station)> = Vec::new();
        while out.len() < n
            invariant
                n == e.len(),
                it.wf(),
                out@.len() <= n,
                it.remaining() == e.subrange(out@.len() as int, e.len() as int),
                forall|i: int| 0 <= i < out@.len() ==> ((#[trigger] out@[i]).0@, out@[i].1@) == e[i]
                    && out@[i].1.wf(),
            decreases n - out@.len(),
        {
            let x = it.next().unwrap();
            out.push(x);
            assert(e.subrange(out@.len() - 1, e.len() as int)[0] == e[out@.len() - 1]);
            assert(e.subrange(out@.len() - 1, e.len() as int).drop_first() == e.subrange(out@.len() as int, e.len() as int));
        }
        out
    }

    /// Consumes the table, handing out its entries in ascending order of
    /// names.
    pub fn into_iter(self) -> (r: IntoIter)
        requires
            self.wf(),
        ensures
            r.wf(),
            r.remaining() == self.entries(),
    {
        let mut keys = self.keys;
        let mut values = self.values;
        let ghost e = self.entries();
        let mut rkeys: Vec<Vec<u8>> = Vec::new();
        let mut rvalues: Vec<Station> = Vec::new();
        while keys.len() > 0
            invariant
                keys@.len() == values@.len(),
                rkeys@.len() == rvalues@.len(),
                keys@.len() + rkeys@.len() == e.len(),
                forall|i: int| 0 <= i < keys@.len() ==> e[i] == (keys@[i]@, values@[i]@) && values@[i].wf(),
                forall|i: int| 0 <= i < rkeys@.len() ==>
                    e[e.len() - 1 - i] == (rkeys@[i]@, rvalues@[i]@) && rvalues@[i].wf(),
            decreases keys@.len(),
        {
            let k = keys.pop().unwrap();
            let v = values.pop().unwrap();
            rkeys.push(k);
            rvalues.push(v);
        }
        IntoIter { rkeys, rvalues }
    }
}

pub proof fn lemma_map_of_len(e: Seq<(Seq<u8>, Summary)>)
    requires
        keys_ascending(e),
    ensures
        map_of(e).dom().finite(),
        map_of(e).len() == e.len(),
    decreases e.len(),
{
    if e.len() > 0 {
        let init = e.drop_last();
        assert(keys_ascending(init));
        lemma_map_of_len(init);
        lemma_map_of(init);
        if map_of(init).contains_key(e.last().0) {
            let i = choose|i: int| 0 <= i < init.len() && init[i].0 == e.last().0;
            assert(lex_lt(e[i].0, e.last().0));
            lemma_lex_trichotomy(e[i].0, e.last().0);
        }
    }
}

impl View for RefHashMap {
    type V = Map<Seq<u8>, Summary>;

    closed spec fn view(&self) -> Map<Seq<u8>, Summary> {
        map_of(self.entries())
    }
}

/// The result of a lookup: the name looked up, and where its entry is or
/// would go.
pub struct Entry<'k> {
    key: RefKey<'k>,
    index: usize,
    occupied: bool,
}

impl<'k> Entry<'k> {
    pub closed spec fn key(&self) -> Seq<u8> {
        self.key@
    }

    pub closed spec fn occupied(&self) -> bool {
        self.occupied
    }

    /// The entry describes `map`: an occupied one gives the position of the
    /// name, a vacant one the position where the name sorts in.
    pub closed spec fn points_into(&self, map: &RefHashMap) -> bool {
        let e = map.entries();
        &&& self.index <= e.len()
        &&& self.occupied ==> self.index < e.len() && e[self.index as int].0 == self.key@
        &&& !self.occupied ==> (forall|j: int| 0 <= j < self.index ==> lex_lt(#[trigger] e[j].0, self.key@))
            && (forall|j: int| self.index <= j < e.len() ==> lex_lt(self.key@, #[trigger] e[j].0))
    }

    /// Merges `other` into the accumulator stored under the name, if there
    /// is one; otherwise leaves the table as it is.
    pub fn and_modify(self, map: &mut RefHashMap, other: &Station) -> (r: Entry<'k>)
        requires
            old(map).wf(),
            self.points_into(old(map)),
            other.wf(),
            self.occupied() ==> old(map)@[self.key()].count + other@.count <= MAX_COUNT,
        ensures
            final(map).wf(),
            r.key() == self.key(),
            r.occupied() == self.occupied(),
            r.points_into(final(map)),
            self.occupied() ==> final(map)@ == old(map)@.insert(self.key(), combine(old(map)@[self.key()], other@)),
            !self.occupied() ==> final(map)@ == old(map)@,
    {
        proof {
            old(map).lemma_view();
        }
        if self.occupied {
            let ghost e = map.entries();
            let ghost m = map@;
            assert(map@.contains_key(e[self.index as int].0));
            assert(map.station_at(self.index as int)@ == m[self.key@]);
            let mut s = map.values[self.index];
            s.update(other);
            map.values.set(self.index, s);
            proof {
                assert(map.entries() =~= e.update(self.index as int, (self.key@, s@)));
                assert(keys_ascending(map.entries()));
                assert forall|i: int| 0 <= i < map.values@.len() implies (#[trigger] map.values@[i]).wf() by {
                    if i != self.index {
                        assert(map.values@[i] == old(map).station_at(i));
                    }
                }
                let e2 = map.entries();
                let m2 = m.insert(self.key@, s@);
                assert forall|i: int| 0 <= i < e2.len() implies #[trigger] m2.contains_key(e2[i].0) && m2[e2[i].0] == e2[i].1 by {
                    if i != self.index {
                        lemma_lex_trichotomy(e2[i].0, self.key@);
                        assert(e2[i] == e[i]);
                    }
                }
                assert forall|k: Seq<u8>| #[trigger] m2.contains_key(k) implies exists|i: int| 0 <= i < e2.len() && e2[i].0 == k by {
                    if k != self.key@ {
                        let i = choose|i: int| 0 <= i < e.len() && e[i].0 == k;
                        assert(e2[i].0 == k);
                    } else {
                        assert(e2[self.index as int].0 == k);
                    }
                }
                lemma_map_of_is(e2, m2);
            }
        }
        self
    }

    /// Stores `default` under the name, copying the name, if it has no
    /// entry; otherwise leaves the table as it is.
    pub fn or_insert_with(self, map: &mut RefHashMap, default: Station)
        requires
            old(map).wf(),
            self.points_into(old(map)),
            default.wf(),
        ensures
            final(map).wf(),
            !self.occupied() ==> final(map)@ == old(map)@.insert(self.key(), default@),
            self.occupied() ==> final(map)@ == old(map)@,
    {
        proof {
            old(map).lemma_view();
        }
        if !self.occupied {
            let index = self.index;
            let ghost kv = self.key@;
            let ghost e = map.entries();
            let ghost m = map@;
            let owned = self.key.inner();
            map.keys.insert(index, owned);
            map.values.insert(index, default);
            proof {
                let e2 = map.entries();
                assert(e2 =~= e.insert(index as int, (kv, default@)));
                assert forall|i: int, j: int| 0 <= i < j < e2.len() implies lex_lt(#[trigger] e2[i].0, #[trigger] e2[j].0) by {
                    if j < index {
                    } else if i > index {
                        assert(e2[i] == e[i - 1]);
                        assert(e2[j] == e[j - 1]);
                    } else if i == index {
                        assert(e2[j] == e[j - 1]);
                    } else if j == index {
                    } else {
                        assert(e2[j] == e[j - 1]);
                    }
                }
                assert forall|i: int| 0 <= i < map.values@.len() implies (#[trigger] map.values@[i]).wf() by {
                    if i < index {
                        assert(map.values@[i] == old(map).station_at(i));
                    } else if i > index {
                        assert(map.values@[i] == old(map).station_at(i - 1));
                    }
                }
                let m2 = m.insert(kv, default@);
                assert forall|i: int| 0 <= i < e2.len() implies #[trigger] m2.contains_key(e2[i].0) && m2[e2[i].0] == e2[i].1 by {
                    if i < index {
                        lemma_lex_trichotomy(e2[i].0, kv);
                    } else if i > index {
                        assert(e2[i] == e[i - 1]);
                        lemma_lex_trichotomy(e2[i].0, kv);
                    }
                }
                assert forall|k: Seq<u8>| #[trigger] m2.contains_key(k) implies exists|i: int| 0 <= i < e2.len() && e2[i].0 == k by {
                    if k != kv {
                        let i = choose|i: int| 0 <= i < e.len() && e[i].0 == k;
                        if i < index {
                            assert(e2[i].0 == k);
                        } else {
                            assert(e2[i + 1].0 == k);
                        }
                    } else {
                        assert(e2[index as int].0 == k);
                    }
                }
                lemma_map_of_is(e2, m2);
            }
        }
    }
}

/// The entries of a consumed table, handed out in ascending order of names.
pub struct IntoIter {
    rkeys: Vec<Vec<u8>>,
    rvalues: Vec<Station>,
}

impl IntoIter {
    /// What is left to hand out, in order.
    pub closed spec fn remaining(&self) -> Seq<(Seq<u8>, Summary)> {
        Seq::new(self.rkeys@.len(), |i: int| {
            let j = self.rkeys@.len() - 1 - i;
            (self.rkeys@[j]@, self.rvalues@[j]@)
        })
    }

    pub closed spec fn wf(&self) -> bool {
        &&& self.rkeys@.len() == self.rvalues@.len()
        &&& forall|i: int| 0 <= i < self.rvalues@.len() ==> (#[trigger] self.rvalues@[i]).wf()
    }

    /// The next entry, or `None` when all are handed out.
    pub fn next(&mut self) -> (r: Option<(Vec<u8>, Station)>)
        requires
            old(self).wf(),
        ensures
            final(self).wf(),
            old(self).remaining().len() == 0 ==> r.is_none() && final(self).remaining() == old(self).remaining(),
            old(self).remaining().len() > 0 ==> r.is_some() && (r.unwrap().0@, r.unwrap().1@) == old(self).remaining()[0]
                && r.unwrap().1.wf()
                && final(self).remaining() == old(self).remaining().drop_first(),
    {
        match self.rkeys.pop() {
            Some(k) => {
                let v = self.rvalues.pop().unwrap();
                assert(self.remaining() =~= old(self).remaining().drop_first());
                Some((k, v))
            },
            None => {
                assert(self.remaining() =~= old(self).remaining());
                None
            },
        }
    }
}

} // verus!
