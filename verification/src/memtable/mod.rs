//! The memtable: new entries in memory, sorted by internal key.

use crate::value::{
    bytes_eq, bytes_lt, clone_bytes, entry_views, is_prefix_of, key_le, key_lt, lemma_key_order,
    starts_with, EntryView, KeyView, Value, ValueType,
};
use crate::SeqNo;
use skip_list::{
    item_above, item_lt, skipmap_entries, skipmap_insert, skipmap_len, skipmap_lower_bound,
    skipmap_new, Item, ItemKey, SkipList,
};
use vstd::prelude::*;
use vstd::slice::slice_to_vec;

pub mod skip_list;

verus! {

/// The key under which the skip list holds an internal key: the user key,
/// the sequence number counted down from the highest, and the rank of the
/// value type. Its order is the order of internal keys.
pub open spec fn item_of(k: KeyView) -> Item {
    (k.user_key, (u64::MAX - k.seqno) as u64, k.value_type.rank())
}

/// The internal key that a key of the skip list stands for.
pub open spec fn key_of(item: Item) -> KeyView {
    KeyView {
        user_key: item.0,
        seqno: (u64::MAX - item.1) as u64,
        value_type: if item.2 == 0 {
            ValueType::Tombstone
        } else {
            ValueType::Value
        },
    }
}

/// The memtable serves as an intermediary storage for new items
pub struct MemTable {
    items: SkipList,
    /// Approximate active memtable size
    ///
    /// If this grows too large, a flush is triggered
    approximate_size: u32,
}

impl View for MemTable {
    type V = Map<KeyView, Seq<u8>>;

    /// The value of each internal key in the memtable.
    closed spec fn view(&self) -> Map<KeyView, Seq<u8>> {
        Map::new(
            |k: KeyView| skipmap_entries(self.items).dom().contains(item_of(k)),
            |k: KeyView| skipmap_entries(self.items)[item_of(k)],
        )
    }
}

impl MemTable {
    #[verifier::type_invariant]
    spec fn ranks_known(self) -> bool {
        &&& skipmap_entries(self.items).dom().finite()
        &&& forall|item: Item|
            skipmap_entries(self.items).dom().contains(item) ==> item.2 <= 1
    }

    /// The approximate size that the memtable has counted.
    pub closed spec fn spec_size(&self) -> u32 {
        self.approximate_size
    }

    /// Creates an empty memtable.
    pub fn new() -> (r: Self)
        ensures
            r@ == Map::<KeyView, Seq<u8>>::empty(),
            r.spec_size() == 0,
    {
        let r = MemTable { items: skipmap_new(), approximate_size: 0 };
        assert(r@ =~= Map::<KeyView, Seq<u8>>::empty());
        r
    }

    /// Get approximate size of memtable in bytes
    pub fn size(&self) -> (r: u32)
        ensures
            r == self.spec_size(),
    {
        self.approximate_size
    }

    /// Inserts an item into the memtable: its internal key has its value
    /// afterwards. Returns the size of the item and the new size of the
    /// memtable, both counted in 32 bits.
    pub fn insert(&mut self, item: Value) -> (r: (u32, u32))
        ensures
            final(self)@ == old(self)@.insert(item@.internal_key(), item@.value),
            r.0 == Value::spec_size(item@) % 0x1_0000_0000,
            r.1 == (old(self).spec_size() + r.0) % 0x1_0000_0000,
            final(self).spec_size() == r.1,
    {
        proof {
            use_type_invariant(&*self);
        }
        let item_size: u32 = item.size();
        let size_after: u64 = (self.approximate_size as u64 + item_size as u64) % 0x1_0000_0000;
        let rank: u8 = item.value_type.order_rank();
        let ghost k = item@.internal_key();
        let ghost before = skipmap_entries(self.items);
        skipmap_insert(&mut self.items, (item.key, u64::MAX - item.seqno, rank), item.value);
        self.approximate_size = size_after as u32;
        proof {
            let after = skipmap_entries(self.items);
            assert(after == before.insert(item_of(k), item@.value));
            assert forall|j: KeyView| j != k implies item_of(j) != item_of(k) by {
                lemma_item_of_injective(j, k);
            }
            assert(self@ =~= old(self)@.insert(k, item@.value));
        }
        (item_size, size_after as u32)
    }

    /// The keys of the skip list that a scan from `bound` on still meets.
    closed spec fn ahead(&self, bound: Item, inclusive: bool) -> Set<Item> {
        skipmap_entries(self.items).dom().filter(|t: Item| item_above(t, bound, inclusive))
    }

    /// The first entry at or behind `bound` (behind it, unless `inclusive`),
    /// and its value.
    fn next_entry(&self, bound: &ItemKey, inclusive: bool) -> (r: Option<(ItemKey, Vec<u8>)>)
        requires
            bound.2 <= 1,
        ensures
            match r {
                None => forall|k: KeyView|
                    self@.dom().contains(k) ==> !key_above(k, key_of(item_view(bound)), inclusive),
                Some((found, value)) => {
                    let key = key_of(item_view(&found));
                    &&& found.2 <= 1
                    &&& self@.dom().contains(key)
                    &&& self@[key] == value@
                    &&& key_above(key, key_of(item_view(bound)), inclusive)
                    &&& forall|k: KeyView|
                        self@.dom().contains(k) && key_above(
                            k,
                            key_of(item_view(bound)),
                            inclusive,
                        ) ==> key_le(key, k)
                    &&& self.ahead(item_view(&found), false).len() < self.ahead(
                        item_view(bound),
                        inclusive,
                    ).len()
                },
            },
    {
        proof {
            use_type_invariant(self);
        }
        let r = skipmap_lower_bound(&self.items, bound, inclusive);
        proof {
            let b = item_view(bound);
            let dom = skipmap_entries(self.items).dom();
            assert forall|k: KeyView| #[trigger] self@.dom().contains(k) implies (key_above(
                k,
                key_of(b),
                inclusive,
            ) <==> item_above(item_of(k), b, inclusive)) by {
                lemma_item_of_key(b);
                lemma_order_agrees(key_of(b), k);
            }
            match &r {
                None => {},
                Some((found, value)) => {
                    let f = item_view(found);
                    lemma_item_of_key(f);
                    lemma_order_agrees(key_of(b), key_of(f));
                    assert forall|k: KeyView|
                        self@.dom().contains(k) && key_above(
                            k,
                            key_of(b),
                            inclusive,
                        ) implies key_le(key_of(f), k) by {
                        lemma_order_agrees(key_of(f), k);
                        lemma_item_of_injective(key_of(f), k);
                    }
                    let small = self.ahead(f, false);
                    let big = self.ahead(b, inclusive);
                    assert(small.subset_of(big)) by {
                        assert forall|t: Item| small.contains(t) implies big.contains(t) by {
                            lemma_item_order(b, f, t);
                        }
                    }
                    lemma_item_order(f, f, f);
                    vstd::set_lib::lemma_len_subset(big, dom);
                    small.lemma_subset_not_in_lt(big, f);
                },
            }
        }
        r
    }

    /// Returns the item by key if it exists
    ///
    /// The item with the highest seqno will be returned, if `seqno` is None;
    /// else the one with the highest seqno below `seqno`.
    pub fn get(&self, key: &[u8], seqno: Option<SeqNo>) -> (r: Option<Value>)
        ensures
            match r {
                Some(v) => lookup(self@, key@, seqno) == Some(v@),
                None => lookup(self@, key@, seqno) is None,
            },
    {
        // The scan starts at the lowest internal key that the user key can
        // have: that of a tombstone with the highest sequence number.
        let mut bound: ItemKey = (slice_to_vec(key), 0, 0);
        let mut inclusive: bool = true;
        loop
            invariant
                bound.2 <= 1,
                bound.0@ == key@,
                forall|k: KeyView|
                    self@.dom().contains(k) && visible_at(k, key@, seqno) ==> key_above(
                        k,
                        key_of(item_view(&bound)),
                        inclusive,
                    ),
            decreases self.ahead(item_view(&bound), inclusive).len(),
        {
            match self.next_entry(&bound, inclusive) {
                None => {
                    proof {
                        lemma_lookup_none(self@, key@, seqno);
                    }
                    return None;
                },
                Some((found, value)) => {
                    let ghost f = key_of(item_view(&found));
                    let ghost b = key_of(item_view(&bound));
                    // NOTE: We are past the searched key, so we can immediately return None
                    if !bytes_eq(found.0.as_slice(), key) {
                        proof {
                            assert forall|k: KeyView|
                                self@.dom().contains(k) implies !visible_at(k, key@, seqno) by {
                                if visible_at(k, key@, seqno) {
                                    // the entry found lies behind the bound and
                                    // not behind `k`, so its user key would lie
                                    // both behind and before `key`
                                    assert(key_le(f, k));
                                    assert(bytes_lt(key@, f.user_key));
                                    crate::value::lemma_bytes_lt_asymmetric(key@, f.user_key);
                                }
                            }
                            lemma_lookup_none(self@, key@, seqno);
                        }
                        return None;
                    }
                    let entry_seqno: SeqNo = u64::MAX - found.1;
                    // Check for seqno if needed
                    let visible: bool = match seqno {
                        Some(s) => entry_seqno < s,
                        None => true,
                    };
                    if visible {
                        let value_type = if found.2 == 0 {
                            ValueType::Tombstone
                        } else {
                            ValueType::Value
                        };
                        let v = Value { key: found.0, value, seqno: entry_seqno, value_type };
                        proof {
                            assert(is_newest_visible(self@, key@, seqno, f));
                            lemma_lookup_some(self@, key@, seqno, f);
                        }
                        return Some(v);
                    }
                    proof {
                        assert forall|k: KeyView|
                            self@.dom().contains(k) && visible_at(
                                k,
                                key@,
                                seqno,
                            ) implies key_above(k, f, false) by {
                            assert(key_le(f, k));
                        }
                    }
                    bound = found;
                    inclusive = false;
                },
            }
        }
    }

    /// Creates a list of a prefixed set of items: all entries whose user key
    /// starts with `prefix`, in the order of their internal keys.
    pub fn prefix(&self, prefix: &[u8]) -> (r: Vec<Value>)
        ensures
            is_scan_of(entry_views(r@), self@, prefix@),
    {
        let mut out: Vec<Value> = Vec::new();
        let mut bound: ItemKey = (slice_to_vec(prefix), 0, 0);
        let mut inclusive: bool = true;
        proof {
            assert forall|k: KeyView| is_prefix_of(prefix@, k.user_key) implies key_above(
                k,
                key_of(item_view(&bound)),
                true,
            ) by {
                lemma_prefix_not_after(prefix@, k.user_key);
            }
        }
        loop
            invariant
                bound.2 <= 1,
                forall|i: int|
                    0 <= i < out@.len() ==> {
                        let e = (#[trigger] out@[i])@;
                        &&& self@.dom().contains(e.internal_key())
                        &&& self@[e.internal_key()] == e.value
                        &&& is_prefix_of(prefix@, e.key)
                        &&& !key_above(e.internal_key(), key_of(item_view(&bound)), inclusive)
                    },
                forall|i: int, j: int|
                    0 <= i < j < out@.len() ==> key_lt(
                        (#[trigger] out@[i])@.internal_key(),
                        (#[trigger] out@[j])@.internal_key(),
                    ),
                forall|k: KeyView|
                    self@.dom().contains(k) && is_prefix_of(prefix@, k.user_key) ==> key_above(
                        k,
                        key_of(item_view(&bound)),
                        inclusive,
                    ) || exists|i: int|
                        0 <= i < out@.len() && (#[trigger] out@[i])@.internal_key() == k,
            decreases self.ahead(item_view(&bound), inclusive).len(),
        {
            match self.next_entry(&bound, inclusive) {
                None => {
                    proof {
                        let views = entry_views(out@);
                        assert forall|k: KeyView|
                            self@.dom().contains(k) && is_prefix_of(
                                prefix@,
                                k.user_key,
                            ) implies exists|i: int|
                            0 <= i < views.len() && (#[trigger] views[i]).internal_key() == k by {
                            let i = choose|i: int|
                                0 <= i < out@.len() && (#[trigger] out@[i])@.internal_key() == k;
                            assert(views[i].internal_key() == k);
                        }
                    }
                    return out;
                },
                Some((found, value)) => {
                    let ghost f = key_of(item_view(&found));
                    let ghost b = key_of(item_view(&bound));
                    let ghost before = out@;
                    proof {
                        assert forall|i: int| 0 <= i < before.len() implies key_lt(
                            (#[trigger] before[i])@.internal_key(),
                            f,
                        ) && !key_above(before[i]@.internal_key(), f, false) by {
                            let e = before[i]@.internal_key();
                            lemma_key_order(e, b, f);
                            lemma_key_order(b, e, f);
                            lemma_key_order(e, f, e);
                        }
                    }
                    if starts_with(found.0.as_slice(), prefix) {
                        let value_type = if found.2 == 0 {
                            ValueType::Tombstone
                        } else {
                            ValueType::Value
                        };
                        let v = Value {
                            key: clone_bytes(&found.0),
                            value,
                            seqno: u64::MAX - found.1,
                            value_type,
                        };
                        out.push(v);
                        proof {
                            lemma_key_order(f, f, f);
                            assert(out@[before.len() as int]@.internal_key() == f);
                            assert forall|i: int| 0 <= i < before.len() implies out@[i]
                                == before[i] by {}
                        }
                    }
                    proof {
                        assert forall|k: KeyView|
                            self@.dom().contains(k) && is_prefix_of(
                                prefix@,
                                k.user_key,
                            ) implies key_above(k, f, false) || exists|i: int|
                            0 <= i < out@.len() && (#[trigger] out@[i])@.internal_key() == k by {
                            if key_above(k, b, inclusive) {
                                assert(key_le(f, k));
                                if k == f {
                                    assert(out@[before.len() as int]@.internal_key() == k);
                                }
                            } else {
                                let i = choose|i: int|
                                    0 <= i < before.len() && (#[trigger] before[i])@.internal_key()
                                        == k;
                                assert(out@[i]@.internal_key() == k);
                            }
                        }
                    }
                    bound = found;
                    inclusive = false;
                },
            }
        }
    }

    /// All entries, in the order of their internal keys.
    pub fn iter(&self) -> (r: Vec<Value>)
        ensures
            is_scan_of(entry_views(r@), self@, Seq::<u8>::empty()),
    {
        let all: Vec<u8> = Vec::new();
        let r = self.prefix(all.as_slice());
        assert(all@ =~= Seq::<u8>::empty());
        r
    }

    /// Count the amount of items in the memtable
    pub fn len(&self) -> (n: usize)
        ensures
            self@.dom().finite(),
            n == self@.dom().len(),
    {
        proof {
            use_type_invariant(self);
            self.lemma_same_count();
        }
        skipmap_len(&self.items)
    }

    /// Returns `true` if the memtable is empty
    #[must_use]
    pub fn is_empty(&self) -> (r: bool)
        ensures
            r <==> self@.dom() == Set::<KeyView>::empty(),
    {
        let n: usize = self.len();
        proof {
            if n == 0 {
                self@.dom().lemma_len0_is_empty();
                assert(self@.dom() =~= Set::<KeyView>::empty());
            }
        }
        n == 0
    }

    /// The memtable has as many internal keys as the skip list has keys.
    proof fn lemma_same_count(&self)
        requires
            self.ranks_known(),
        ensures
            self@.dom().finite(),
            self@.dom().len() == skipmap_entries(self.items).dom().len(),
    {
        let items = skipmap_entries(self.items).dom();
        let f = |t: Item| key_of(t);
        assert forall|a: Item, b: Item|
            items.contains(a) && items.contains(b) && #[trigger] f(a) == #[trigger] f(
                b,
            ) implies a == b by {
            lemma_item_of_key(a);
            lemma_item_of_key(b);
        }
        assert(items.map(f) =~= self@.dom()) by {
            assert forall|k: KeyView| self@.dom().contains(k) implies items.map(f).contains(
                k,
            ) by {
                assert(items.contains(item_of(k)) && f(item_of(k)) == k);
            }
            assert forall|k: KeyView| items.map(f).contains(k) implies self@.dom().contains(
                k,
            ) by {
                let t = choose|t: Item| items.contains(t) && k == f(t);
                lemma_item_of_key(t);
            }
        }
        vstd::set_lib::lemma_map_size(items, self@.dom(), f);
    }

    /// Returns the highest sequence number in the memtable
    pub fn get_lsn(&self) -> (r: Option<SeqNo>)
        ensures
            match r {
                None => self@.dom() == Set::<KeyView>::empty(),
                Some(lsn) => (exists|k: KeyView| self@.dom().contains(k) && k.seqno == lsn)
                    && forall|k: KeyView| self@.dom().contains(k) ==> k.seqno <= lsn,
            },
    {
        let mut best: Option<SeqNo> = None;
        let mut bound: ItemKey = (Vec::new(), 0, 0);
        let mut inclusive: bool = true;
        let ghost mut witness: KeyView = key_of(item_view(&bound));
        proof {
            assert forall|k: KeyView| key_above(k, key_of(item_view(&bound)), true) by {
                assert(k.user_key.take(0) =~= Seq::<u8>::empty());
                lemma_prefix_not_after(Seq::<u8>::empty(), k.user_key);
                assert(bound.0@ =~= Seq::<u8>::empty());
            }
        }
        loop
            invariant
                bound.2 <= 1,
                forall|k: KeyView|
                    self@.dom().contains(k) && !key_above(k, key_of(item_view(&bound)), inclusive)
                        ==> best is Some && k.seqno <= best->Some_0,
                best is Some ==> self@.dom().contains(witness) && witness.seqno == best->Some_0,
            decreases self.ahead(item_view(&bound), inclusive).len(),
        {
            match self.next_entry(&bound, inclusive) {
                None => {
                    proof {
                        if best is None {
                            assert(self@.dom() =~= Set::<KeyView>::empty());
                        }
                    }
                    return best;
                },
                Some((found, _value)) => {
                    let ghost f = key_of(item_view(&found));
                    let ghost b = key_of(item_view(&bound));
                    let seqno: SeqNo = u64::MAX - found.1;
                    let higher: bool = match best {
                        Some(lsn) => seqno > lsn,
                        None => true,
                    };
                    proof {
                        assert forall|k: KeyView|
                            self@.dom().contains(k) && !key_above(k, f, false) && key_above(
                                k,
                                b,
                                inclusive,
                            ) implies k == f by {
                            assert(key_le(f, k));
                            lemma_key_order(f, k, f);
                        }
                    }
                    if higher {
                        best = Some(seqno);
                        proof {
                            witness = f;
                        }
                    }
                    bound = found;
                    inclusive = false;
                },
            }
        }
    }
}

/// A key of the skip list as a mathematical value.
pub open spec fn item_view(k: &ItemKey) -> Item {
    (k.0@, k.1, k.2)
}

/// Whether a key lies in the part of the order that a bound opens.
pub open spec fn key_above(k: KeyView, bound: KeyView, inclusive: bool) -> bool {
    key_lt(bound, k) || (inclusive && k == bound)
}

/// Whether a read of `key` sees the internal key `k`: the user key is the
/// same, and with a snapshot the sequence number lies below it.
pub open spec fn visible_at(k: KeyView, key: Seq<u8>, seqno: Option<SeqNo>) -> bool {
    k.user_key == key && match seqno {
        Some(s) => k.seqno < s,
        None => true,
    }
}

/// Whether `k` is the first key in the order that a read of `key` sees.
pub open spec fn is_newest_visible(
    m: Map<KeyView, Seq<u8>>,
    key: Seq<u8>,
    seqno: Option<SeqNo>,
    k: KeyView,
) -> bool {
    &&& m.dom().contains(k)
    &&& visible_at(k, key, seqno)
    &&& forall|j: KeyView| m.dom().contains(j) && visible_at(j, key, seqno) ==> key_le(k, j)
}

/// The entry of a key with its value.
pub open spec fn entry_of(k: KeyView, value: Seq<u8>) -> EntryView {
    EntryView { key: k.user_key, value, seqno: k.seqno, value_type: k.value_type }
}

/// What a read of `key` finds among the entries `m`: the first entry of the
/// key in the order, which is its newest version, among those that the
/// snapshot sees.
pub open spec fn lookup(m: Map<KeyView, Seq<u8>>, key: Seq<u8>, seqno: Option<SeqNo>) -> Option<
    EntryView,
> {
    if exists|k: KeyView| is_newest_visible(m, key, seqno, k) {
        let k = choose|k: KeyView| is_newest_visible(m, key, seqno, k);
        Some(entry_of(k, m[k]))
    } else {
        None
    }
}

/// A read finds nothing where it sees no entry.
pub proof fn lemma_lookup_none(m: Map<KeyView, Seq<u8>>, key: Seq<u8>, seqno: Option<SeqNo>)
    requires
        forall|k: KeyView| m.dom().contains(k) ==> !visible_at(k, key, seqno),
    ensures
        lookup(m, key, seqno) is None,
{
}

/// A read finds the first entry that it sees, and there is only one first.
pub proof fn lemma_lookup_some(
    m: Map<KeyView, Seq<u8>>,
    key: Seq<u8>,
    seqno: Option<SeqNo>,
    k: KeyView,
)
    requires
        is_newest_visible(m, key, seqno, k),
    ensures
        lookup(m, key, seqno) == Some(entry_of(k, m[k])),
{
    let c = choose|c: KeyView| is_newest_visible(m, key, seqno, c);
    assert(key_le(k, c) && key_le(c, k));
    lemma_key_order(k, c, k);
}

/// Whether `out` lists the entries of `m` whose user key starts with
/// `prefix`: each of them once, with its value, in the strictly ascending
/// order of internal keys, and nothing else.
pub open spec fn is_scan_of(out: Seq<EntryView>, m: Map<KeyView, Seq<u8>>, prefix: Seq<u8>) -> bool {
    &&& forall|i: int|
        0 <= i < out.len() ==> {
            let e = #[trigger] out[i];
            &&& m.dom().contains(e.internal_key())
            &&& m[e.internal_key()] == e.value
            &&& is_prefix_of(prefix, e.key)
        }
    &&& forall|i: int, j: int|
        0 <= i < j < out.len() ==> key_lt(
            (#[trigger] out[i]).internal_key(),
            (#[trigger] out[j]).internal_key(),
        )
    &&& forall|k: KeyView|
        m.dom().contains(k) && is_prefix_of(prefix, k.user_key) ==> exists|i: int|
            0 <= i < out.len() && (#[trigger] out[i]).internal_key() == k
}

/// A byte string does not come after the strings that it is a prefix of.
pub proof fn lemma_prefix_not_after(p: Seq<u8>, s: Seq<u8>)
    requires
        is_prefix_of(p, s),
    ensures
        p == s || bytes_lt(p, s),
    decreases p.len(),
{
    if p.len() == 0 {
        if s.len() == 0 {
            assert(p =~= s);
        }
    } else {
        assert(s.take(p.len() as int)[0] == p[0]);
        assert(s.skip(1).take(p.len() - 1) =~= s.take(p.len() as int).skip(1));
        lemma_prefix_not_after(p.skip(1), s.skip(1));
        if p.skip(1) == s.skip(1) {
            assert(p =~= seq![p[0]] + p.skip(1));
            assert(s =~= seq![s[0]] + s.skip(1));
        }
    }
}

/// A finite set of internal keys that is not empty has a first key.
pub proof fn lemma_first_key_exists(s: Set<KeyView>)
    requires
        s.finite(),
        s.len() > 0,
    ensures
        exists|k: KeyView| s.contains(k) && forall|j: KeyView| s.contains(j) ==> key_le(k, j),
    decreases s.len(),
{
    let x = s.choose();
    let rest = s.remove(x);
    if rest.len() == 0 {
        rest.lemma_len0_is_empty();
        assert forall|j: KeyView| s.contains(j) implies key_le(x, j) by {
            if j != x {
                assert(rest.contains(j));
            }
        }
    } else {
        lemma_first_key_exists(rest);
        let m = choose|k: KeyView|
            rest.contains(k) && forall|j: KeyView| rest.contains(j) ==> key_le(k, j);
        if key_le(x, m) {
            assert forall|j: KeyView| s.contains(j) implies key_le(x, j) by {
                if j != x {
                    assert(rest.contains(j));
                    lemma_key_order(x, m, j);
                }
            }
        } else {
            lemma_key_order(x, m, x);
            assert forall|j: KeyView| s.contains(j) implies key_le(m, j) by {
                if j != x {
                    assert(rest.contains(j));
                }
            }
        }
    }
}

/// A read that sees an entry of its key finds one.
pub proof fn lemma_lookup_finds(
    m: Map<KeyView, Seq<u8>>,
    key: Seq<u8>,
    seqno: Option<SeqNo>,
    k: KeyView,
)
    requires
        m.dom().finite(),
        m.dom().contains(k),
        visible_at(k, key, seqno),
    ensures
        lookup(m, key, seqno) matches Some(e) && m.dom().contains(e.internal_key())
            && e.value == m[e.internal_key()] && is_newest_visible(
            m,
            key,
            seqno,
            e.internal_key(),
        ),
{
    let seen = m.dom().filter(|j: KeyView| visible_at(j, key, seqno));
    assert(seen.contains(k));
    vstd::set_lib::lemma_len_subset(seen, m.dom());
    if seen.len() == 0 {
        seen.lemma_len0_is_empty();
    }
    lemma_first_key_exists(seen);
    let first = choose|f: KeyView|
        seen.contains(f) && forall|j: KeyView| seen.contains(j) ==> key_le(f, j);
    assert forall|j: KeyView| m.dom().contains(j) && visible_at(j, key, seqno) implies key_le(
        first,
        j,
    ) by {
        assert(seen.contains(j));
    }
    assert(is_newest_visible(m, key, seqno, first));
    lemma_lookup_some(m, key, seqno, first);
}

/// What a reader is given for what a read found: nothing where it found
/// nothing or a tombstone, else the value.
pub open spec fn read_result(found: Option<EntryView>) -> Option<Seq<u8>> {
    match found {
        Some(e) => if e.value_type == ValueType::Tombstone {
            None
        } else {
            Some(e.value)
        },
        None => None,
    }
}

/// A read at a later snapshot finds what a read at an earlier one found, or
/// a newer write, one that the earlier snapshot did not see.
pub proof fn lemma_mvcc_monotonic(m: Map<KeyView, Seq<u8>>, key: Seq<u8>, s1: SeqNo, s2: SeqNo)
    requires
        m.dom().finite(),
        s1 < s2,
    ensures
        ({
            let earlier = lookup(m, key, Some(s1));
            let later = lookup(m, key, Some(s2));
            later == earlier || (later matches Some(e) && s1 <= e.seqno < s2 && (
            earlier matches Some(d) ==> d.seqno < e.seqno))
        }),
{
    let earlier = lookup(m, key, Some(s1));
    let later = lookup(m, key, Some(s2));
    if exists|k: KeyView| m.dom().contains(k) && visible_at(k, key, Some(s2)) {
        let k = choose|k: KeyView| m.dom().contains(k) && visible_at(k, key, Some(s2));
        lemma_lookup_finds(m, key, Some(s2), k);
        let e = later->Some_0.internal_key();
        if e.seqno < s1 {
            // what the later read finds, the earlier one sees and finds too
            assert(is_newest_visible(m, key, Some(s1), e));
            lemma_lookup_some(m, key, Some(s1), e);
        } else if exists|j: KeyView| m.dom().contains(j) && visible_at(j, key, Some(s1)) {
            let j = choose|j: KeyView| m.dom().contains(j) && visible_at(j, key, Some(s1));
            lemma_lookup_finds(m, key, Some(s1), j);
        } else {
            lemma_lookup_none(m, key, Some(s1));
        }
    } else {
        lemma_lookup_none(m, key, Some(s2));
        lemma_lookup_none(m, key, Some(s1));
    }
}

/// After a value was written at `s1` and a tombstone at a later `s2`, a
/// read at a snapshot above `s2` is given nothing, and a read at a snapshot
/// above `s1` and not above `s2` is given the value. The memtable holds
/// no other write of the key that the snapshot would see in their place.
pub proof fn lemma_tombstone_visibility(
    m: Map<KeyView, Seq<u8>>,
    key: Seq<u8>,
    value: Seq<u8>,
    s1: SeqNo,
    s2: SeqNo,
    s: SeqNo,
)
    requires
        m.dom().finite(),
        s1 < s2,
        s1 < s,
        s > s2 ==> forall|j: KeyView|
            m.dom().contains(j) && j.user_key == key && s2 < j.seqno < s ==> j.value_type
                == ValueType::Tombstone,
        s <= s2 ==> forall|j: KeyView|
            m.dom().contains(j) && j.user_key == key && j.seqno < s ==> j.seqno < s1 || (j.seqno
                == s1 && j.value_type == ValueType::Value),
    ensures
        ({
            let written = m.insert(
                KeyView { user_key: key, seqno: s1, value_type: ValueType::Value },
                value,
            ).insert(
                KeyView { user_key: key, seqno: s2, value_type: ValueType::Tombstone },
                Seq::empty(),
            );
            &&& s > s2 ==> read_result(lookup(written, key, Some(s))) is None
            &&& s <= s2 ==> lookup(written, key, Some(s)) == Some(
                EntryView { key, value, seqno: s1, value_type: ValueType::Value },
            )
        }),
{
    let put = KeyView { user_key: key, seqno: s1, value_type: ValueType::Value };
    let del = KeyView { user_key: key, seqno: s2, value_type: ValueType::Tombstone };
    let written = m.insert(put, value).insert(del, Seq::empty());
    if s > s2 {
        lemma_lookup_finds(written, key, Some(s), del);
        let found = lookup(written, key, Some(s))->Some_0.internal_key();
        assert(key_le(found, del));
        if found != del {
            crate::value::lemma_bytes_lt_irreflexive(key);
            assert(found.seqno > s2);
            assert(m.dom().contains(found));
        }
    } else {
        assert(put != del);
        assert(written[put] == value);
        assert(is_newest_visible(written, key, Some(s), put));
        lemma_lookup_some(written, key, Some(s), put);
    }
}

/// The skip list's order of its keys is a strict total order.
pub proof fn lemma_item_order(a: Item, b: Item, c: Item)
    ensures
        !item_lt(a, a),
        !(item_lt(a, b) && item_lt(b, a)),
        item_lt(a, b) && item_lt(b, c) ==> item_lt(a, c),
        a == b || item_lt(a, b) || item_lt(b, a),
{
    crate::value::lemma_bytes_lt_irreflexive(a.0);
    crate::value::lemma_bytes_lt_irreflexive(b.0);
    crate::value::lemma_bytes_lt_asymmetric(a.0, b.0);
    crate::value::lemma_bytes_lt_connected(a.0, b.0);
    if bytes_lt(a.0, b.0) && bytes_lt(b.0, c.0) {
        crate::value::lemma_bytes_lt_transitive(a.0, b.0, c.0);
    }
}

/// Internal keys are ordered as their keys in the skip list are.
pub proof fn lemma_order_agrees(a: KeyView, b: KeyView)
    ensures
        key_lt(a, b) <==> item_lt(item_of(a), item_of(b)),
{
}

/// A key of the skip list with a known rank stands for one internal key.
pub proof fn lemma_item_of_key(item: Item)
    requires
        item.2 <= 1,
    ensures
        item_of(key_of(item)) == item,
{
}

/// Different internal keys stand under different keys in the skip list.
pub proof fn lemma_item_of_injective(a: KeyView, b: KeyView)
    ensures
        item_of(a) == item_of(b) ==> a == b,
{
}

impl Default for MemTable {
    fn default() -> (r: Self)
        ensures
            r@ == Map::<KeyView, Seq<u8>>::empty(),
            r.spec_size() == 0,
    {
        MemTable::new()
    }
}

} // verus!
