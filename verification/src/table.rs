//! The aggregation table: for each key seen, its statistics.
//!
//! The rows are kept in the order in which their keys first came. A key is
//! found through a hash index: every row is chained to the rows before it
//! whose keys fall into the same slot, and each slot knows the last row of
//! its chain.

use vstd::prelude::*;
use vstd::slice::slice_to_vec;
use crate::bytes::bytes_eq;
use crate::model::{
    absorb_spec, append_new, counts_fit, distinct_keys, keys_of, lemma_listing_map,
    lemma_merge_absorb, lemma_merge_empty, listing_map, merge_order, merge_spec, record_spec,
    rows_in_order, table_wf, Row, TableView,
};
use crate::stats::{CountOverflow, Stats, StatsView};

verus! {

/// The number of slots of the hash index.
const SLOTS: usize = 4096;

/// The modulus of the hash.
const HASH_MODULUS: usize = 1000003;

/// The hash of a key: its bytes read as a number in base 31, modulo
/// `HASH_MODULUS`.
spec fn hash_spec(key: Seq<u8>) -> int
    decreases key.len(),
{
    if key.len() == 0 {
        0
    } else {
        (hash_spec(key.drop_last()) * 31 + key.last()) % 1000003
    }
}

/// The slot of a key.
spec fn slot_spec(key: Seq<u8>) -> int {
    hash_spec(key) % 4096
}

/// How far a chain link is from the end of its chain at most.
spec fn link_rank(cur: Option<usize>) -> int {
    match cur {
        None => 0,
        Some(c) => c + 1,
    }
}

/// Whether row `i` is on the chain that starts at the row `cur`.
spec fn on_chain(next: Seq<Option<usize>>, cur: Option<usize>, i: int) -> bool
    decreases link_rank(cur),
{
    match cur {
        None => false,
        Some(c) => if c >= next.len() {
            false
        } else if c == i {
            true
        } else {
            match next[c as int] {
                Some(d) => d < c && on_chain(next, Some(d), i),
                None => false,
            }
        },
    }
}

/// The index leads to every row: each slot's chain holds only rows of that
/// slot and runs towards earlier rows, and every row is on the chain of its
/// slot.
spec fn index_wf(
    keys: Seq<Vec<u8>>,
    heads: Seq<Option<usize>>,
    next: Seq<Option<usize>>,
) -> bool {
    &&& heads.len() == SLOTS
    &&& next.len() == keys.len()
    &&& forall|b: int|
        0 <= b < heads.len() ==> ((#[trigger] heads[b]) matches Some(h) ==> h < keys.len()
            && slot_spec(keys[h as int]@) == b)
    &&& forall|i: int|
        0 <= i < next.len() ==> ((#[trigger] next[i]) matches Some(j) ==> j < i && slot_spec(
            keys[j as int]@,
        ) == slot_spec(keys[i]@))
    &&& forall|i: int|
        0 <= i < keys.len() ==> on_chain(next, heads[slot_spec((#[trigger] keys[i])@)], i)
}

proof fn lemma_hash_bounds(key: Seq<u8>)
    ensures
        0 <= hash_spec(key) < 1000003,
        0 <= slot_spec(key) < 4096,
    decreases key.len(),
{
    if key.len() > 0 {
        lemma_hash_bounds(key.drop_last());
    }
}

proof fn lemma_on_chain_push(
    next: Seq<Option<usize>>,
    last: Option<usize>,
    cur: Option<usize>,
    i: int,
)
    requires
        cur matches Some(c) ==> c < next.len(),
    ensures
        on_chain(next.push(last), cur, i) == on_chain(next, cur, i),
    decreases link_rank(cur),
{
    if let Some(c) = cur {
        if c != i {
            assert(next.push(last)[c as int] == next[c as int]);
            if let Some(d) = next[c as int] {
                if d < c {
                    lemma_on_chain_push(next, last, Some(d), i);
                }
            }
        }
    }
}

/// The slot of a key.
fn slot_of(key: &[u8]) -> (slot: usize)
    ensures
        slot == slot_spec(key@),
        slot < SLOTS,
{
    let n: usize = key.len();
    let mut h: usize = 0;
    let mut i: usize = 0;
    proof {
        assert(key@.take(0) =~= Seq::<u8>::empty());
    }
    while i < n
        invariant
            i <= n,
            n == key@.len(),
            h == hash_spec(key@.take(i as int)),
            h < HASH_MODULUS,
        decreases n - i,
    {
        proof {
            assert(key@.take(i + 1).drop_last() =~= key@.take(i as int));
            assert(key@.take(i + 1).last() == key@[i as int]);
        }
        h = (h * 31 + key[i] as usize) % HASH_MODULUS;
        i += 1;
    }
    proof {
        assert(key@.take(n as int) =~= key@);
    }
    h % SLOTS
}

/// A table from keys to statistics. It lists its keys in the order in which
/// they first came.
pub struct Table {
    keys: Vec<Vec<u8>>,
    stats: Vec<Stats>,
    heads: Vec<Option<usize>>,
    next: Vec<Option<usize>>,
}

impl View for Table {
    type V = TableView;

    closed spec fn view(&self) -> TableView {
        listing_map(self.listing())
    }
}

impl Table {
    /// The rows of the table in the order in which it hands them out.
    pub closed spec fn listing(&self) -> Seq<Row> {
        Seq::new(self.keys@.len(), |i: int| (self.keys@[i]@, self.stats@[i]@))
    }

    /// The keys in the order in which they first came.
    pub closed spec fn order(&self) -> Seq<Seq<u8>> {
        keys_of(self.listing())
    }

    /// No key is listed twice, and every row has well-formed statistics.
    pub closed spec fn wf(&self) -> bool {
        &&& self.keys@.len() == self.stats@.len()
        &&& index_wf(self.keys@, self.heads@, self.next@)
        &&& distinct_keys(self.listing())
        &&& forall|i: int| 0 <= i < self.stats@.len() ==> (#[trigger] self.stats@[i]).wf()
    }

    /// A well-formed table is the map of its listing, which names each key
    /// once, in the table's order, with the statistics that the table has
    /// for it; its statistics are well formed and its counts fit a `u64`.
    pub proof fn lemma_listing(&self)
        requires
            self.wf(),
        ensures
            self@ == listing_map(self.listing()),
            distinct_keys(self.listing()),
            forall|i: int| 0 <= i < self.listing().len() ==> (#[trigger] self.listing()[i]).1.wf(),
            table_wf(self@),
            counts_fit(self@),
            self.order() == keys_of(self.listing()),
            self.order().no_duplicates(),
            self.listing() == rows_in_order(self.order(), self@),
    {
        let rows = self.listing();
        lemma_listing_map(rows);
        assert forall|i: int, j: int|
            0 <= i < self.order().len() && 0 <= j < self.order().len() && i != j implies self.order()[i]
            != self.order()[j] by {
            if i < j {
                assert(rows[i].0 != rows[j].0);
            } else {
                assert(rows[j].0 != rows[i].0);
            }
        }
        assert(rows =~= rows_in_order(self.order(), self@));
        assert forall|k: Seq<u8>| self@.dom().contains(k) implies (#[trigger] self@[k]).wf()
            && self@[k].count <= u64::MAX by {
            let i = choose|i: int| 0 <= i < rows.len() && (#[trigger] rows[i]).0 == k;
            assert(self@[k] == rows[i].1);
            assert(rows[i].1 == self.stats@[i]@);
            assert(self.stats@[i].wf());
            self.stats@[i].lemma_count_fits();
        }
    }

    /// An empty table.
    pub fn new() -> (t: Table)
        ensures
            t.wf(),
            t@ == Map::<Seq<u8>, StatsView>::empty(),
            t.listing().len() == 0,
            t.order() == Seq::<Seq<u8>>::empty(),
    {
        let mut heads: Vec<Option<usize>> = Vec::new();
        let mut b: usize = 0;
        while b < SLOTS
            invariant
                b <= SLOTS,
                heads@.len() == b,
                forall|j: int| 0 <= j < b ==> heads@[j] is None,
            decreases SLOTS - b,
        {
            heads.push(None);
            b += 1;
        }
        let t = Table { keys: Vec::new(), stats: Vec::new(), heads, next: Vec::new() };
        proof {
            assert(t.order() =~= Seq::<Seq<u8>>::empty());
        }
        t
    }

    /// The number of keys.
    pub fn len(&self) -> (n: usize)
        requires
            self.wf(),
        ensures
            n == self.listing().len(),
            n == self@.dom().len(),
    {
        proof {
            self.lemma_len();
        }
        self.keys.len()
    }

    /// Whether the table holds no key.
    pub fn is_empty(&self) -> (empty: bool)
        requires
            self.wf(),
        ensures
            empty == (self@.dom().len() == 0),
    {
        self.len() == 0
    }

    /// The key of the row at `i` of the listing.
    pub fn key_at(&self, i: usize) -> (key: &[u8])
        requires
            self.wf(),
            i < self.listing().len(),
        ensures
            key@ == self.listing()[i as int].0,
    {
        self.keys[i].as_slice()
    }

    /// The statistics of the row at `i` of the listing.
    pub fn stats_at(&self, i: usize) -> (stats: Stats)
        requires
            self.wf(),
            i < self.listing().len(),
        ensures
            stats@ == self.listing()[i as int].1,
            stats.wf(),
    {
        self.stats[i]
    }

    /// The index of the row of `key`, if it has one.
    fn find(&self, key: &[u8]) -> (at: Option<usize>)
        requires
            self.wf(),
        ensures
            at matches Some(i) ==> i < self.listing().len() && self.listing()[i as int].0 == key@,
            at is None ==> forall|i: int|
                0 <= i < self.listing().len() ==> (#[trigger] self.listing()[i]).0 != key@,
    {
        let slot: usize = slot_of(key);
        let mut cur: Option<usize> = self.heads[slot];
        while cur.is_some()
            invariant
                self.wf(),
                cur matches Some(c) ==> c < self.keys@.len(),
                forall|i: int|
                    0 <= i < self.keys@.len() && (#[trigger] self.keys@[i])@ == key@ ==> on_chain(
                        self.next@,
                        cur,
                        i,
                    ),
            decreases link_rank(cur),
        {
            let at: usize = cur.unwrap();
            if bytes_eq(self.keys[at].as_slice(), key) {
                return Some(at);
            }
            cur = self.next[at];
        }
        proof {
            assert forall|i: int| 0 <= i < self.listing().len() implies (#[trigger] self.listing()[i]).0
                != key@ by {
                if self.listing()[i].0 == key@ {
                    assert(self.keys@[i]@ == key@);
                    assert(on_chain(self.next@, cur, i));
                }
            }
        }
        None
    }

    /// The statistics of `key`, if it was seen.
    pub fn get(&self, key: &[u8]) -> (found: Option<Stats>)
        requires
            self.wf(),
        ensures
            found is Some <==> self@.dom().contains(key@),
            found matches Some(s) ==> s.wf() && s@ == self@[key@],
    {
        proof {
            lemma_listing_map(self.listing());
        }
        match self.find(key) {
            Some(i) => Some(self.stats[i]),
            None => None,
        }
    }

    /// Takes in statistics for `key`: combines them with those the key has,
    /// or enters them. Fails, and changes nothing, where the key's count
    /// would exceed `u64::MAX`.
    pub fn absorb(&mut self, key: &[u8], stats: Stats) -> (r: Result<(), CountOverflow>)
        requires
            old(self).wf(),
            stats.wf(),
        ensures
            final(self).wf(),
            r is Err <==> old(self)@.dom().contains(key@) && old(self)@[key@].count + stats@.count
                > u64::MAX,
            r is Ok ==> final(self)@ == absorb_spec(old(self)@, key@, stats@),
            r is Ok ==> final(self).order() == append_new(old(self).order(), key@),
            r is Err ==> final(self)@ == old(self)@ && final(self).listing() == old(self).listing(),
    {
        let ghost before = self.listing();
        proof {
            lemma_listing_map(before);
        }
        match self.find(key) {
            Some(i) => {
                let mut s: Stats = self.stats[i];
                match s.combine(&stats) {
                    Err(e) => Err(e),
                    Ok(()) => {
                        self.stats.set(i, s);
                        proof {
                            let after = self.listing();
                            assert(after =~= before.update(i as int, (key@, s@)));
                            assert(keys_of(after) =~= keys_of(before));
                            assert(keys_of(before)[i as int] == key@);
                            lemma_listing_map(after);
                            assert(self@ =~= absorb_spec(old(self)@, key@, stats@)) by {
                                let m = absorb_spec(old(self)@, key@, stats@);
                                assert forall|k: Seq<u8>| m.dom().contains(k) implies exists|j: int|
                                    0 <= j < after.len() && (#[trigger] after[j]).0 == k by {
                                    if k == key@ {
                                        assert(after[i as int].0 == k);
                                    } else {
                                        let j = choose|j: int|
                                            0 <= j < before.len() && (#[trigger] before[j]).0 == k;
                                        assert(after[j].0 == k);
                                    }
                                }
                                assert forall|j: int| 0 <= j < after.len() implies m.dom().contains(
                                    (#[trigger] after[j]).0,
                                ) && m[after[j].0] == after[j].1 by {
                                    if j != i {
                                        assert(after[j] == before[j]);
                                        assert(before[j].0 != before[i as int].0);
                                    }
                                }
                                lemma_rows_same_map(
                                    after,
                                    absorb_spec(old(self)@, key@, stats@),
                                );
                            }
                        }
                        Ok(())
                    },
                }
            },
            None => {
                let slot: usize = slot_of(key);
                let ghost n = self.keys@.len() as int;
                let ghost old_next = self.next@;
                let ghost old_heads = self.heads@;
                let ghost old_keys = self.keys@;
                self.next.push(self.heads[slot]);
                self.heads.set(slot, Some(self.keys.len()));
                self.keys.push(slice_to_vec(key));
                self.stats.push(stats);
                proof {
                    let after = self.listing();
                    assert(after =~= before.push((key@, stats@)));
                    assert(after.drop_last() =~= before);
                    assert(keys_of(after) =~= keys_of(before).push(key@));
                    assert(!keys_of(before).contains(key@)) by {
                        if keys_of(before).contains(key@) {
                            let j = choose|j: int|
                                0 <= j < keys_of(before).len() && keys_of(before)[j] == key@;
                            assert(before[j].0 == key@);
                        }
                    }
                    assert forall|i: int| 0 <= i < self.keys@.len() implies on_chain(
                        self.next@,
                        self.heads@[slot_spec((#[trigger] self.keys@[i])@)],
                        i,
                    ) by {
                        lemma_hash_bounds(self.keys@[i]@);
                        if i < n {
                            assert(self.keys@[i] == old_keys[i]);
                            let b = slot_spec(old_keys[i]@);
                            assert(on_chain(old_next, old_heads[b], i));
                            lemma_on_chain_push(old_next, old_heads[slot as int], old_heads[b], i);
                        }
                    }
                    assert forall|b: int| 0 <= b < self.heads@.len() implies ((
                    #[trigger] self.heads@[b]) matches Some(h) ==> h < self.keys@.len()
                        && slot_spec(self.keys@[h as int]@) == b) by {
                        if b != slot {
                            assert(self.heads@[b] == old_heads[b]);
                            if let Some(h) = old_heads[b] {
                                assert(self.keys@[h as int] == old_keys[h as int]);
                            }
                        }
                    }
                    assert forall|i: int| 0 <= i < self.next@.len() implies ((
                    #[trigger] self.next@[i]) matches Some(j) ==> j < i && slot_spec(
                        self.keys@[j as int]@,
                    ) == slot_spec(self.keys@[i]@)) by {
                        if i < n {
                            assert(self.next@[i] == old_next[i]);
                            assert(self.keys@[i] == old_keys[i]);
                            if let Some(j) = old_next[i] {
                                assert(self.keys@[j as int] == old_keys[j as int]);
                            }
                        } else {
                            if let Some(h) = old_heads[slot as int] {
                                assert(self.keys@[h as int] == old_keys[h as int]);
                            }
                        }
                    }
                }
                Ok(())
            },
        }
    }

    /// Takes in one more measurement of `key`. Fails, and changes nothing,
    /// where the key's count would exceed `u64::MAX`.
    pub fn record(&mut self, key: &[u8], value: i64) -> (r: Result<(), CountOverflow>)
        requires
            old(self).wf(),
        ensures
            final(self).wf(),
            r is Err <==> old(self)@.dom().contains(key@) && old(self)@[key@].count + 1
                > u64::MAX,
            r is Ok ==> final(self)@ == record_spec(old(self)@, key@, value as int),
            r is Ok ==> final(self).order() == append_new(old(self).order(), key@),
            r is Err ==> final(self)@ == old(self)@ && final(self).listing() == old(self).listing(),
    {
        self.absorb(key, Stats::single(value))
    }

    /// Merges `other` into this table. Fails where the count of some key
    /// would exceed `u64::MAX`.
    pub fn merge(self, other: &Table) -> (r: Result<Table, CountOverflow>)
        requires
            self.wf(),
            other.wf(),
        ensures
            r is Ok <==> counts_fit(merge_spec(self@, other@)),
            r matches Ok(t) ==> t.wf() && t@ == merge_spec(self@, other@) && t.order()
                == merge_order(self.order(), other.order()),
    {
        let ghost rows = other.listing();
        let mut acc: Table = self;
        let n: usize = other.len();
        let mut i: usize = 0;
        proof {
            other.lemma_listing();
            assert(rows.take(0) =~= Seq::<Row>::empty());
            assert(keys_of(rows.take(0)) =~= Seq::<Seq<u8>>::empty());
            lemma_merge_empty(self@);
        }
        while i < n
            invariant
                i <= n,
                n == rows.len(),
                rows == other.listing(),
                other.wf(),
                acc.wf(),
                distinct_keys(rows),
                other@ == listing_map(rows),
                acc@ == merge_spec(self@, listing_map(rows.take(i as int))),
                acc.order() == merge_order(self.order(), keys_of(rows.take(i as int))),
            decreases n - i,
        {
            let ghost prefix = rows.take(i as int);
            let ghost k = rows[i as int].0;
            let ghost s = rows[i as int].1;
            proof {
                assert(distinct_keys(prefix));
                lemma_listing_map(prefix);
                lemma_listing_map(rows);
                assert(!listing_map(prefix).dom().contains(k)) by {
                    if listing_map(prefix).dom().contains(k) {
                        let j = choose|j: int| 0 <= j < prefix.len() && (#[trigger] prefix[j]).0 == k;
                        assert(prefix[j] == rows[j]);
                    }
                }
                assert(rows.take(i + 1).drop_last() =~= prefix);
                assert(rows.take(i + 1).last() == rows[i as int]);
                assert(keys_of(rows.take(i + 1)).drop_last() =~= keys_of(prefix));
                assert(keys_of(rows.take(i + 1)).last() == k);
                lemma_merge_absorb(self@, listing_map(prefix), k, s);
            }
            match acc.absorb(other.key_at(i), other.stats_at(i)) {
                Err(e) => {
                    proof {
                        assert(merge_spec(self@, other@).dom().contains(k));
                        assert(merge_spec(self@, other@)[k].count > u64::MAX);
                    }
                    return Err(e);
                },
                Ok(()) => {},
            }
            i += 1;
        }
        proof {
            assert(rows.take(n as int) =~= rows);
            acc.lemma_listing();
        }
        Ok(acc)
    }

    proof fn lemma_len(&self)
        requires
            self.wf(),
        ensures
            self@.dom().finite(),
            self@.dom().len() == self.listing().len(),
    {
        lemma_listing_len(self.listing());
    }
}

proof fn lemma_listing_len(rows: Seq<Row>)
    requires
        distinct_keys(rows),
    ensures
        listing_map(rows).dom().finite(),
        listing_map(rows).dom().len() == rows.len(),
    decreases rows.len(),
{
    if rows.len() > 0 {
        let before = rows.drop_last();
        lemma_listing_len(before);
        lemma_listing_map(before);
        assert(!listing_map(before).dom().contains(rows.last().0)) by {
            if listing_map(before).dom().contains(rows.last().0) {
                let j = choose|j: int|
                    0 <= j < before.len() && (#[trigger] before[j]).0 == rows.last().0;
                assert(before[j] == rows[j]);
                assert(rows[rows.len() - 1] == rows.last());
            }
        }
    }
}

/// A listing without repeated keys stands for the map that holds exactly
/// its rows.
proof fn lemma_rows_same_map(rows: Seq<Row>, m: TableView)
    requires
        distinct_keys(rows),
        forall|i: int| 0 <= i < rows.len() ==> m.dom().contains((#[trigger] rows[i]).0) && m[rows[i].0] == rows[i].1,
        forall|k: Seq<u8>| m.dom().contains(k) ==> exists|i: int| 0 <= i < rows.len() && (#[trigger] rows[i]).0 == k,
    ensures
        listing_map(rows) == m,
{
    lemma_listing_map(rows);
    assert(listing_map(rows) =~= m);
}

} // verus!
