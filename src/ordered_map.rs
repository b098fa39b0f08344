use vstd::prelude::*;

use indexmap::IndexMap;

use crate::containers::{
    chain, items_well_formed, lemma_chain_step, lemma_parse_items_ok, lemma_wire_items_push,
    parse_items, parse_seq, wire_items,
};
use crate::cursor::{SaveCursor, lemma_rest_after};
use crate::error::SaveError;
use crate::save_data::{SaveData, le_u32, read_u32, u32_le_bytes, write_u32};

verus! {

#[verifier::external_type_specification]
#[verifier::external_body]
#[verifier::reject_recursive_types(K)]
#[verifier::reject_recursive_types(V)]
#[verifier::reject_recursive_types(S)]
pub struct ExIndexMap<K, V, S>(IndexMap<K, V, S>);

/// The keys of an index map, in the order in which they were first inserted.
pub uninterp spec fn index_map_keys(m: IndexMap<i32, ()>) -> Seq<i32>;

/// Relies on `IndexMap::new`: a map with no keys.
#[verifier::external_body]
fn new_key_map() -> (r: IndexMap<i32, ()>)
    ensures
        index_map_keys(r) == Seq::<i32>::empty(),
{
    IndexMap::new()
}

/// Relies on `IndexMap::insert_full`: a key already present keeps its place
/// and its index is returned; a new key goes to the end, at index `len`.
/// Keys stay unique.
#[verifier::external_body]
fn insert_key(m: &mut IndexMap<i32, ()>, k: i32) -> (r: usize)
    requires
        index_map_keys(*old(m)).no_duplicates(),
    ensures
        index_map_keys(*final(m)).no_duplicates(),
        index_map_keys(*old(m)).contains(k) ==> index_map_keys(*final(m)) == index_map_keys(*old(m))
            && r < index_map_keys(*old(m)).len() && index_map_keys(*old(m))[r as int] == k,
        !index_map_keys(*old(m)).contains(k) ==> index_map_keys(*final(m)) == index_map_keys(
            *old(m),
        ).push(k) && r == index_map_keys(*old(m)).len(),
{
    m.insert_full(k, ()).0
}

/// Relies on `IndexMap::get_index`: the key at position `i`.
#[verifier::external_body]
fn key_at(m: &IndexMap<i32, ()>, i: usize) -> (r: i32)
    requires
        i < index_map_keys(*m).len(),
    ensures
        r == index_map_keys(*m)[i as int],
{
    *m.get_index(i).unwrap().0
}

/// Whether some entry of `m` has the key `k`.
pub open spec fn has_key<M>(m: Seq<(i32, M)>, k: i32) -> bool {
    exists|j: int| 0 <= j < m.len() && #[trigger] m[j].0 == k
}

/// The position of the entry with the key `k`.
pub open spec fn key_index<M>(m: Seq<(i32, M)>, k: i32) -> int {
    choose|j: int| 0 <= j < m.len() && #[trigger] m[j].0 == k
}

/// No two entries share a key.
pub open spec fn keys_unique<M>(m: Seq<(i32, M)>) -> bool {
    forall|i: int, j: int| 0 <= i < j < m.len() ==> #[trigger] m[i].0 != #[trigger] m[j].0
}

/// Inserting into an ordered map: a present key gets the new value in its
/// place; a new key goes to the end.
pub open spec fn map_insert<M>(m: Seq<(i32, M)>, k: i32, v: M) -> Seq<(i32, M)> {
    if has_key(m, k) {
        m.update(key_index(m, k), (k, v))
    } else {
        m.push((k, v))
    }
}

/// The map built by inserting `pairs` in order.
pub open spec fn insert_all<M>(pairs: Seq<(i32, M)>) -> Seq<(i32, M)>
    decreases pairs.len(),
{
    if pairs.len() == 0 {
        Seq::empty()
    } else {
        map_insert(insert_all(pairs.drop_last()), pairs.last().0, pairs.last().1)
    }
}

/// The decoder of an ordered map: a sequence of key/value pairs, inserted in order.
pub open spec fn parse_map<V: SaveData>(b: Seq<u8>) -> Result<(Seq<(i32, V::Model)>, nat), SaveError> {
    match parse_seq::<(i32, V)>(b) {
        Ok((pairs, n)) => Ok((insert_all(pairs), n)),
        Err(e) => Err(e),
    }
}

pub proof fn lemma_map_insert<M>(m: Seq<(i32, M)>, k: i32, v: M)
    requires
        keys_unique(m),
    ensures
        keys_unique(map_insert(m, k, v)),
        has_key(m, k) ==> map_insert(m, k, v).len() == m.len(),
        !has_key(m, k) ==> map_insert(m, k, v).len() == m.len() + 1,
        forall|j: int| 0 <= j < m.len() ==> (#[trigger] map_insert(m, k, v)[j]).0 == m[j].0,
{
    if has_key(m, k) {
        let j = key_index(m, k);
        assert(0 <= j < m.len() && m[j].0 == k);
    }
}

/// Inserting pairs whose keys are already unique changes nothing.
pub proof fn lemma_insert_all_unique<M>(m: Seq<(i32, M)>)
    requires
        keys_unique(m),
    ensures
        insert_all(m) == m,
    decreases m.len(),
{
    if m.len() > 0 {
        let front = m.drop_last();
        assert(keys_unique(front));
        lemma_insert_all_unique(front);
        assert(!has_key(front, m.last().0)) by {
            if has_key(front, m.last().0) {
                let j = choose|j: int| 0 <= j < front.len() && #[trigger] front[j].0 == m.last().0;
                assert(m[j].0 == m[m.len() - 1].0);
            }
        }
        assert(front.push(m.last()) =~= m);
    }
}

pub proof fn lemma_insert_all_ok<M>(pairs: Seq<(i32, M)>)
    ensures
        keys_unique(insert_all(pairs)),
        insert_all(pairs).len() <= pairs.len(),
        forall|j: int|
            0 <= j < insert_all(pairs).len() ==> exists|i: int|
                0 <= i < pairs.len() && #[trigger] insert_all(pairs)[j] == #[trigger] pairs[i],
    decreases pairs.len(),
{
    if pairs.len() > 0 {
        let front = pairs.drop_last();
        let p = pairs.last();
        lemma_insert_all_ok(front);
        let m = insert_all(front);
        lemma_map_insert(m, p.0, p.1);
        let r = insert_all(pairs);
        assert forall|j: int| 0 <= j < r.len() implies exists|i: int|
            0 <= i < pairs.len() && #[trigger] r[j] == #[trigger] pairs[i] by {
            if has_key(m, p.0) && j == key_index(m, p.0) {
                assert(r[j] == pairs[pairs.len() - 1]);
            } else if !has_key(m, p.0) && j == m.len() {
                assert(r[j] == pairs[pairs.len() - 1]);
            } else {
                assert(r[j] == m[j]);
                let i = choose|i: int| 0 <= i < front.len() && #[trigger] m[j] == #[trigger] front[i];
                assert(r[j] == pairs[i]);
            }
        }
    }
}

/// `i` is where the key `k` first occurs among `pairs`.
pub open spec fn first_at<M>(pairs: Seq<(i32, M)>, k: i32, i: int) -> bool {
    &&& 0 <= i < pairs.len()
    &&& pairs[i].0 == k
    &&& forall|h: int| 0 <= h < i ==> #[trigger] pairs[h].0 != k
}

/// `i` is where the key `k` last occurs among `pairs`.
pub open spec fn last_at<M>(pairs: Seq<(i32, M)>, k: i32, i: int) -> bool {
    &&& 0 <= i < pairs.len()
    &&& pairs[i].0 == k
    &&& forall|h: int| i < h < pairs.len() ==> #[trigger] pairs[h].0 != k
}

/// The entry `j` of `r` holds the value of the last occurrence of its key in `pairs`.
pub open spec fn holds_last_value<M>(pairs: Seq<(i32, M)>, r: Seq<(i32, M)>, j: int) -> bool {
    exists|i: int| #[trigger] last_at(pairs, r[j].0, i) && r[j].1 == pairs[i].1
}

proof fn lemma_first_at_front<M>(pairs: Seq<(i32, M)>, k: i32, i: int)
    requires
        pairs.len() > 0,
        first_at(pairs, k, i),
        has_key(pairs.drop_last(), k),
    ensures
        first_at(pairs.drop_last(), k, i),
{
    let front = pairs.drop_last();
    let w = choose|j: int| 0 <= j < front.len() && #[trigger] front[j].0 == k;
    assert(pairs[w].0 == k);
    assert(i <= w);
    assert forall|h: int| 0 <= h < i implies #[trigger] front[h].0 != k by {
        assert(front[h] == pairs[h]);
    }
}

/// Inserting a stream of pairs in order gives each distinct key once, in the
/// order of its first occurrence, with the value of its last occurrence.
pub proof fn lemma_insert_all_order<M>(pairs: Seq<(i32, M)>)
    ensures
        keys_unique(insert_all(pairs)),
        insert_all(pairs).len() <= pairs.len(),
        forall|k: i32| has_key(insert_all(pairs), k) <==> has_key(pairs, k),
        forall|j: int|
            0 <= j < insert_all(pairs).len() ==> #[trigger] holds_last_value(pairs, insert_all(pairs), j),
        forall|j1: int, j2: int, i1: int, i2: int|
            0 <= j1 < j2 < insert_all(pairs).len() && #[trigger] first_at(pairs, insert_all(pairs)[j1].0, i1)
                && #[trigger] first_at(pairs, insert_all(pairs)[j2].0, i2) ==> i1 < i2,
    decreases pairs.len(),
{
    lemma_insert_all_ok(pairs);
    if pairs.len() > 0 {
        let n = pairs.len() as int;
        let front = pairs.drop_last();
        let p = pairs.last();
        lemma_insert_all_order(front);
        let m = insert_all(front);
        let r = insert_all(pairs);
        lemma_map_insert(m, p.0, p.1);
        assert(r == map_insert(m, p.0, p.1));
        assert(front.len() == n - 1);
        assert forall|h: int| 0 <= h < front.len() implies #[trigger] front[h] == pairs[h] by {}
        // keys present
        assert forall|k: i32| has_key(r, k) <==> has_key(pairs, k) by {
            if has_key(pairs, k) {
                let w = choose|w: int| 0 <= w < pairs.len() && #[trigger] pairs[w].0 == k;
                if w < n - 1 {
                    assert(front[w].0 == k);
                    assert(has_key(front, k));
                    assert(has_key(m, k));
                    let v = choose|v: int| 0 <= v < m.len() && #[trigger] m[v].0 == k;
                    assert(r[v].0 == k);
                } else {
                    if has_key(m, p.0) {
                        let idx = key_index(m, p.0);
                        assert(r[idx].0 == k);
                    } else {
                        assert(r[m.len() as int].0 == k);
                    }
                }
            }
            if has_key(r, k) {
                let v = choose|v: int| 0 <= v < r.len() && #[trigger] r[v].0 == k;
                if k != p.0 {
                    assert(v < m.len());
                    assert(m[v].0 == k);
                    assert(has_key(m, k));
                    assert(has_key(front, k));
                    let w = choose|w: int| 0 <= w < front.len() && #[trigger] front[w].0 == k;
                    assert(pairs[w].0 == k);
                } else {
                    assert(pairs[n - 1].0 == k);
                }
            }
        }
        // last occurrence gives the value
        assert forall|j: int| 0 <= j < r.len() implies #[trigger] holds_last_value(pairs, r, j) by {
            if r[j].0 == p.0 {
                if has_key(m, p.0) {
                    let idx = key_index(m, p.0);
                    assert(j == idx);
                } else {
                    assert(j == m.len());
                }
                assert(last_at(pairs, r[j].0, n - 1));
            } else {
                assert(j < m.len());
                assert(r[j] == m[j]);
                assert(holds_last_value(front, m, j));
                let i = choose|i: int| #[trigger] last_at(front, m[j].0, i) && m[j].1 == front[i].1;
                assert(last_at(front, m[j].0, i));
                let k = r[j].0;
                assert forall|h: int| i < h < pairs.len() implies #[trigger] pairs[h].0 != k by {
                    if h < n - 1 {
                        assert(pairs[h] == front[h]);
                        assert(front[h].0 != k);
                    }
                }
                assert(pairs[i] == front[i]);
                assert(last_at(pairs, r[j].0, i));
            }
        }
        // first occurrences come in order
        assert forall|j1: int, j2: int, i1: int, i2: int|
            0 <= j1 < j2 < r.len() && #[trigger] first_at(pairs, r[j1].0, i1) && #[trigger] first_at(
                pairs,
                r[j2].0,
                i2,
            ) implies i1 < i2 by {
            assert(r[j1].0 == m[j1].0);
            assert(has_key(m, m[j1].0));
            assert(has_key(front, r[j1].0));
            lemma_first_at_front(pairs, r[j1].0, i1);
            if j2 < m.len() {
                assert(r[j2].0 == m[j2].0);
                assert(has_key(m, m[j2].0));
                assert(has_key(front, r[j2].0));
                lemma_first_at_front(pairs, r[j2].0, i2);
                assert(first_at(front, m[j1].0, i1));
                assert(first_at(front, m[j2].0, i2));
            } else {
                assert(!has_key(m, p.0));
                assert(r[j2].0 == p.0);
                assert(!has_key(front, p.0));
                if i2 < n - 1 {
                    assert(front[i2].0 == p.0);
                }
                assert(i1 < front.len());
            }
        }
    }
}

/// An ordered map from integer keys to values: keys are unique and keep the
/// order in which they were first inserted.
pub struct SaveMap<V> {
    keys: IndexMap<i32, ()>,
    values: Vec<V>,
}

/// The entries of parallel keys and values.
pub open spec fn entries_of<V: SaveData>(keys: Seq<i32>, values: Seq<V>) -> Seq<(i32, V::Model)> {
    Seq::new(values.len(), |i: int| (keys[i], values[i].model()))
}

impl<V> SaveMap<V> {
    #[verifier::type_invariant]
    spec fn inv(&self) -> bool {
        &&& index_map_keys(self.keys).len() == self.values@.len()
        &&& index_map_keys(self.keys).no_duplicates()
    }
}

/// One insertion into parallel keys and values is `map_insert` on their entries.
proof fn lemma_entries_insert<V: SaveData>(
    keys0: Seq<i32>,
    values0: Seq<V>,
    keys1: Seq<i32>,
    values1: Seq<V>,
    k: i32,
    v: V,
    idx: int,
)
    requires
        keys0.len() == values0.len(),
        keys0.no_duplicates(),
        keys0.contains(k) ==> keys1 == keys0 && 0 <= idx < keys0.len() && keys0[idx] == k && values1
            == values0.update(idx, v),
        !keys0.contains(k) ==> keys1 == keys0.push(k) && values1 == values0.push(v),
    ensures
        entries_of(keys1, values1) == map_insert(entries_of(keys0, values0), k, v.model()),
{
    let e0 = entries_of(keys0, values0);
    if keys0.contains(k) {
        assert(e0[idx].0 == k);
        assert(has_key(e0, k));
        let j = key_index(e0, k);
        assert(keys0[j] == k);
        assert(j == idx);
        assert(entries_of(keys1, values1) =~= e0.update(idx, (k, v.model())));
    } else {
        assert(!has_key(e0, k)) by {
            if has_key(e0, k) {
                let j = choose|j: int| 0 <= j < e0.len() && #[trigger] e0[j].0 == k;
                assert(keys0[j] == k);
            }
        }
        assert(entries_of(keys1, values1) =~= e0.push((k, v.model())));
    }
}

/// Decodes an ordered map: a 4-byte count, then that many key/value pairs.
/// A repeated key keeps its first place and takes the later value.
pub fn deserialize_from_indexmap<V: SaveData>(input: &mut SaveCursor) -> (r: Result<SaveMap<V>, SaveError>)
    requires
        old(input).wf(),
    ensures
        final(input).wf(),
        final(input).data() == old(input).data(),
        old(input).pos() <= final(input).pos(),
        final(input).rest() == old(input).rest().skip(final(input).pos() - old(input).pos()),
        match r {
            Ok(m) => parse_map::<V>(old(input).rest()) == Ok::<(Seq<(i32, V::Model)>, nat), SaveError>(
                (m.model(), (final(input).pos() - old(input).pos()) as nat),
            ),
            Err(e) => parse_map::<V>(old(input).rest()) == Err::<(Seq<(i32, V::Model)>, nat), SaveError>(e),
        },
{
    let ghost b0 = input.rest();
    let ghost start = input.pos();
    let count = match read_u32(input) {
        Ok(c) => c,
        Err(e) => {
            return Err(e);
        },
    };
    let ghost b4 = input.rest();
    let ghost items_start = input.pos();
    assert(b4 =~= b0.skip(4));
    let mut keys = new_key_map();
    let mut values: Vec<V> = Vec::new();
    let ghost mut pairs: Seq<(i32, V::Model)> = Seq::empty();
    let mut i: u32 = 0;
    assert(b4.skip(0) =~= b4);
    assert(entries_of(index_map_keys(keys), values@) =~= insert_all(pairs));
    assert(Seq::<(i32, V::Model)>::empty() + Seq::<(i32, V::Model)>::empty() =~= Seq::<(i32, V::Model)>::empty());
    while i < count
        invariant
            input.wf(),
            input.data() == old(input).data(),
            items_start <= input.pos(),
            items_start == start + 4,
            old(input).pos() == start,
            b4 == b0.skip(4),
            b0 == old(input).rest(),
            count == le_u32(b0),
            input.rest() == b4.skip(input.pos() - items_start),
            pairs.len() == i,
            i <= count,
            index_map_keys(keys).len() == values@.len(),
            index_map_keys(keys).no_duplicates(),
            entries_of(index_map_keys(keys), values@) == insert_all(pairs),
            parse_items::<(i32, V)>(b4, count as nat) == chain(
                pairs,
                (input.pos() - items_start) as nat,
                parse_items::<(i32, V)>(input.rest(), (count - i) as nat),
            ),
        decreases count - i,
    {
        let ghost q0 = input.pos();
        match <(i32, V) as SaveData>::deserialize(input) {
            Ok(pair) => {
                let (k, v) = pair;
                let ghost vm = v.model();
                proof {
                    let n = (input.pos() - q0) as nat;
                    lemma_chain_step(pairs, (q0 - items_start) as nat, (k, vm), n, parse_items::<(i32, V)>(input.rest(), (count - i - 1) as nat));
                    input.lemma_wf_bounds();
                    lemma_rest_after(input.data(), items_start, input.pos());
                }
                let ghost keys0 = index_map_keys(keys);
                let ghost values0 = values@;
                let idx = insert_key(&mut keys, k);
                if idx == values.len() {
                    values.push(v);
                } else {
                    values[idx] = v;
                }
                proof {
                    lemma_entries_insert(keys0, values0, index_map_keys(keys), values@, k, v, idx as int);
                    let pairs0 = pairs;
                    pairs = pairs.push((k, vm));
                    assert(pairs.drop_last() =~= pairs0);
                    assert(pairs.last() == (k, vm));
                    assert(insert_all(pairs) == map_insert(insert_all(pairs0), k, vm));
                }
                i = i + 1;
            },
            Err(e) => {
                proof {
                    input.lemma_wf_bounds();
                    lemma_rest_after(input.data(), old(input).pos(), input.pos());
                }
                return Err(e);
            },
        }
    }
    assert(parse_items::<(i32, V)>(input.rest(), 0) == Ok::<(Seq<(i32, V::Model)>, nat), SaveError>((Seq::empty(), 0)));
    assert(pairs + Seq::<(i32, V::Model)>::empty() =~= pairs);
    assert(Seq::<(i32, V::Model)>::empty() + pairs =~= pairs);
    proof {
        input.lemma_wf_bounds();
        lemma_rest_after(input.data(), old(input).pos(), input.pos());
    }
    Ok(SaveMap { keys, values })
}

impl<V: SaveData> SaveMap<V> {
    /// A map with no entries.
    pub fn new() -> (r: SaveMap<V>)
        ensures
            r.model() == Seq::<(i32, V::Model)>::empty(),
    {
        let r = SaveMap { keys: new_key_map(), values: Vec::new() };
        assert(r.model() =~= Seq::<(i32, V::Model)>::empty());
        r
    }

    /// Inserts `v` under `k`: a present key keeps its place and takes the new
    /// value; a new key goes to the end.
    pub fn insert(&mut self, k: i32, v: V)
        ensures
            final(self).model() == map_insert(old(self).model(), k, v.model()),
    {
        let mut taken = SaveMap::new();
        std::mem::swap(self, &mut taken);
        proof {
            use_type_invariant(&taken);
        }
        let SaveMap { mut keys, mut values } = taken;
        let ghost keys0 = index_map_keys(keys);
        let ghost values0 = values@;
        let idx = insert_key(&mut keys, k);
        if idx == values.len() {
            values.push(v);
        } else {
            values[idx] = v;
        }
        proof {
            lemma_entries_insert(keys0, values0, index_map_keys(keys), values@, k, v, idx as int);
        }
        *self = SaveMap { keys, values };
    }

    /// The number of entries.
    pub fn len(&self) -> (r: usize)
        ensures
            r == self.model().len(),
    {
        proof {
            use_type_invariant(self);
        }
        self.values.len()
    }

    /// The key and the value of the entry at position `i`, in insertion order.
    pub fn get_index(&self, i: usize) -> (r: (i32, &V))
        requires
            i < self.model().len(),
        ensures
            r.0 == self.model()[i as int].0,
            r.1.model() == self.model()[i as int].1,
    {
        proof {
            use_type_invariant(self);
        }
        (key_at(&self.keys, i), &self.values[i])
    }

    /// The value of the entry at position `i`, to edit in place; keys and
    /// order stay as they are.
    pub fn value_at_mut(&mut self, i: usize) -> (r: &mut V)
        requires
            i < old(self).model().len(),
        ensures
            r.model() == old(self).model()[i as int].1,
            final(self).model() == old(self).model().update(i as int, (old(self).model()[i as int].0, final(r).model())),
    {
        proof {
            use_type_invariant(&*self);
        }
        &mut self.values[i]
    }
}

/// An ordered map: a 4-byte count, then the key/value pairs in order.
impl<V: SaveData> SaveData for SaveMap<V> {
    type Model = Seq<(i32, V::Model)>;

    closed spec fn model(&self) -> Seq<(i32, V::Model)> {
        entries_of(index_map_keys(self.keys), self.values@)
    }

    open spec fn parse(b: Seq<u8>) -> Result<(Seq<(i32, V::Model)>, nat), SaveError> {
        parse_map::<V>(b)
    }

    open spec fn wire(m: Seq<(i32, V::Model)>) -> Seq<u8> {
        u32_le_bytes(m.len() as u32) + wire_items::<(i32, V)>(m)
    }

    open spec fn well_formed(m: Seq<(i32, V::Model)>) -> bool {
        m.len() <= u32::MAX && items_well_formed::<(i32, V)>(m) && keys_unique(m)
    }

    /// A repeated key in the input is not written back.
    open spec fn exact() -> bool {
        false
    }

    fn deserialize(input: &mut SaveCursor) -> (r: Result<SaveMap<V>, SaveError>) {
        deserialize_from_indexmap(input)
    }

    fn serialize(&self, out: &mut Vec<u8>) {
        proof {
            use_type_invariant(self);
        }
        let ghost m = self.model();
        let n = self.values.len();
        write_u32(n as u32, out);
        let ghost start = out@;
        let mut i: usize = 0;
        assert(m.take(0) =~= Seq::<(i32, V::Model)>::empty());
        assert(start + wire_items::<(i32, V)>(Seq::<(i32, V::Model)>::empty()) =~= start);
        while i < n
            invariant
                n == self.values@.len(),
                n == m.len(),
                m == self.model(),
                items_well_formed::<(i32, V)>(m),
                index_map_keys(self.keys).len() == n,
                i <= n,
                out@ == start + wire_items::<(i32, V)>(m.take(i as int)),
            decreases n - i,
        {
            let k = key_at(&self.keys, i);
            assert(<(i32, V) as SaveData>::well_formed(m[i as int]));
            k.serialize(out);
            self.values[i].serialize(out);
            proof {
                lemma_wire_items_push::<(i32, V)>(m.take(i as int), m[i as int]);
                assert(m.take(i + 1) =~= m.take(i as int).push(m[i as int]));
            }
            assert(out@ =~= start + wire_items::<(i32, V)>(m.take(i + 1)));
            i = i + 1;
        }
        assert(m.take(n as int) =~= m);
        assert(final(out)@ =~= old(out)@ + (u32_le_bytes(m.len() as u32) + wire_items::<(i32, V)>(m)));
    }

    proof fn lemma_parse_ok(b: Seq<u8>) {
        if b.len() >= 4 {
            lemma_parse_items_ok::<(i32, V)>(b.skip(4), le_u32(b) as nat);
            if let Ok((pairs, n)) = parse_items::<(i32, V)>(b.skip(4), le_u32(b) as nat) {
                lemma_insert_all_ok(pairs);
                let m = insert_all(pairs);
                assert(Seq::<(i32, V::Model)>::empty() + pairs =~= pairs);
                assert forall|j: int| 0 <= j < m.len() implies <(i32, V) as SaveData>::well_formed(#[trigger] m[j]) by {
                    let i = choose|i: int| 0 <= i < pairs.len() && #[trigger] m[j] == #[trigger] pairs[i];
                    assert(<(i32, V) as SaveData>::well_formed(pairs[i]));
                }
            }
        }
    }

    proof fn lemma_parse_wire(m: Seq<(i32, V::Model)>, tail: Seq<u8>) {
        <Vec<(i32, V)> as SaveData>::lemma_parse_wire(m, tail);
        lemma_insert_all_unique(m);
    }

    proof fn lemma_wire_of_parse(b: Seq<u8>) {
    }
}

} // verus!
