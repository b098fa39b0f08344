use vstd::prelude::*;

use crate::containers::parse_seq;
use crate::ordered_map::{
    SaveMap, first_at, has_key, holds_last_value, insert_all, keys_unique, lemma_insert_all_order,
    lemma_insert_all_unique, parse_map,
};
use crate::error::SaveError;
use crate::save_data::{SaveData, le_u32, lemma_u32_bytes_round_trip};

verus! {

/// Round trip from bytes: for a type whose every accepted input is canonical,
/// when a buffer decodes to a value, encoding that value gives back exactly
/// the bytes that were consumed.
pub proof fn encode_after_decode<T: SaveData>(b: Seq<u8>)
    requires
        T::exact(),
        T::parse(b) is Ok,
    ensures
        T::parse(b) matches Ok((m, n)) ==> T::wire(m) == b.take(n as int) && T::well_formed(m),
{
    T::lemma_parse_ok(b);
    T::lemma_wire_of_parse(b);
}

/// Round trip from values: decoding the encoding of any well-formed value
/// gives the value back and consumes exactly its encoding, whatever follows.
pub proof fn decode_after_encode<T: SaveData>(m: T::Model, tail: Seq<u8>)
    requires
        T::well_formed(m),
    ensures
        T::parse(T::wire(m) + tail) == Ok::<(T::Model, nat), SaveError>((m, T::wire(m).len())),
{
    T::lemma_parse_wire(m, tail);
}

/// Round trip of a boolean word: it is written back as it was read exactly
/// when it held `0` or `1`.
pub proof fn bool_round_trip(b: Seq<u8>)
    requires
        b.len() >= 4,
    ensures
        bool::parse(b) matches Ok((v, n)) && (bool::wire(v) == b.take(n as int) <==> (le_u32(b) == 0
            || le_u32(b) == 1)),
{
    lemma_u32_bytes_round_trip(b.take(4));
    assert(le_u32(b) == le_u32(b.take(4)));
    let v = le_u32(b) != 0;
    u32::lemma_parse_wire(if v { 1 } else { 0 }, Seq::empty());
    assert(bool::wire(v) + Seq::<u8>::empty() =~= bool::wire(v));
    if bool::wire(v) == b.take(4) {
        assert(le_u32(bool::wire(v)) == le_u32(b.take(4)));
    }
}

/// Round trip of an ordered map: when the pairs read have no repeated key
/// and the values are canonical, the map is written back as it was read.
pub proof fn map_round_trip<V: SaveData>(b: Seq<u8>)
    requires
        V::exact(),
        parse_seq::<(i32, V)>(b) matches Ok((pairs, n)) && keys_unique(pairs),
    ensures
        SaveMap::<V>::parse(b) matches Ok((m, n)) && SaveMap::<V>::wire(m) == b.take(n as int),
{
    <Vec<(i32, V)> as SaveData>::lemma_wire_of_parse(b);
    if let Ok((pairs, n)) = parse_seq::<(i32, V)>(b) {
        lemma_insert_all_unique(pairs);
    }
}

/// Decoding an ordered map from a stream of key/value pairs keeps each
/// distinct key once, in the order of its first occurrence, with the value of
/// its last occurrence; there are at most as many entries as pairs.
pub proof fn map_decode_order<V: SaveData>(b: Seq<u8>, pairs: Seq<(i32, V::Model)>, n: nat)
    requires
        parse_seq::<(i32, V)>(b) == Ok::<(Seq<(i32, V::Model)>, nat), SaveError>((pairs, n)),
    ensures
        parse_map::<V>(b) == Ok::<(Seq<(i32, V::Model)>, nat), SaveError>((insert_all(pairs), n)),
        keys_unique(insert_all(pairs)),
        insert_all(pairs).len() <= pairs.len(),
        forall|k: i32| has_key(insert_all(pairs), k) <==> has_key(pairs, k),
        forall|j: int|
            0 <= j < insert_all(pairs).len() ==> #[trigger] holds_last_value(pairs, insert_all(pairs), j),
        forall|j1: int, j2: int, i1: int, i2: int|
            0 <= j1 < j2 < insert_all(pairs).len() && #[trigger] first_at(pairs, insert_all(pairs)[j1].0, i1)
                && #[trigger] first_at(pairs, insert_all(pairs)[j2].0, i2) ==> i1 < i2,
{
    lemma_insert_all_order(pairs);
}

} // verus!
