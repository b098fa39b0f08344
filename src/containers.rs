use vstd::prelude::*;

use crate::cursor::{SaveCursor, lemma_rest_after};
use crate::error::SaveError;
use crate::save_data::{
    SaveData, le_u32, lemma_u32_bytes_round_trip, lemma_u32_round_trip, read_u32, u32_le_bytes,
    write_u32,
};

verus! {

/// A record of two fields, decoded and encoded one after the other.
impl<A: SaveData, B: SaveData> SaveData for (A, B) {
    type Model = (A::Model, B::Model);

    open spec fn model(&self) -> (A::Model, B::Model) {
        (self.0.model(), self.1.model())
    }

    open spec fn parse(b: Seq<u8>) -> Result<((A::Model, B::Model), nat), SaveError> {
        match A::parse(b) {
            Err(e) => Err(e),
            Ok((x, n)) => match B::parse(b.skip(n as int)) {
                Err(e) => Err(e),
                Ok((y, k)) => Ok(((x, y), n + k)),
            },
        }
    }

    open spec fn wire(m: (A::Model, B::Model)) -> Seq<u8> {
        A::wire(m.0) + B::wire(m.1)
    }

    open spec fn well_formed(m: (A::Model, B::Model)) -> bool {
        A::well_formed(m.0) && B::well_formed(m.1)
    }

    open spec fn exact() -> bool {
        A::exact() && B::exact()
    }

    fn deserialize(input: &mut SaveCursor) -> (r: Result<(A, B), SaveError>) {
        let x = A::deserialize(input)?;
        let y = match B::deserialize(input) {
            Ok(y) => y,
            Err(e) => {
                proof {
                    input.lemma_wf_bounds();
                    lemma_rest_after(input.data(), old(input).pos(), input.pos());
                }
                return Err(e);
            },
        };
        proof {
            input.lemma_wf_bounds();
            lemma_rest_after(input.data(), old(input).pos(), input.pos());
        }
        Ok((x, y))
    }

    fn serialize(&self, out: &mut Vec<u8>) {
        self.0.serialize(out);
        self.1.serialize(out);
        assert(final(out)@ =~= old(out)@ + (A::wire(self.0.model()) + B::wire(self.1.model())));
    }

    proof fn lemma_parse_ok(b: Seq<u8>) {
        A::lemma_parse_ok(b);
        if let Ok((x, n)) = A::parse(b) {
            B::lemma_parse_ok(b.skip(n as int));
        }
    }

    proof fn lemma_parse_wire(m: (A::Model, B::Model), tail: Seq<u8>) {
        let wa = A::wire(m.0);
        let wb = B::wire(m.1);
        assert((wa + wb) + tail =~= wa + (wb + tail));
        A::lemma_parse_wire(m.0, wb + tail);
        assert((wa + (wb + tail)).skip(wa.len() as int) =~= wb + tail);
        B::lemma_parse_wire(m.1, tail);
    }

    proof fn lemma_wire_of_parse(b: Seq<u8>) {
        A::lemma_parse_ok(b);
        A::lemma_wire_of_parse(b);
        if let Ok((x, n)) = A::parse(b) {
            B::lemma_parse_ok(b.skip(n as int));
            if let Ok((y, k)) = B::parse(b.skip(n as int)) {
                B::lemma_wire_of_parse(b.skip(n as int));
                assert(b.take((n + k) as int) =~= b.take(n as int) + b.skip(n as int).take(k as int));
            }
        }
    }
}

/// The models of a sequence of values.
pub open spec fn models<T: SaveData>(v: Seq<T>) -> Seq<T::Model> {
    v.map_values(|x: T| x.model())
}

/// Decodes `count` values one after the other.
pub open spec fn parse_items<T: SaveData>(b: Seq<u8>, count: nat) -> Result<(Seq<T::Model>, nat), SaveError>
    decreases count,
{
    if count == 0 {
        Ok((Seq::empty(), 0))
    } else {
        match T::parse(b) {
            Err(e) => Err(e),
            Ok((x, n)) => match parse_items::<T>(b.skip(n as int), (count - 1) as nat) {
                Err(e) => Err(e),
                Ok((xs, k)) => Ok((seq![x] + xs, n + k)),
            },
        }
    }
}

/// The bytes of values written one after the other.
pub open spec fn wire_items<T: SaveData>(ms: Seq<T::Model>) -> Seq<u8>
    decreases ms.len(),
{
    if ms.len() == 0 {
        Seq::empty()
    } else {
        T::wire(ms[0]) + wire_items::<T>(ms.skip(1))
    }
}

pub open spec fn items_well_formed<T: SaveData>(ms: Seq<T::Model>) -> bool {
    forall|i: int| 0 <= i < ms.len() ==> T::well_formed(#[trigger] ms[i])
}

/// A decode that has already produced `prefix` from `c` bytes, then goes on with `r`.
pub open spec fn chain<M>(prefix: Seq<M>, c: nat, r: Result<(Seq<M>, nat), SaveError>) -> Result<(Seq<M>, nat), SaveError> {
    match r {
        Ok((xs, k)) => Ok((prefix + xs, c + k)),
        Err(e) => Err(e),
    }
}

/// The decoder of a sequence: a 4-byte count, then that many values.
pub open spec fn parse_seq<T: SaveData>(b: Seq<u8>) -> Result<(Seq<T::Model>, nat), SaveError> {
    if b.len() < 4 {
        Err(SaveError::UnexpectedEndOfFile)
    } else {
        chain(Seq::empty(), 4, parse_items::<T>(b.skip(4), le_u32(b) as nat))
    }
}

pub proof fn lemma_parse_items_ok<T: SaveData>(b: Seq<u8>, count: nat)
    ensures
        parse_items::<T>(b, count) matches Ok((ms, n)) ==> n <= b.len() && ms.len() == count
            && items_well_formed::<T>(ms),
    decreases count,
{
    if count > 0 {
        T::lemma_parse_ok(b);
        if let Ok((x, n)) = T::parse(b) {
            lemma_parse_items_ok::<T>(b.skip(n as int), (count - 1) as nat);
            if let Ok((xs, k)) = parse_items::<T>(b.skip(n as int), (count - 1) as nat) {
                let ms = seq![x] + xs;
                assert forall|i: int| 0 <= i < ms.len() implies T::well_formed(#[trigger] ms[i]) by {
                    if i > 0 {
                        assert(ms[i] == xs[i - 1]);
                    }
                }
            }
        }
    }
}

pub proof fn lemma_parse_items_wire<T: SaveData>(ms: Seq<T::Model>, tail: Seq<u8>)
    requires
        items_well_formed::<T>(ms),
    ensures
        parse_items::<T>(wire_items::<T>(ms) + tail, ms.len()) == Ok::<(Seq<T::Model>, nat), SaveError>(
            (ms, wire_items::<T>(ms).len()),
        ),
    decreases ms.len(),
{
    if ms.len() == 0 {
        assert(wire_items::<T>(ms) + tail =~= tail);
        assert(ms =~= Seq::<T::Model>::empty());
    } else {
        let w0 = T::wire(ms[0]);
        let rest = wire_items::<T>(ms.skip(1));
        assert(items_well_formed::<T>(ms.skip(1))) by {
            assert forall|i: int| 0 <= i < ms.skip(1).len() implies T::well_formed(#[trigger] ms.skip(1)[i]) by {
                assert(ms.skip(1)[i] == ms[i + 1]);
            }
        }
        assert(T::well_formed(ms[0]));
        assert((w0 + rest) + tail =~= w0 + (rest + tail));
        T::lemma_parse_wire(ms[0], rest + tail);
        assert((w0 + (rest + tail)).skip(w0.len() as int) =~= rest + tail);
        lemma_parse_items_wire::<T>(ms.skip(1), tail);
        assert(seq![ms[0]] + ms.skip(1) =~= ms);
    }
}

pub proof fn lemma_wire_items_of_parse<T: SaveData>(b: Seq<u8>, count: nat)
    requires
        T::exact(),
    ensures
        parse_items::<T>(b, count) matches Ok((ms, n)) ==> wire_items::<T>(ms) == b.take(n as int),
    decreases count,
{
    if count == 0 {
        assert(b.take(0) =~= Seq::<u8>::empty());
    } else {
        T::lemma_parse_ok(b);
        if let Ok((x, n)) = T::parse(b) {
            T::lemma_wire_of_parse(b);
            lemma_wire_items_of_parse::<T>(b.skip(n as int), (count - 1) as nat);
            lemma_parse_items_ok::<T>(b.skip(n as int), (count - 1) as nat);
            if let Ok((xs, k)) = parse_items::<T>(b.skip(n as int), (count - 1) as nat) {
                let ms = seq![x] + xs;
                assert(ms[0] == x);
                assert(ms.skip(1) =~= xs);
                assert(b.take((n + k) as int) =~= b.take(n as int) + b.skip(n as int).take(k as int));
            }
        }
    }
}

pub proof fn lemma_wire_items_push<T: SaveData>(ms: Seq<T::Model>, x: T::Model)
    ensures
        wire_items::<T>(ms.push(x)) == wire_items::<T>(ms) + T::wire(x),
    decreases ms.len(),
{
    if ms.len() == 0 {
        assert(ms.push(x).skip(1) =~= Seq::<T::Model>::empty());
        assert(ms.push(x)[0] == x);
        assert(wire_items::<T>(Seq::<T::Model>::empty()) == Seq::<u8>::empty());
        assert(wire_items::<T>(ms.push(x)) == T::wire(x) + Seq::<u8>::empty());
        assert(wire_items::<T>(ms) == Seq::<u8>::empty());
        assert(T::wire(x) + Seq::<u8>::empty() =~= Seq::<u8>::empty() + T::wire(x));
    } else {
        assert(ms.push(x).skip(1) =~= ms.skip(1).push(x));
        assert(ms.push(x)[0] == ms[0]);
        lemma_wire_items_push::<T>(ms.skip(1), x);
        let a = T::wire(ms[0]);
        let r = wire_items::<T>(ms.skip(1));
        assert(wire_items::<T>(ms.push(x)) == a + (r + T::wire(x)));
        assert(wire_items::<T>(ms) == a + r);
        assert(a + (r + T::wire(x)) =~= (a + r) + T::wire(x));
    }
}

pub proof fn lemma_chain_step<M>(prefix: Seq<M>, c: nat, x: M, n: nat, r: Result<(Seq<M>, nat), SaveError>)
    ensures
        chain(prefix, c, chain(seq![x], n, r)) == chain(prefix.push(x), c + n, r),
{
    if let Ok((xs, k)) = r {
        assert(prefix + (seq![x] + xs) =~= prefix.push(x) + xs);
    }
}

/// Decodes a sequence: a 4-byte count, then that many values in order.
pub fn deserialize_from_array<T: SaveData>(input: &mut SaveCursor) -> (r: Result<Vec<T>, SaveError>)
    requires
        old(input).wf(),
    ensures
        final(input).wf(),
        final(input).data() == old(input).data(),
        old(input).pos() <= final(input).pos(),
        final(input).rest() == old(input).rest().skip(final(input).pos() - old(input).pos()),
        match r {
            Ok(v) => parse_seq::<T>(old(input).rest()) == Ok::<(Seq<T::Model>, nat), SaveError>(
                (models(v@), (final(input).pos() - old(input).pos()) as nat),
            ),
            Err(e) => parse_seq::<T>(old(input).rest()) == Err::<(Seq<T::Model>, nat), SaveError>(e),
        },
{
    let ghost b0 = input.rest();
    let ghost start = input.pos();
    let count = read_u32(input)?;
    let ghost b4 = input.rest();
    let ghost items_start = input.pos();
    assert(b4 =~= b0.skip(4));
    let mut vec: Vec<T> = Vec::new();
    let mut i: u32 = 0;
    assert(models(vec@) =~= Seq::<T::Model>::empty());
    assert(b4.skip(0) =~= b4);
    assert(Seq::<T::Model>::empty() + Seq::<T::Model>::empty() =~= Seq::<T::Model>::empty());
    while i < count
        invariant
            input.wf(),
            input.data() == old(input).data(),
            items_start <= input.pos(),
            items_start == start + 4,
            old(input).pos() == start,
            b4 == b0.skip(4),
            b0 == old(input).rest(),
            count == le_u32(b0),
            input.rest() == b4.skip(input.pos() - items_start),
            vec@.len() == i,
            i <= count,
            parse_items::<T>(b4, count as nat) == chain(
                models(vec@),
                (input.pos() - items_start) as nat,
                parse_items::<T>(input.rest(), (count - i) as nat),
            ),
        decreases count - i,
    {
        let ghost q0 = input.pos();
        let ghost before = vec@;
        match T::deserialize(input) {
            Ok(v) => {
                proof {
                    let k = (input.pos() - q0) as nat;
                    lemma_chain_step(models(before), (q0 - items_start) as nat, v.model(), k, parse_items::<T>(input.rest(), (count - i - 1) as nat));
                    input.lemma_wf_bounds();
                    lemma_rest_after(input.data(), items_start, input.pos());
                }
                vec.push(v);
                assert(models(vec@) =~= models(before).push(v.model()));
                i = i + 1;
            },
            Err(e) => {
                proof {
                    input.lemma_wf_bounds();
                    lemma_rest_after(input.data(), old(input).pos(), input.pos());
                }
                return Err(e);
            },
        }
    }
    assert(parse_items::<T>(input.rest(), 0) == Ok::<(Seq<T::Model>, nat), SaveError>((Seq::empty(), 0)));
    assert(models(vec@) + Seq::<T::Model>::empty() =~= models(vec@));
    assert(Seq::<T::Model>::empty() + models(vec@) =~= models(vec@));
    proof {
        input.lemma_wf_bounds();
        lemma_rest_after(input.data(), old(input).pos(), input.pos());
    }
    Ok(vec)
}

/// Writes values one after the other.
fn serialize_items<T: SaveData>(items: &Vec<T>, out: &mut Vec<u8>)
    requires
        items_well_formed::<T>(models(items@)),
    ensures
        final(out)@ == old(out)@ + wire_items::<T>(models(items@)),
{
    let mut i: usize = 0;
    assert(models(items@).take(0) =~= Seq::<T::Model>::empty());
    assert(old(out)@ + wire_items::<T>(Seq::<T::Model>::empty()) =~= old(out)@);
    while i < items.len()
        invariant
            i <= items@.len(),
            items_well_formed::<T>(models(items@)),
            out@ == old(out)@ + wire_items::<T>(models(items@).take(i as int)),
        decreases items@.len() - i,
    {
        assert(models(items@)[i as int] == items@[i as int].model());
        items[i].serialize(out);
        proof {
            lemma_wire_items_push::<T>(models(items@).take(i as int), items@[i as int].model());
            assert(models(items@).take(i + 1) =~= models(items@).take(i as int).push(items@[i as int].model()));
        }
        assert(out@ =~= old(out)@ + wire_items::<T>(models(items@).take(i + 1)));
        i = i + 1;
    }
    assert(models(items@).take(items@.len() as int) =~= models(items@));
}

/// A sequence: a 4-byte count, then the values in order.
impl<T: SaveData> SaveData for Vec<T> {
    type Model = Seq<T::Model>;

    open spec fn model(&self) -> Seq<T::Model> {
        models(self@)
    }

    open spec fn parse(b: Seq<u8>) -> Result<(Seq<T::Model>, nat), SaveError> {
        parse_seq::<T>(b)
    }

    open spec fn wire(m: Seq<T::Model>) -> Seq<u8> {
        u32_le_bytes(m.len() as u32) + wire_items::<T>(m)
    }

    open spec fn well_formed(m: Seq<T::Model>) -> bool {
        m.len() <= u32::MAX && items_well_formed::<T>(m)
    }

    open spec fn exact() -> bool {
        T::exact()
    }

    fn deserialize(input: &mut SaveCursor) -> (r: Result<Vec<T>, SaveError>) {
        deserialize_from_array(input)
    }

    fn serialize(&self, out: &mut Vec<u8>) {
        write_u32(self.len() as u32, out);
        serialize_items(self, out);
        assert(final(out)@ =~= old(out)@ + (u32_le_bytes(self@.len() as u32) + wire_items::<T>(models(self@))));
    }

    proof fn lemma_parse_ok(b: Seq<u8>) {
        if b.len() >= 4 {
            lemma_parse_items_ok::<T>(b.skip(4), le_u32(b) as nat);
        }
    }

    proof fn lemma_parse_wire(m: Seq<T::Model>, tail: Seq<u8>) {
        let w = wire_items::<T>(m);
        let b = u32_le_bytes(m.len() as u32) + w + tail;
        lemma_u32_round_trip(m.len() as u32);
        assert(b.take(4) =~= u32_le_bytes(m.len() as u32));
        assert(le_u32(b) == le_u32(b.take(4)));
        assert(b.skip(4) =~= w + tail);
        lemma_parse_items_wire::<T>(m, tail);
        assert(Seq::<T::Model>::empty() + m =~= m);
    }

    proof fn lemma_wire_of_parse(b: Seq<u8>) {
        let count = le_u32(b);
        lemma_parse_items_ok::<T>(b.skip(4), count as nat);
        lemma_wire_items_of_parse::<T>(b.skip(4), count as nat);
        lemma_u32_bytes_round_trip(b.take(4));
        assert(le_u32(b) == le_u32(b.take(4)));
        if let Ok((ms, n)) = parse_items::<T>(b.skip(4), count as nat) {
            assert(Seq::<T::Model>::empty() + ms =~= ms);
            assert(b.take((4 + n) as int) =~= b.take(4) + b.skip(4).take(n as int));
        }
    }
}

/// A byte array of a length fixed by its type, decoded one byte at a time.
pub struct FixedBytes<const LENGTH: usize> {
    bytes: Vec<u8>,
}

impl<const LENGTH: usize> FixedBytes<LENGTH> {
    /// Takes `bytes` when it has exactly `LENGTH` bytes.
    pub fn from_vec(bytes: Vec<u8>) -> (r: Option<FixedBytes<LENGTH>>)
        ensures
            bytes@.len() == LENGTH ==> (r matches Some(a) && a.model() == bytes@),
            bytes@.len() != LENGTH ==> r is None,
    {
        if bytes.len() == LENGTH {
            Some(FixedBytes { bytes })
        } else {
            None
        }
    }

    pub fn as_slice(&self) -> (r: &[u8])
        ensures
            r@ == self.model(),
    {
        self.bytes.as_slice()
    }
}

impl<const LENGTH: usize> SaveData for FixedBytes<LENGTH> {
    type Model = Seq<u8>;

    closed spec fn model(&self) -> Seq<u8> {
        self.bytes@
    }

    open spec fn parse(b: Seq<u8>) -> Result<(Seq<u8>, nat), SaveError> {
        if b.len() < LENGTH {
            Err(SaveError::UnexpectedEndOfFile)
        } else {
            Ok((b.take(LENGTH as int), LENGTH as nat))
        }
    }

    open spec fn wire(m: Seq<u8>) -> Seq<u8> {
        m
    }

    open spec fn well_formed(m: Seq<u8>) -> bool {
        m.len() == LENGTH
    }

    open spec fn exact() -> bool {
        true
    }

    fn deserialize(input: &mut SaveCursor) -> (r: Result<FixedBytes<LENGTH>, SaveError>) {
        let ghost b = input.rest();
        let mut bytes: Vec<u8> = Vec::new();
        let mut i: usize = 0;
        while i < LENGTH
            invariant
                input.wf(),
                input.data() == old(input).data(),
                b == old(input).rest(),
                input.pos() == old(input).pos() + i,
                i <= LENGTH,
                i <= b.len(),
                bytes@ == b.take(i as int),
            decreases LENGTH - i,
        {
            proof {
                input.lemma_wf_bounds();
                lemma_rest_after(input.data(), old(input).pos(), input.pos());
            }
            let x = match u8::deserialize(input) {
                Ok(x) => x,
                Err(e) => {
                    proof {
                        input.lemma_wf_bounds();
                        lemma_rest_after(input.data(), old(input).pos(), input.pos());
                    }
                    return Err(e);
                },
            };
            bytes.push(x);
            assert(bytes@ =~= b.take(i + 1));
            i = i + 1;
        }
        proof {
            input.lemma_wf_bounds();
            lemma_rest_after(input.data(), old(input).pos(), input.pos());
        }
        Ok(FixedBytes { bytes })
    }

    fn serialize(&self, out: &mut Vec<u8>) {
        let mut i: usize = 0;
        while i < self.bytes.len()
            invariant
                i <= self.bytes@.len(),
                out@ == old(out)@ + self.bytes@.take(i as int),
            decreases self.bytes@.len() - i,
        {
            out.push(self.bytes[i]);
            assert(out@ =~= old(out)@ + self.bytes@.take(i + 1));
            i = i + 1;
        }
        assert(self.bytes@.take(self.bytes@.len() as int) =~= self.bytes@);
    }

    proof fn lemma_parse_ok(b: Seq<u8>) {
    }

    proof fn lemma_parse_wire(m: Seq<u8>, tail: Seq<u8>) {
        assert((m + tail).take(LENGTH as int) =~= m);
    }

    proof fn lemma_wire_of_parse(b: Seq<u8>) {
    }
}

} // verus!
