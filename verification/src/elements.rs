//! Element after element: what fixed and growable sequences share.

use vstd::prelude::*;
use crate::reader::{delivers, DecodeError, Decoding, SliceReader};
use crate::Serializeable;

verus! {

/// The encodings of the elements, one after the other.
pub open spec fn encode_elements<T: Serializeable>(items: Seq<T::V>) -> Seq<u8>
    decreases items.len(),
{
    if items.len() == 0 {
        Seq::empty()
    } else {
        T::encoding(items[0]) + encode_elements::<T>(items.skip(1))
    }
}

/// The outcome of a decode that follows elements already decoded.
pub open spec fn prepend<V>(done: Seq<V>, later: Decoding<Seq<V>>) -> Decoding<Seq<V>> {
    match later.outcome {
        Ok(values) => Decoding::done(done + values, later.rest),
        Err(error) => Decoding::failed(error, later.rest),
    }
}

/// What decoding `count` elements in a row comes to. The first element that
/// fails ends the decode with its failure.
pub open spec fn decode_elements<T: Serializeable>(bytes: Seq<u8>, count: nat) -> Decoding<
    Seq<T::V>,
>
    decreases count,
{
    if count == 0 {
        Decoding::done(Seq::empty(), bytes)
    } else {
        let first = T::decoding(bytes);
        match first.outcome {
            Ok(value) => prepend(
                seq![value],
                decode_elements::<T>(first.rest, (count - 1) as nat),
            ),
            Err(error) => Decoding::failed(error, first.rest),
        }
    }
}

/// Whether every element is a value that the format can hold.
pub open spec fn all_encodable<T: Serializeable>(items: Seq<T::V>) -> bool {
    forall|i: int| 0 <= i < items.len() ==> T::encodable(#[trigger] items[i])
}

/// One more element at the end adds its encoding at the end.
pub proof fn lemma_encode_push<T: Serializeable>(items: Seq<T::V>, last: T::V)
    ensures
        encode_elements::<T>(items.push(last)) == encode_elements::<T>(items) + T::encoding(last),
    decreases items.len(),
{
    let longer = items.push(last);
    if items.len() == 0 {
        assert(longer.skip(1) =~= Seq::<T::V>::empty());
        assert(encode_elements::<T>(longer.skip(1)) =~= Seq::<u8>::empty());
        assert(encode_elements::<T>(longer) =~= encode_elements::<T>(items) + T::encoding(last));
    } else {
        lemma_encode_push::<T>(items.skip(1), last);
        assert(longer.skip(1) =~= items.skip(1).push(last));
        assert(encode_elements::<T>(longer) =~= encode_elements::<T>(items) + T::encoding(last));
    }
}

/// Elements that all take `size` bytes take `size` bytes each, with nothing
/// between them.
pub proof fn lemma_encode_elements_len<T: Serializeable>(items: Seq<T::V>, size: nat)
    requires
        forall|i: int| 0 <= i < items.len() ==> (#[trigger] T::encoding(items[i])).len() == size,
    ensures
        encode_elements::<T>(items).len() == items.len() * size,
    decreases items.len(),
{
    if items.len() > 0 {
        let tail = items.skip(1);
        assert forall|i: int| 0 <= i < tail.len() implies (#[trigger] T::encoding(tail[i])).len()
            == size by {
            assert(tail[i] == items[i + 1]);
        }
        lemma_encode_elements_len::<T>(tail, size);
        assert(items.len() * size == size + tail.len() * size) by (nonlinear_arith)
            requires
                items.len() == tail.len() + 1,
        ;
    }
}

/// A decode of `count` elements that succeeds gives `count` elements.
pub proof fn lemma_decode_elements_count<T: Serializeable>(bytes: Seq<u8>, count: nat)
    ensures
        match decode_elements::<T>(bytes, count).outcome {
            Ok(values) => values.len() == count,
            Err(_) => true,
        },
    decreases count,
{
    if count > 0 {
        lemma_decode_elements_count::<T>(T::decoding(bytes).rest, (count - 1) as nat);
    }
}

/// Decoding the encodings of elements gives the elements back.
pub proof fn lemma_elements_round_trip<T: Serializeable>(items: Seq<T::V>, rest: Seq<u8>)
    requires
        all_encodable::<T>(items),
    ensures
        decode_elements::<T>(encode_elements::<T>(items) + rest, items.len()) == Decoding::done(
            items,
            rest,
        ),
    decreases items.len(),
{
    if items.len() == 0 {
        assert(encode_elements::<T>(items) + rest =~= rest);
        assert(items =~= Seq::<T::V>::empty());
    } else {
        let tail = items.skip(1);
        let later = encode_elements::<T>(tail) + rest;
        assert(encode_elements::<T>(items) + rest =~= T::encoding(items[0]) + later);
        T::lemma_round_trip(items[0], later);
        assert forall|i: int| 0 <= i < tail.len() implies T::encodable(#[trigger] tail[i]) by {
            assert(tail[i] == items[i + 1]);
        }
        lemma_elements_round_trip::<T>(tail, rest);
        assert(seq![items[0]] + tail =~= items);
    }
}

/// Decoding a proper prefix of the encodings of elements fails for want of
/// bytes.
pub proof fn lemma_elements_truncated<T: Serializeable>(items: Seq<T::V>, cut: int)
    requires
        all_encodable::<T>(items),
        0 <= cut < encode_elements::<T>(items).len(),
    ensures
        decode_elements::<T>(encode_elements::<T>(items).take(cut), items.len()) == Decoding::<
            Seq<T::V>,
        >::starved(),
    decreases items.len(),
{
    if items.len() > 0 {
        let head = T::encoding(items[0]);
        let tail = items.skip(1);
        let whole = encode_elements::<T>(items);
        if cut < head.len() {
            assert(whole.take(cut) =~= head.take(cut));
            T::lemma_truncated(items[0], cut);
        } else {
            let later = encode_elements::<T>(tail).take(cut - head.len());
            assert(whole.take(cut) =~= head + later);
            T::lemma_round_trip(items[0], later);
            assert forall|i: int| 0 <= i < tail.len() implies T::encodable(#[trigger] tail[i]) by {
                assert(tail[i] == items[i + 1]);
            }
            lemma_elements_truncated::<T>(tail, cut - head.len());
        }
    }
}

/// Appends the encoding of each element in turn.
pub fn serialize_elements<T: Serializeable>(items: &[T], data: &mut Vec<u8>)
    ensures
        all_encodable::<T>(items.deep_view()),
        final(data)@ == old(data)@ + encode_elements::<T>(items.deep_view()),
{
    let ghost models = items.deep_view();
    let mut i: usize = 0;
    assert(old(data)@ + encode_elements::<T>(models.take(0)) =~= old(data)@);
    while i < items.len()
        invariant
            i <= items@.len(),
            models == items.deep_view(),
            all_encodable::<T>(models.take(i as int)),
            data@ == old(data)@ + encode_elements::<T>(models.take(i as int)),
        decreases items@.len() - i,
    {
        let ghost before = data@;
        items[i].serialize_into(data);
        proof {
            let shorter = models.take(i as int);
            assert(models.take(i + 1) =~= shorter.push(models[i as int]));
            lemma_encode_push::<T>(shorter, models[i as int]);
            assert(data@ =~= old(data)@ + encode_elements::<T>(models.take(i + 1)));
            assert forall|k: int| 0 <= k < i + 1 implies T::encodable(
                #[trigger] models.take(i + 1)[k],
            ) by {
                if k < i {
                    assert(models.take(i + 1)[k] == shorter[k]);
                }
            }
        }
        i += 1;
    }
    assert(models.take(i as int) =~= models);
}

/// Decodes `count` elements in a row.
pub fn deserialize_elements<T: Serializeable>(reader: &mut SliceReader, count: u64) -> (result:
    Result<Vec<T>, DecodeError>)
    ensures
        final(reader)@ == decode_elements::<T>(old(reader)@, count as nat).rest,
        delivers(result, decode_elements::<T>(old(reader)@, count as nat).outcome),
{
    let ghost goal = decode_elements::<T>(old(reader)@, count as nat);
    let mut items: Vec<T> = Vec::new();
    let mut i: u64 = 0;
    assert(items.deep_view() =~= Seq::<T::V>::empty());
    assert(goal == prepend(items.deep_view(), goal)) by {
        match goal.outcome {
            Ok(values) => {
                assert(Seq::<T::V>::empty() + values =~= values);
            },
            Err(_) => {},
        }
    }
    while i < count
        invariant
            i <= count,
            goal == decode_elements::<T>(old(reader)@, count as nat),
            goal == prepend(
                items.deep_view(),
                decode_elements::<T>(reader@, (count - i) as nat),
            ),
        decreases count - i,
    {
        let ghost before = items.deep_view();
        let ghost first = T::decoding(reader@);
        let ghost pending = decode_elements::<T>(reader@, (count - i) as nat);
        match T::deserialize(reader) {
            Ok(item) => {
                items.push(item);
                proof {
                    let later = decode_elements::<T>(first.rest, (count - i - 1) as nat);
                    assert(pending == prepend(seq![item.deep_view()], later));
                    assert(items.deep_view() =~= before.push(item.deep_view()));
                    match later.outcome {
                        Ok(values) => {
                            assert(before + (seq![item.deep_view()] + values)
                                =~= items.deep_view() + values);
                        },
                        Err(_) => {},
                    }
                    assert(goal == prepend(items.deep_view(), later));
                }
            },
            Err(error) => {
                proof {
                    assert(pending == Decoding::<Seq<T::V>>::failed(error, first.rest));
                }
                return Err(error);
            },
        }
        i += 1;
    }
    proof {
        assert(items.deep_view() + Seq::<T::V>::empty() =~= items.deep_view());
    }
    Ok(items)
}

} // verus!
