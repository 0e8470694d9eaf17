//! The low-degree proof: for each FRI layer the evaluations that the prover
//! opens at the queried positions with their opening proof, and the
//! remainder polynomial that is left when folding stops.

use crate::codec::{
    copy_bytes, decode_block, decode_u8, encode_block, lemma_decode_block,
    lemma_decode_block_bounds, lemma_encode_decoded_block, lemma_skip_skip, lemma_take_add,
    write_block, write_u8, DeserializationError, InvalidValue, LengthPrefix, SliceReader,
};
use vstd::prelude::*;

verus! {

/// What a `FriProofLayer` value holds.
pub struct FriProofLayerView {
    pub paths: Seq<u8>,
    pub values: Seq<u8>,
}

impl FriProofLayerView {
    /// There is at least one value, and each of the two byte strings has a
    /// length that fits in 32 bits.
    pub open spec fn valid(self) -> bool {
        self.paths.len() <= 0xffff_ffff && 0 < self.values.len() <= 0xffff_ffff
    }

    /// The values as a block, then the paths as a block, each with a 32-bit length.
    pub open spec fn encode(self) -> Seq<u8> {
        encode_block(LengthPrefix::U32, self.values) + encode_block(LengthPrefix::U32, self.paths)
    }

    /// The layer at the head of `s`. A layer without values is refused.
    pub open spec fn decode(s: Seq<u8>) -> Result<(FriProofLayerView, nat), DeserializationError> {
        match decode_block(LengthPrefix::U32, s) {
            Err(e) => Err(e),
            Ok((values, n)) => if values.len() == 0 {
                Err(DeserializationError::InvalidValue(InvalidValue::FriLayerValues))
            } else {
                match decode_block(LengthPrefix::U32, s.skip(n as int)) {
                    Err(e) => Err(e),
                    Ok((paths, m)) => Ok((FriProofLayerView { paths, values }, n + m)),
                }
            },
        }
    }

    /// Decoding undoes `encode`, whatever follows.
    pub proof fn lemma_decode_encode(self, rest: Seq<u8>)
        requires
            self.valid(),
        ensures
            Self::decode(self.encode() + rest) == Ok::<
                (FriProofLayerView, nat),
                DeserializationError,
            >((self, self.encode().len())),
            (self.encode() + rest).skip(self.encode().len() as int) == rest,
    {
        let first = encode_block(LengthPrefix::U32, self.values);
        let second = encode_block(LengthPrefix::U32, self.paths);
        let s = self.encode() + rest;
        assert(s =~= first + (second + rest));
        lemma_decode_block(LengthPrefix::U32, self.values, second + rest);
        lemma_decode_block(LengthPrefix::U32, self.paths, rest);
        assert(s.skip(self.encode().len() as int) =~= rest);
    }

    /// The layers one after the other.
    pub open spec fn encode_all(items: Seq<FriProofLayerView>) -> Seq<u8>
        decreases items.len(),
    {
        if items.len() == 0 {
            Seq::empty()
        } else {
            Self::encode_all(items.drop_last()) + items.last().encode()
        }
    }

    /// The `count` layers at the head of `s`.
    pub open spec fn decode_all(s: Seq<u8>, count: nat) -> Result<
        (Seq<FriProofLayerView>, nat),
        DeserializationError,
    >
        decreases count,
    {
        if count == 0 {
            Ok((Seq::empty(), 0))
        } else {
            match Self::decode_all(s, (count - 1) as nat) {
                Err(e) => Err(e),
                Ok((items, n)) => match Self::decode(s.skip(n as int)) {
                    Err(e) => Err(e),
                    Ok((item, m)) => Ok((items.push(item), n + m)),
                },
            }
        }
    }

    /// Every item is valid.
    pub open spec fn all_valid(items: Seq<FriProofLayerView>) -> bool {
        forall|i: int| 0 <= i < items.len() ==> (#[trigger] items[i]).valid()
    }

    /// Decoding undoes `encode_all`, whatever follows.
    pub proof fn lemma_decode_encode_all(items: Seq<FriProofLayerView>, rest: Seq<u8>)
        requires
            Self::all_valid(items),
        ensures
            Self::decode_all(Self::encode_all(items) + rest, items.len()) == Ok::<
                (Seq<FriProofLayerView>, nat),
                DeserializationError,
            >((items, Self::encode_all(items).len())),
            (Self::encode_all(items) + rest).skip(Self::encode_all(items).len() as int) == rest,
        decreases items.len(),
    {
        let s = Self::encode_all(items) + rest;
        if items.len() == 0 {
            assert(s.skip(0) =~= rest);
            assert(items =~= Seq::<FriProofLayerView>::empty());
        } else {
            let front = items.drop_last();
            let last = items.last();
            let head = Self::encode_all(front);
            let tail = last.encode() + rest;
            assert(Self::all_valid(front)) by {
                assert forall|i: int| 0 <= i < front.len() implies (
                #[trigger] front[i]).valid() by {
                    assert(front[i] == items[i]);
                }
            }
            assert(last.valid()) by {
                assert(items[items.len() - 1].valid());
            }
            assert(s == head + tail) by {
                assert(s =~= head + tail);
            }
            Self::lemma_decode_encode_all(front, tail);
            last.lemma_decode_encode(rest);
            assert(Self::decode_all(s, front.len()) == Ok::<
                (Seq<FriProofLayerView>, nat),
                DeserializationError,
            >((front, head.len())));
            assert(s.skip(head.len() as int) == tail);
            assert(Self::decode(tail) == Ok::<(FriProofLayerView, nat), DeserializationError>(
                (last, last.encode().len()),
            ));
            assert(front.push(last) == items) by {
                assert(front.push(last) =~= items);
            }
            assert(Self::encode_all(items).len() == head.len() + last.encode().len());
            assert(Self::decode_all(s, items.len()) == Ok::<
                (Seq<FriProofLayerView>, nat),
                DeserializationError,
            >((front.push(last), head.len() + last.encode().len())));
            assert(s.skip(Self::encode_all(items).len() as int) == rest) by {
                assert(tail.skip(last.encode().len() as int) == rest);
                assert(s.skip(head.len() as int).skip(last.encode().len() as int) =~= s.skip(
                    (head.len() + last.encode().len()) as int,
                ));
            }
        }
    }

    /// What `decode` reads is what `encode` writes.
    pub proof fn lemma_encode_decoded(s: Seq<u8>)
        ensures
            Self::decode(s) matches Ok((value, n)) ==> value.encode() == s.take(n as int),
    {
        if let Ok((value, total)) = Self::decode(s) {
            let n = decode_block(LengthPrefix::U32, s).unwrap().1;
            let m = decode_block(LengthPrefix::U32, s.skip(n as int)).unwrap().1;
            lemma_decode_block_bounds(LengthPrefix::U32, s);
            lemma_decode_block_bounds(LengthPrefix::U32, s.skip(n as int));
            lemma_encode_decoded_block(LengthPrefix::U32, s);
            lemma_encode_decoded_block(LengthPrefix::U32, s.skip(n as int));
            lemma_take_add(s, n, m);
        }
    }

    /// What `decode` accepts is valid and lies within `s`.
    pub proof fn lemma_decode_bounds(s: Seq<u8>)
        ensures
            Self::decode(s) matches Ok((value, n)) ==> value.valid() && n <= s.len(),
    {
        lemma_decode_block_bounds(LengthPrefix::U32, s);
        if let Ok((_, n)) = decode_block(LengthPrefix::U32, s) {
            lemma_decode_block_bounds(LengthPrefix::U32, s.skip(n as int));
        }
    }

    /// What `decode_all` accepts is `count` valid items that lie within `s`.
    pub proof fn lemma_decode_all_bounds(s: Seq<u8>, count: nat)
        ensures
            Self::decode_all(s, count) matches Ok((items, n)) ==> items.len() == count
                && Self::all_valid(items) && n <= s.len(),
        decreases count,
    {
        if count > 0 {
            Self::lemma_decode_all_bounds(s, (count - 1) as nat);
            if let Ok((items, n)) = Self::decode_all(s, (count - 1) as nat) {
                Self::lemma_decode_bounds(s.skip(n as int));
            }
        }
    }

    /// What `decode_all` reads is what `encode_all` writes.
    pub proof fn lemma_encode_decoded_all(s: Seq<u8>, count: nat)
        ensures
            Self::decode_all(s, count) matches Ok((items, n)) ==> Self::encode_all(items)
                == s.take(n as int),
        decreases count,
    {
        if let Ok((items, total)) = Self::decode_all(s, count) {
            if count == 0 {
                assert(s.take(0) =~= Seq::<u8>::empty());
            } else {
                let (front, n) = Self::decode_all(s, (count - 1) as nat).unwrap();
                let (item, m) = Self::decode(s.skip(n as int)).unwrap();
                Self::lemma_encode_decoded_all(s, (count - 1) as nat);
                Self::lemma_decode_all_bounds(s, (count - 1) as nat);
                Self::lemma_decode_bounds(s.skip(n as int));
                Self::lemma_encode_decoded(s.skip(n as int));
                lemma_take_add(s, n, m);
                assert(items.drop_last() =~= front);
                assert(items.last() == item);
            }
        }
    }

    /// Once decoding has failed, asking for more items fails in the same way.
    pub proof fn lemma_decode_all_fails(s: Seq<u8>, count: nat, more: nat)
        requires
            Self::decode_all(s, count) is Err,
            count <= more,
        ensures
            Self::decode_all(s, more) == Self::decode_all(s, count),
        decreases more,
    {
        if count < more {
            Self::lemma_decode_all_fails(s, count, (more - 1) as nat);
        }
    }
}

/// The views of the layers in `items`, in the same order.
pub open spec fn layer_views(items: Seq<FriProofLayer>) -> Seq<FriProofLayerView> {
    items.map_values(|q: FriProofLayer| q@)
}

/// What the prover opens of one FRI layer: the queried evaluations and their opening proof.
#[derive(Debug, PartialEq, Eq)]
pub struct FriProofLayer {
    paths: Vec<u8>,
    values: Vec<u8>,
}

impl View for FriProofLayer {
    type V = FriProofLayerView;

    closed spec fn view(&self) -> FriProofLayerView {
        FriProofLayerView { paths: self.paths@, values: self.values@ }
    }
}

impl Clone for FriProofLayer {
    fn clone(&self) -> (copy: Self)
        ensures
            copy@ == self@,
    {
        proof {
            use_type_invariant(self);
        }
        FriProofLayer {
            paths: copy_bytes(self.paths.as_slice()),
            values: copy_bytes(self.values.as_slice()),
        }
    }
}

impl FriProofLayer {
    /// Skipping the first block and then the second skips both.
    proof fn lemma_read_steps(s: Seq<u8>)
        ensures
            decode_block(LengthPrefix::U32, s) matches Ok((_, n)) ==> (decode_block(
                LengthPrefix::U32,
                s.skip(n as int),
            ) matches Ok((_, m)) ==> s.skip(n as int).skip(m as int) == s.skip((n + m) as int)),
    {
        lemma_decode_block_bounds(LengthPrefix::U32, s);
        if let Ok((_, n)) = decode_block(LengthPrefix::U32, s) {
            lemma_decode_block_bounds(LengthPrefix::U32, s.skip(n as int));
            if let Ok((_, m)) = decode_block(LengthPrefix::U32, s.skip(n as int)) {
                assert(s.skip(n as int).skip(m as int) =~= s.skip((n + m) as int));
            }
        }
    }

    #[verifier::type_invariant]
    pub open spec fn inv(self) -> bool {
        self@.valid()
    }

    /// A layer with the given opening proof and queried evaluations, unless
    /// there is no evaluation or one of the two is too long to be encoded.
    pub fn new(paths: Vec<u8>, values: Vec<u8>) -> (layer: Option<FriProofLayer>)
        ensures
            match layer {
                Some(q) => q@ == (FriProofLayerView { paths: paths@, values: values@ })
                    && q@.valid(),
                None => !(FriProofLayerView { paths: paths@, values: values@ }).valid(),
            },
    {
        if paths.len() > LengthPrefix::U32.max_len() || values.len() > LengthPrefix::U32.max_len()
            || values.len() == 0 {
            None
        } else {
            Some(FriProofLayer { paths, values })
        }
    }

    /// The batched opening proof.
    pub fn paths(&self) -> (paths: &[u8])
        ensures
            paths@ == self@.paths,
            self@.valid(),
    {
        proof {
            use_type_invariant(self);
        }
        self.paths.as_slice()
    }

    /// The queried evaluations.
    pub fn values(&self) -> (values: &[u8])
        ensures
            values@ == self@.values,
            self@.valid(),
    {
        proof {
            use_type_invariant(self);
        }
        self.values.as_slice()
    }

    /// Appends the layer to `target`.
    pub fn write_into(&self, target: &mut Vec<u8>)
        ensures
            final(target)@ == old(target)@ + self@.encode(),
            self@.valid(),
    {
        proof {
            use_type_invariant(self);
        }
        write_block(target, LengthPrefix::U32, self.values.as_slice());
        write_block(target, LengthPrefix::U32, self.paths.as_slice());
        assert(target@ =~= old(target)@ + self@.encode());
    }

    /// Reads a layer from `source`.
    pub fn read_from(source: &mut SliceReader) -> (result: Result<
        FriProofLayer,
        DeserializationError,
    >)
        ensures
            match FriProofLayerView::decode(old(source).remaining()) {
                Ok((value, n)) => {
                    &&& result matches Ok(layer)
                    &&& layer@ == value
                    &&& value.valid()
                    &&& final(source).remaining() == old(source).remaining().skip(n as int)
                },
                Err(e) => result == Err::<FriProofLayer, DeserializationError>(e),
            },
    {
        proof {
            Self::lemma_read_steps(source.remaining());
        }
        let values = source.read_block(LengthPrefix::U32)?;
        if values.len() == 0 {
            return Err(DeserializationError::InvalidValue(InvalidValue::FriLayerValues));
        }
        let paths = source.read_block(LengthPrefix::U32)?;
        Ok(FriProofLayer { paths, values })
    }

    /// Appends the layers to `target`, one after the other.
    pub fn write_many(items: &Vec<FriProofLayer>, target: &mut Vec<u8>)
        ensures
            final(target)@ == old(target)@ + FriProofLayerView::encode_all(layer_views(items@)),
            FriProofLayerView::all_valid(layer_views(items@)),
    {
        let mut i: usize = 0;
        assert(layer_views(items@).take(0) =~= Seq::<FriProofLayerView>::empty());
        while i < items.len()
            invariant
                i <= items.len(),
                target@ == old(target)@ + FriProofLayerView::encode_all(
                    layer_views(items@).take(i as int),
                ),
                FriProofLayerView::all_valid(layer_views(items@).take(i as int)),
            decreases items.len() - i,
        {
            items[i].write_into(target);
            proof {
                let upto = layer_views(items@).take(i + 1);
                assert(upto.drop_last() =~= layer_views(items@).take(i as int));
                assert(upto.last() == items@[i as int]@);
                assert(target@ =~= old(target)@ + FriProofLayerView::encode_all(upto));
                assert forall|j: int| 0 <= j < upto.len() implies (#[trigger] upto[j]).valid() by {
                    if j < i {
                        assert(upto[j] == layer_views(items@).take(i as int)[j]);
                    }
                }
            }
            i = i + 1;
        }
        assert(layer_views(items@).take(i as int) =~= layer_views(items@));
    }

    /// Reads `count` layers from `source`.
    pub fn read_many(source: &mut SliceReader, count: usize) -> (result: Result<
        Vec<FriProofLayer>,
        DeserializationError,
    >)
        ensures
            match FriProofLayerView::decode_all(old(source).remaining(), count as nat) {
                Ok((value, n)) => {
                    &&& result matches Ok(items)
                    &&& layer_views(items@) == value
                    &&& FriProofLayerView::all_valid(value)
                    &&& final(source).remaining() == old(source).remaining().skip(n as int)
                },
                Err(e) => result == Err::<Vec<FriProofLayer>, DeserializationError>(e),
            },
    {
        let mut items: Vec<FriProofLayer> = Vec::new();
        let ghost start = source.remaining();
        let ghost mut consumed: nat = 0;
        let mut i: usize = 0;
        assert(layer_views(items@) =~= Seq::<FriProofLayerView>::empty());
        assert(start.skip(0) =~= start);
        while i < count
            invariant
                i <= count,
                items@.len() == i,
                start == old(source).remaining(),
                FriProofLayerView::decode_all(start, i as nat) == Ok::<
                    (Seq<FriProofLayerView>, nat),
                    DeserializationError,
                >((layer_views(items@), consumed)),
                FriProofLayerView::all_valid(layer_views(items@)),
                consumed <= start.len(),
                source.remaining() == start.skip(consumed as int),
            decreases count - i,
        {
            let ghost before = layer_views(items@);
            match FriProofLayer::read_from(source) {
                Err(e) => {
                    proof {
                        FriProofLayerView::lemma_decode_all_fails(
                            start,
                            (i + 1) as nat,
                            count as nat,
                        );
                    }
                    return Err(e);
                },
                Ok(item) => {
                    proof {
                        let n = FriProofLayerView::decode(start.skip(consumed as int)).unwrap().1;
                        FriProofLayerView::lemma_decode_bounds(start.skip(consumed as int));
                        assert(start.skip(consumed as int).skip(n as int) =~= start.skip(
                            (consumed + n) as int,
                        ));
                        consumed = consumed + n;
                    }
                    items.push(item);
                    proof {
                        assert(layer_views(items@) =~= before.push(item@));
                    }
                },
            }
            i = i + 1;
        }
        Ok(items)
    }
}

// FRI PROOF
// ================================================================================================

/// What a `FriProof` value holds.
pub struct FriProofView {
    pub layers: Seq<FriProofLayerView>,
    pub remainder: Seq<u8>,
    pub num_partitions: u8,
}

impl FriProofView {
    /// There are at most 255 layers, each of them valid, and the remainder
    /// takes at most 65535 bytes.
    pub open spec fn valid(self) -> bool {
        &&& self.layers.len() <= 255
        &&& FriProofLayerView::all_valid(self.layers)
        &&& self.remainder.len() <= 0xffff
    }

    /// The number of layers in one byte, the layers, the remainder as a block
    /// with a 16-bit length, and the number of partitions in one byte.
    pub open spec fn encode(self) -> Seq<u8> {
        seq![self.layers.len() as u8] + FriProofLayerView::encode_all(self.layers) + encode_block(
            LengthPrefix::U16,
            self.remainder,
        ) + seq![self.num_partitions]
    }

    /// The low-degree proof at the head of `s`.
    pub open spec fn decode(s: Seq<u8>) -> Result<(FriProofView, nat), DeserializationError> {
        match decode_u8(s) {
            Err(e) => Err(e),
            Ok((count, _)) => match FriProofLayerView::decode_all(s.skip(1), count as nat) {
                Err(e) => Err(e),
                Ok((layers, n)) => match decode_block(LengthPrefix::U16, s.skip((1 + n) as int)) {
                    Err(e) => Err(e),
                    Ok((remainder, m)) => match decode_u8(s.skip((1 + n + m) as int)) {
                        Err(e) => Err(e),
                        Ok((num_partitions, _)) => Ok(
                            (FriProofView { layers, remainder, num_partitions }, 1 + n + m + 1),
                        ),
                    },
                },
            },
        }
    }

    /// Decoding undoes `encode`, whatever follows.
    pub proof fn lemma_decode_encode(self, rest: Seq<u8>)
        requires
            self.valid(),
        ensures
            Self::decode(self.encode() + rest) == Ok::<(FriProofView, nat), DeserializationError>(
                (self, self.encode().len()),
            ),
            (self.encode() + rest).skip(self.encode().len() as int) == rest,
    {
        let s = self.encode() + rest;
        let layers = FriProofLayerView::encode_all(self.layers);
        let remainder = encode_block(LengthPrefix::U16, self.remainder);
        let last = seq![self.num_partitions];
        let after_count = layers + (remainder + (last + rest));
        assert(s.skip(1) == after_count) by {
            assert(s.skip(1) =~= after_count);
        }
        FriProofLayerView::lemma_decode_encode_all(self.layers, remainder + (last + rest));
        lemma_decode_block(LengthPrefix::U16, self.remainder, last + rest);
        let n = layers.len();
        let m = remainder.len();
        assert(s.skip((1 + n) as int) == remainder + (last + rest)) by {
            assert(s.skip(1).skip(n as int) =~= s.skip((1 + n) as int));
        }
        assert(s.skip((1 + n + m) as int) == last + rest) by {
            assert(s.skip((1 + n) as int).skip(m as int) =~= s.skip((1 + n + m) as int));
        }
        assert(s.skip(self.encode().len() as int) =~= rest);
    }

    /// What `decode` reads is what `encode` writes.
    pub proof fn lemma_encode_decoded(s: Seq<u8>)
        ensures
            Self::decode(s) matches Ok((value, n)) ==> value.encode() == s.take(n as int),
    {
        if let Ok((value, total)) = Self::decode(s) {
            let count = decode_u8(s).unwrap().0;
            let n = FriProofLayerView::decode_all(s.skip(1), count as nat).unwrap().1;
            let m = decode_block(LengthPrefix::U16, s.skip((1 + n) as int)).unwrap().1;
            FriProofLayerView::lemma_decode_all_bounds(s.skip(1), count as nat);
            FriProofLayerView::lemma_encode_decoded_all(s.skip(1), count as nat);
            lemma_decode_block_bounds(LengthPrefix::U16, s.skip((1 + n) as int));
            lemma_encode_decoded_block(LengthPrefix::U16, s.skip((1 + n) as int));
            assert(seq![value.layers.len() as u8] == s.take(1)) by {
                assert(seq![value.layers.len() as u8] =~= s.take(1));
            }
            lemma_skip_skip(s, 1, n);
            lemma_take_add(s, 1, n);
            lemma_skip_skip(s, 1 + n, m);
            lemma_take_add(s, 1 + n, m);
            assert(s.skip((1 + n + m) as int).take(1) == seq![value.num_partitions]) by {
                assert(s.skip((1 + n + m) as int).take(1) =~= seq![value.num_partitions]);
            }
            lemma_take_add(s, 1 + n + m, 1);
        }
    }

    /// What `decode` accepts is valid and lies within `s`.
    pub proof fn lemma_decode_bounds(s: Seq<u8>)
        ensures
            Self::decode(s) matches Ok((value, n)) ==> value.valid() && n <= s.len(),
    {
        if let Ok((count, _)) = decode_u8(s) {
            FriProofLayerView::lemma_decode_all_bounds(s.skip(1), count as nat);
            if let Ok((_, n)) = FriProofLayerView::decode_all(s.skip(1), count as nat) {
                lemma_decode_block_bounds(LengthPrefix::U16, s.skip((1 + n) as int));
            }
        }
    }
}

/// Low-degree proof for the composition polynomial.
#[derive(Debug, PartialEq, Eq)]
pub struct FriProof {
    layers: Vec<FriProofLayer>,
    remainder: Vec<u8>,
    num_partitions: u8,
}

impl View for FriProof {
    type V = FriProofView;

    closed spec fn view(&self) -> FriProofView {
        FriProofView {
            layers: layer_views(self.layers@),
            remainder: self.remainder@,
            num_partitions: self.num_partitions,
        }
    }
}

impl Clone for FriProof {
    fn clone(&self) -> (copy: Self)
        ensures
            copy@ == self@,
    {
        proof {
            use_type_invariant(self);
        }
        let mut layers: Vec<FriProofLayer> = Vec::new();
        let mut i: usize = 0;
        while i < self.layers.len()
            invariant
                i <= self.layers.len(),
                layer_views(layers@) == layer_views(self.layers@).take(i as int),
            decreases self.layers.len() - i,
        {
            let ghost before = layer_views(layers@);
            layers.push(self.layers[i].clone());
            assert(layer_views(layers@) =~= before.push(self.layers@[i as int]@));
            assert(layer_views(self.layers@).take(i + 1) =~= before.push(self.layers@[i as int]@));
            i = i + 1;
        }
        assert(layer_views(self.layers@).take(i as int) =~= layer_views(self.layers@));
        FriProof {
            layers,
            remainder: copy_bytes(self.remainder.as_slice()),
            num_partitions: self.num_partitions,
        }
    }
}

impl FriProof {
    #[verifier::type_invariant]
    pub open spec fn inv(self) -> bool {
        self@.valid()
    }

    /// A low-degree proof with the given layers, remainder and number of
    /// partitions, unless there are more than 255 layers or the remainder
    /// takes more than 65535 bytes.
    pub fn new(layers: Vec<FriProofLayer>, remainder: Vec<u8>, num_partitions: u8) -> (made:
        Option<FriProof>)
        ensures
            match made {
                Some(p) => p@ == (FriProofView {
                    layers: layer_views(layers@),
                    remainder: remainder@,
                    num_partitions,
                }) && p@.valid(),
                None => layers@.len() > 255 || remainder@.len() > 0xffff,
            },
    {
        if layers.len() > 255 || remainder.len() > LengthPrefix::U16.max_len() {
            return None;
        }
        let mut i: usize = 0;
        while i < layers.len()
            invariant
                i <= layers.len(),
                forall|j: int| 0 <= j < i ==> (#[trigger] layer_views(layers@)[j]).valid(),
            decreases layers.len() - i,
        {
            let layer = &layers[i];
            proof {
                use_type_invariant(layer);
            }
            i = i + 1;
        }
        Some(FriProof { layers, remainder, num_partitions })
    }

    /// A proof without layers and with an empty remainder.
    pub fn new_dummy() -> (dummy: FriProof)
        ensures
            dummy@ == (FriProofView {
                layers: Seq::<FriProofLayerView>::empty(),
                remainder: Seq::<u8>::empty(),
                num_partitions: 0,
            }),
    {
        let layers: Vec<FriProofLayer> = Vec::new();
        assert(layer_views(layers@) =~= Seq::<FriProofLayerView>::empty());
        FriProof { layers, remainder: Vec::new(), num_partitions: 0 }
    }

    /// Number of layers.
    pub fn num_layers(&self) -> (n: usize)
        ensures
            n == self@.layers.len(),
            self@.valid(),
    {
        proof {
            use_type_invariant(self);
        }
        self.layers.len()
    }

    /// The layers, first folded first.
    pub fn layers(&self) -> (layers: &Vec<FriProofLayer>)
        ensures
            layer_views(layers@) == self@.layers,
    {
        &self.layers
    }

    /// The remainder polynomial.
    pub fn remainder(&self) -> (remainder: &[u8])
        ensures
            remainder@ == self@.remainder,
    {
        self.remainder.as_slice()
    }

    /// Number of partitions, as it is stored.
    pub fn num_partitions(&self) -> (n: u8)
        ensures
            n == self@.num_partitions,
    {
        self.num_partitions
    }

    /// Appends the proof to `target`.
    pub fn write_into(&self, target: &mut Vec<u8>)
        ensures
            final(target)@ == old(target)@ + self@.encode(),
            self@.valid(),
    {
        proof {
            use_type_invariant(self);
        }
        write_u8(target, self.layers.len() as u8);
        FriProofLayer::write_many(&self.layers, target);
        write_block(target, LengthPrefix::U16, self.remainder.as_slice());
        write_u8(target, self.num_partitions);
        assert(target@ =~= old(target)@ + self@.encode());
    }

    /// Reads a proof from `source`.
    pub fn read_from(source: &mut SliceReader) -> (result: Result<FriProof, DeserializationError>)
        ensures
            match FriProofView::decode(old(source).remaining()) {
                Ok((value, n)) => {
                    &&& result matches Ok(read)
                    &&& read@ == value
                    &&& value.valid()
                    &&& final(source).remaining() == old(source).remaining().skip(n as int)
                },
                Err(e) => result == Err::<FriProof, DeserializationError>(e),
            },
    {
        let ghost s = source.remaining();
        proof {
            FriProofView::lemma_decode_bounds(s);
        }
        let count = source.read_u8()?;
        proof {
            FriProofLayerView::lemma_decode_all_bounds(s.skip(1), count as nat);
        }
        let layers = FriProofLayer::read_many(source, count as usize)?;
        let ghost n = FriProofLayerView::decode_all(s.skip(1), count as nat).unwrap().1;
        proof {
            lemma_skip_skip(s, 1, n);
            lemma_decode_block_bounds(LengthPrefix::U16, s.skip((1 + n) as int));
        }
        let remainder = source.read_block(LengthPrefix::U16)?;
        let ghost m = (2 + remainder@.len()) as nat;
        proof {
            lemma_skip_skip(s, 1 + n, m);
        }
        let num_partitions = source.read_u8()?;
        proof {
            lemma_skip_skip(s, 1 + n + m, 1);
        }
        Ok(FriProof { layers, remainder, num_partitions })
    }
}

} // verus!
