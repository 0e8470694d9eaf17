//! Decommitments: the values that the prover opens at the queried positions,
//! and the batched opening proof that ties them to a commitment.

use crate::codec::{
    copy_bytes, decode_block, encode_block, lemma_decode_block, lemma_decode_block_bounds,
    lemma_encode_decoded_block, lemma_take_add, write_block, DeserializationError, LengthPrefix,
    SliceReader,
};
use vstd::prelude::*;

verus! {

/// What a `Queries` value holds.
pub struct QueriesView {
    pub paths: Seq<u8>,
    pub values: Seq<u8>,
}

impl QueriesView {
    /// Each of the two byte strings has a length that fits in 32 bits.
    pub open spec fn valid(self) -> bool {
        self.paths.len() <= 0xffff_ffff && self.values.len() <= 0xffff_ffff
    }

    /// The values as a block, then the paths as a block, each with a 32-bit length.
    pub open spec fn encode(self) -> Seq<u8> {
        encode_block(LengthPrefix::U32, self.values) + encode_block(LengthPrefix::U32, self.paths)
    }

    /// The decommitment at the head of `s`.
    pub open spec fn decode(s: Seq<u8>) -> Result<(QueriesView, nat), DeserializationError> {
        match decode_block(LengthPrefix::U32, s) {
            Err(e) => Err(e),
            Ok((values, n)) => match decode_block(LengthPrefix::U32, s.skip(n as int)) {
                Err(e) => Err(e),
                Ok((paths, m)) => Ok((QueriesView { paths, values }, n + m)),
            },
        }
    }

    /// Decoding undoes `encode`, whatever follows.
    pub proof fn lemma_decode_encode(self, rest: Seq<u8>)
        requires
            self.valid(),
        ensures
            Self::decode(self.encode() + rest) == Ok::<(QueriesView, nat), DeserializationError>(
                (self, self.encode().len()),
            ),
            (self.encode() + rest).skip(self.encode().len() as int) == rest,
    {
        let first = encode_block(LengthPrefix::U32, self.values);
        let second = encode_block(LengthPrefix::U32, self.paths);
        let s = self.encode() + rest;
        assert(s =~= first + (second + rest));
        lemma_decode_block(LengthPrefix::U32, self.values, second + rest);
        lemma_decode_block(LengthPrefix::U32, self.paths, rest);
        assert(s.skip(self.encode().len() as int) =~= rest);
    }

    /// The decommitments one after the other.
    pub open spec fn encode_all(items: Seq<QueriesView>) -> Seq<u8>
        decreases items.len(),
    {
        if items.len() == 0 {
            Seq::empty()
        } else {
            Self::encode_all(items.drop_last()) + items.last().encode()
        }
    }

    /// The `count` decommitments at the head of `s`.
    pub open spec fn decode_all(s: Seq<u8>, count: nat) -> Result<
        (Seq<QueriesView>, nat),
        DeserializationError,
    >
        decreases count,
    {
        if count == 0 {
            Ok((Seq::empty(), 0))
        } else {
            match Self::decode_all(s, (count - 1) as nat) {
                Err(e) => Err(e),
                Ok((items, n)) => match Self::decode(s.skip(n as int)) {
                    Err(e) => Err(e),
                    Ok((item, m)) => Ok((items.push(item), n + m)),
                },
            }
        }
    }

    /// Every item is valid.
    pub open spec fn all_valid(items: Seq<QueriesView>) -> bool {
        forall|i: int| 0 <= i < items.len() ==> (#[trigger] items[i]).valid()
    }

    /// Decoding undoes `encode_all`, whatever follows.
    pub proof fn lemma_decode_encode_all(items: Seq<QueriesView>, rest: Seq<u8>)
        requires
            Self::all_valid(items),
        ensures
            Self::decode_all(Self::encode_all(items) + rest, items.len()) == Ok::<
                (Seq<QueriesView>, nat),
                DeserializationError,
            >((items, Self::encode_all(items).len())),
            (Self::encode_all(items) + rest).skip(Self::encode_all(items).len() as int) == rest,
        decreases items.len(),
    {
        let s = Self::encode_all(items) + rest;
        if items.len() == 0 {
            assert(s.skip(0) =~= rest);
            assert(items =~= Seq::<QueriesView>::empty());
        } else {
            let front = items.drop_last();
            let last = items.last();
            let head = Self::encode_all(front);
            let tail = last.encode() + rest;
            assert(Self::all_valid(front)) by {
                assert forall|i: int| 0 <= i < front.len() implies (
                #[trigger] front[i]).valid() by {
                    assert(front[i] == items[i]);
                }
            }
            assert(last.valid()) by {
                assert(items[items.len() - 1].valid());
            }
            assert(s == head + tail) by {
                assert(s =~= head + tail);
            }
            Self::lemma_decode_encode_all(front, tail);
            last.lemma_decode_encode(rest);
            assert(Self::decode_all(s, front.len()) == Ok::<
                (Seq<QueriesView>, nat),
                DeserializationError,
            >((front, head.len())));
            assert(s.skip(head.len() as int) == tail);
            assert(Self::decode(tail) == Ok::<(QueriesView, nat), DeserializationError>(
                (last, last.encode().len()),
            ));
            assert(front.push(last) == items) by {
                assert(front.push(last) =~= items);
            }
            assert(Self::encode_all(items).len() == head.len() + last.encode().len());
            assert(Self::decode_all(s, items.len()) == Ok::<
                (Seq<QueriesView>, nat),
                DeserializationError,
            >((front.push(last), head.len() + last.encode().len())));
            assert(s.skip(Self::encode_all(items).len() as int) == rest) by {
                assert(tail.skip(last.encode().len() as int) == rest);
                assert(s.skip(head.len() as int).skip(last.encode().len() as int) =~= s.skip(
                    (head.len() + last.encode().len()) as int,
                ));
            }
        }
    }

    /// What `decode` reads is what `encode` writes.
    pub proof fn lemma_encode_decoded(s: Seq<u8>)
        ensures
            Self::decode(s) matches Ok((value, n)) ==> value.encode() == s.take(n as int),
    {
        if let Ok((value, total)) = Self::decode(s) {
            let n = decode_block(LengthPrefix::U32, s).unwrap().1;
            let m = decode_block(LengthPrefix::U32, s.skip(n as int)).unwrap().1;
            lemma_decode_block_bounds(LengthPrefix::U32, s);
            lemma_decode_block_bounds(LengthPrefix::U32, s.skip(n as int));
            lemma_encode_decoded_block(LengthPrefix::U32, s);
            lemma_encode_decoded_block(LengthPrefix::U32, s.skip(n as int));
            lemma_take_add(s, n, m);
        }
    }

    /// What `decode` accepts is valid and lies within `s`.
    pub proof fn lemma_decode_bounds(s: Seq<u8>)
        ensures
            Self::decode(s) matches Ok((value, n)) ==> value.valid() && n <= s.len(),
    {
        lemma_decode_block_bounds(LengthPrefix::U32, s);
        if let Ok((_, n)) = decode_block(LengthPrefix::U32, s) {
            lemma_decode_block_bounds(LengthPrefix::U32, s.skip(n as int));
        }
    }

    /// What `decode_all` accepts is `count` valid items that lie within `s`.
    pub proof fn lemma_decode_all_bounds(s: Seq<u8>, count: nat)
        ensures
            Self::decode_all(s, count) matches Ok((items, n)) ==> items.len() == count
                && Self::all_valid(items) && n <= s.len(),
        decreases count,
    {
        if count > 0 {
            Self::lemma_decode_all_bounds(s, (count - 1) as nat);
            if let Ok((items, n)) = Self::decode_all(s, (count - 1) as nat) {
                Self::lemma_decode_bounds(s.skip(n as int));
            }
        }
    }

    /// What `decode_all` reads is what `encode_all` writes.
    pub proof fn lemma_encode_decoded_all(s: Seq<u8>, count: nat)
        ensures
            Self::decode_all(s, count) matches Ok((items, n)) ==> Self::encode_all(items)
                == s.take(n as int),
        decreases count,
    {
        if let Ok((items, total)) = Self::decode_all(s, count) {
            if count == 0 {
                assert(s.take(0) =~= Seq::<u8>::empty());
            } else {
                let (front, n) = Self::decode_all(s, (count - 1) as nat).unwrap();
                let (item, m) = Self::decode(s.skip(n as int)).unwrap();
                Self::lemma_encode_decoded_all(s, (count - 1) as nat);
                Self::lemma_decode_all_bounds(s, (count - 1) as nat);
                Self::lemma_decode_bounds(s.skip(n as int));
                Self::lemma_encode_decoded(s.skip(n as int));
                lemma_take_add(s, n, m);
                assert(items.drop_last() =~= front);
                assert(items.last() == item);
            }
        }
    }

    /// Once decoding has failed, asking for more items fails in the same way.
    pub proof fn lemma_decode_all_fails(s: Seq<u8>, count: nat, more: nat)
        requires
            Self::decode_all(s, count) is Err,
            count <= more,
        ensures
            Self::decode_all(s, more) == Self::decode_all(s, count),
        decreases more,
    {
        if count < more {
            Self::lemma_decode_all_fails(s, count, (more - 1) as nat);
        }
    }
}

/// The views of the items of `items`, in the same order.
pub open spec fn views(items: Seq<Queries>) -> Seq<QueriesView> {
    items.map_values(|q: Queries| q@)
}

/// Decommitment of the values of one committed oracle at the queried positions.
#[derive(Debug, PartialEq, Eq)]
pub struct Queries {
    paths: Vec<u8>,
    values: Vec<u8>,
}

impl View for Queries {
    type V = QueriesView;

    closed spec fn view(&self) -> QueriesView {
        QueriesView { paths: self.paths@, values: self.values@ }
    }
}

impl Clone for Queries {
    fn clone(&self) -> (copy: Self)
        ensures
            copy@ == self@,
    {
        proof {
            use_type_invariant(self);
        }
        Queries {
            paths: copy_bytes(self.paths.as_slice()),
            values: copy_bytes(self.values.as_slice()),
        }
    }
}

impl Queries {
    /// Skipping the first block and then the second skips both.
    proof fn lemma_read_steps(s: Seq<u8>)
        ensures
            decode_block(LengthPrefix::U32, s) matches Ok((_, n)) ==> (decode_block(
                LengthPrefix::U32,
                s.skip(n as int),
            ) matches Ok((_, m)) ==> s.skip(n as int).skip(m as int) == s.skip((n + m) as int)),
    {
        lemma_decode_block_bounds(LengthPrefix::U32, s);
        if let Ok((_, n)) = decode_block(LengthPrefix::U32, s) {
            lemma_decode_block_bounds(LengthPrefix::U32, s.skip(n as int));
            if let Ok((_, m)) = decode_block(LengthPrefix::U32, s.skip(n as int)) {
                assert(s.skip(n as int).skip(m as int) =~= s.skip((n + m) as int));
            }
        }
    }

    #[verifier::type_invariant]
    pub open spec fn inv(self) -> bool {
        self@.valid()
    }

    /// A decommitment with the given opening proof and opened values, unless
    /// one of them is too long to be encoded.
    pub fn new(paths: Vec<u8>, values: Vec<u8>) -> (queries: Option<Queries>)
        ensures
            match queries {
                Some(q) => q@ == (QueriesView { paths: paths@, values: values@ }) && q@.valid(),
                None => !(QueriesView { paths: paths@, values: values@ }).valid(),
            },
    {
        if paths.len() > LengthPrefix::U32.max_len() || values.len() > LengthPrefix::U32.max_len() {
            None
        } else {
            Some(Queries { paths, values })
        }
    }

    /// The batched opening proof.
    pub fn paths(&self) -> (paths: &[u8])
        ensures
            paths@ == self@.paths,
            self@.valid(),
    {
        proof {
            use_type_invariant(self);
        }
        self.paths.as_slice()
    }

    /// The opened values.
    pub fn values(&self) -> (values: &[u8])
        ensures
            values@ == self@.values,
            self@.valid(),
    {
        proof {
            use_type_invariant(self);
        }
        self.values.as_slice()
    }

    /// Appends the decommitment to `target`.
    pub fn write_into(&self, target: &mut Vec<u8>)
        ensures
            final(target)@ == old(target)@ + self@.encode(),
            self@.valid(),
    {
        proof {
            use_type_invariant(self);
        }
        write_block(target, LengthPrefix::U32, self.values.as_slice());
        write_block(target, LengthPrefix::U32, self.paths.as_slice());
        assert(target@ =~= old(target)@ + self@.encode());
    }

    /// Reads a decommitment from `source`.
    pub fn read_from(source: &mut SliceReader) -> (result: Result<Queries, DeserializationError>)
        ensures
            match QueriesView::decode(old(source).remaining()) {
                Ok((value, n)) => {
                    &&& result matches Ok(queries)
                    &&& queries@ == value
                    &&& value.valid()
                    &&& final(source).remaining() == old(source).remaining().skip(n as int)
                },
                Err(e) => result == Err::<Queries, DeserializationError>(e),
            },
    {
        proof {
            Self::lemma_read_steps(source.remaining());
        }
        let values = source.read_block(LengthPrefix::U32)?;
        let paths = source.read_block(LengthPrefix::U32)?;
        Ok(Queries { paths, values })
    }

    /// Copies of the decommitments, in the same order.
    pub fn clone_many(items: &Vec<Queries>) -> (copies: Vec<Queries>)
        ensures
            views(copies@) == views(items@),
    {
        let mut copies: Vec<Queries> = Vec::new();
        let mut i: usize = 0;
        assert(views(copies@) =~= views(items@).take(0));
        while i < items.len()
            invariant
                i <= items.len(),
                views(copies@) == views(items@).take(i as int),
            decreases items.len() - i,
        {
            let ghost before = views(copies@);
            copies.push(items[i].clone());
            assert(views(copies@) =~= before.push(items@[i as int]@));
            assert(views(items@).take(i + 1) =~= before.push(items@[i as int]@));
            i = i + 1;
        }
        assert(views(items@).take(i as int) =~= views(items@));
        copies
    }

    /// Appends the decommitments to `target`, one after the other.
    pub fn write_many(items: &Vec<Queries>, target: &mut Vec<u8>)
        ensures
            final(target)@ == old(target)@ + QueriesView::encode_all(views(items@)),
            QueriesView::all_valid(views(items@)),
    {
        let mut i: usize = 0;
        assert(views(items@).take(0) =~= Seq::<QueriesView>::empty());
        while i < items.len()
            invariant
                i <= items.len(),
                target@ == old(target)@ + QueriesView::encode_all(views(items@).take(i as int)),
                QueriesView::all_valid(views(items@).take(i as int)),
            decreases items.len() - i,
        {
            items[i].write_into(target);
            proof {
                let upto = views(items@).take(i + 1);
                assert(upto.drop_last() =~= views(items@).take(i as int));
                assert(upto.last() == items@[i as int]@);
                assert(target@ =~= old(target)@ + QueriesView::encode_all(upto));
                assert forall|j: int| 0 <= j < upto.len() implies (#[trigger] upto[j]).valid() by {
                    if j < i {
                        assert(upto[j] == views(items@).take(i as int)[j]);
                    }
                }
            }
            i = i + 1;
        }
        assert(views(items@).take(i as int) =~= views(items@));
    }

    /// Reads `count` decommitments from `source`.
    pub fn read_many(source: &mut SliceReader, count: usize) -> (result: Result<
        Vec<Queries>,
        DeserializationError,
    >)
        ensures
            match QueriesView::decode_all(old(source).remaining(), count as nat) {
                Ok((value, n)) => {
                    &&& result matches Ok(items)
                    &&& views(items@) == value
                    &&& QueriesView::all_valid(value)
                    &&& final(source).remaining() == old(source).remaining().skip(n as int)
                },
                Err(e) => result == Err::<Vec<Queries>, DeserializationError>(e),
            },
    {
        let mut items: Vec<Queries> = Vec::new();
        let ghost start = source.remaining();
        let ghost mut consumed: nat = 0;
        let mut i: usize = 0;
        assert(views(items@) =~= Seq::<QueriesView>::empty());
        assert(start.skip(0) =~= start);
        while i < count
            invariant
                i <= count,
                items@.len() == i,
                start == old(source).remaining(),
                QueriesView::decode_all(start, i as nat) == Ok::<
                    (Seq<QueriesView>, nat),
                    DeserializationError,
                >((views(items@), consumed)),
                QueriesView::all_valid(views(items@)),
                consumed <= start.len(),
                source.remaining() == start.skip(consumed as int),
            decreases count - i,
        {
            let ghost before = views(items@);
            match Queries::read_from(source) {
                Err(e) => {
                    proof {
                        QueriesView::lemma_decode_all_fails(start, (i + 1) as nat, count as nat);
                    }
                    return Err(e);
                },
                Ok(item) => {
                    proof {
                        let n = QueriesView::decode(start.skip(consumed as int)).unwrap().1;
                        QueriesView::lemma_decode_bounds(start.skip(consumed as int));
                        assert(start.skip(consumed as int).skip(n as int) =~= start.skip(
                            (consumed + n) as int,
                        ));
                        consumed = consumed + n;
                    }
                    items.push(item);
                    proof {
                        assert(views(items@) =~= before.push(item@));
                    }
                },
            }
            i = i + 1;
        }
        Ok(items)
    }
}

} // verus!
