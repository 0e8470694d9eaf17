//! Shape of an execution trace: how its columns are split into segments,
//! how many rows it has, and the metadata that travels with it.

use crate::arith::{checked_pow2, floor_log2, lemma_power_of_two_log};
use crate::codec::{
    copy_bytes, decode_u8, write_u8, DeserializationError, InvalidValue, SliceReader,
};
use vstd::arithmetic::power2::is_pow2;
use vstd::prelude::*;

verus! {

/// Smallest admissible number of rows.
pub const MIN_TRACE_LENGTH: usize = 8;

/// Largest admissible number of columns, all segments together.
pub const MAX_TRACE_WIDTH: usize = 255;

/// Largest admissible number of metadata bytes.
pub const MAX_META_LENGTH: usize = 65535;

/// Largest admissible number of random elements for an auxiliary segment.
pub const MAX_RAND_SEGMENT_ELEMENTS: usize = 255;

/// True when `length` can be the number of rows of a trace: a power of two
/// that is at least 8.
pub fn is_trace_length(length: usize) -> (ok: bool)
    ensures
        ok == (length >= 8 && is_pow2(length as int)),
{
    if length < MIN_TRACE_LENGTH {
        return false;
    }
    let exponent = floor_log2(length as u128);
    proof {
        lemma_power_of_two_log(length as nat);
    }
    match checked_pow2(exponent as u8) {
        Some(power) => power == length,
        None => false,
    }
}

// TRACE LAYOUT
// ================================================================================================

/// What a `TraceLayout` value says, as numbers.
pub struct TraceLayoutView {
    pub main_width: nat,
    pub aux_width: nat,
    pub aux_rands: nat,
}

impl TraceLayoutView {
    /// The first inadmissible property of the layout; `None` when there is none.
    pub open spec fn fault(self) -> Option<InvalidValue> {
        if self.main_width == 0 {
            Some(InvalidValue::MainSegmentWidth)
        } else if self.main_width + self.aux_width > 255 {
            Some(InvalidValue::TraceWidth)
        } else if (self.aux_width == 0) != (self.aux_rands == 0) || self.aux_rands > 255 {
            Some(InvalidValue::AuxSegmentRands)
        } else {
            None
        }
    }

    /// The layout is admissible.
    pub open spec fn valid(self) -> bool {
        self.fault() is None
    }

    /// Number of segments: the main one, and the auxiliary one if it has columns.
    pub open spec fn num_segments(self) -> nat {
        if self.aux_width == 0 {
            1
        } else {
            2
        }
    }

    /// The three bytes that stand for the layout.
    pub open spec fn encode(self) -> Seq<u8> {
        seq![self.main_width as u8, self.aux_width as u8, self.aux_rands as u8]
    }

    /// The layout at the head of `s`. Each byte is judged as soon as it is read.
    #[verifier::opaque]
    pub open spec fn decode(s: Seq<u8>) -> Result<(TraceLayoutView, nat), DeserializationError> {
        match decode_u8(s) {
            Err(e) => Err(e),
            Ok((main_width, _)) => if main_width == 0 {
                Err(DeserializationError::InvalidValue(InvalidValue::MainSegmentWidth))
            } else {
                match decode_u8(s.skip(1)) {
                    Err(e) => Err(e),
                    Ok((aux_width, _)) => if main_width + aux_width > 255 {
                        Err(DeserializationError::InvalidValue(InvalidValue::TraceWidth))
                    } else {
                        match decode_u8(s.skip(2)) {
                            Err(e) => Err(e),
                            Ok((aux_rands, _)) => if (aux_width == 0) != (aux_rands == 0) {
                                Err(
                                    DeserializationError::InvalidValue(
                                        InvalidValue::AuxSegmentRands,
                                    ),
                                )
                            } else {
                                Ok(
                                    (
                                        TraceLayoutView {
                                            main_width: main_width as nat,
                                            aux_width: aux_width as nat,
                                            aux_rands: aux_rands as nat,
                                        },
                                        3,
                                    ),
                                )
                            },
                        }
                    },
                }
            },
        }
    }

    /// Decoding undoes `encode`, whatever follows.
    pub proof fn lemma_decode_encode(self, rest: Seq<u8>)
        requires
            self.valid(),
        ensures
            Self::decode(self.encode() + rest) == Ok::<
                (TraceLayoutView, nat),
                DeserializationError,
            >((self, self.encode().len())),
            (self.encode() + rest).skip(self.encode().len() as int) == rest,
    {
        reveal(TraceLayoutView::decode);
        let s = self.encode() + rest;
        assert(s.skip(3) =~= rest);
    }

    /// What `decode` reads is what `encode` writes.
    pub proof fn lemma_encode_decoded(s: Seq<u8>)
        ensures
            Self::decode(s) matches Ok((layout, n)) ==> layout.encode() == s.take(n as int),
    {
        reveal(TraceLayoutView::decode);
        if let Ok((layout, n)) = Self::decode(s) {
            assert(layout.encode() =~= s.take(3));
        }
    }

    /// What `decode` accepts is admissible and takes three bytes of `s`.
    pub proof fn lemma_decode_bounds(s: Seq<u8>)
        ensures
            Self::decode(s) matches Ok((layout, n)) ==> layout.valid() && n == 3 <= s.len(),
    {
        reveal(TraceLayoutView::decode);
    }
}

/// How the columns of an execution trace are arranged into segments: a main
/// segment and at most one auxiliary segment, which is built from the main one
/// and from random elements.
#[derive(Clone, Copy, Debug, PartialEq, Eq)]
pub struct TraceLayout {
    main_segment_width: u8,
    aux_segment_width: u8,
    aux_segment_rands: u8,
}

impl View for TraceLayout {
    type V = TraceLayoutView;

    closed spec fn view(&self) -> TraceLayoutView {
        TraceLayoutView {
            main_width: self.main_segment_width as nat,
            aux_width: self.aux_segment_width as nat,
            aux_rands: self.aux_segment_rands as nat,
        }
    }
}

impl TraceLayout {
    #[verifier::type_invariant]
    pub open spec fn inv(self) -> bool {
        self@.valid()
    }

    /// The first inadmissible property of a layout with these numbers, if any.
    pub fn check(main_width: usize, aux_width: usize, aux_rands: usize) -> (fault: Option<
        InvalidValue,
    >)
        ensures
            fault == (TraceLayoutView {
                main_width: main_width as nat,
                aux_width: aux_width as nat,
                aux_rands: aux_rands as nat,
            }).fault(),
    {
        if main_width == 0 {
            Some(InvalidValue::MainSegmentWidth)
        } else if main_width > MAX_TRACE_WIDTH || aux_width > MAX_TRACE_WIDTH - main_width {
            Some(InvalidValue::TraceWidth)
        } else if (aux_width == 0) != (aux_rands == 0) || aux_rands > MAX_RAND_SEGMENT_ELEMENTS {
            Some(InvalidValue::AuxSegmentRands)
        } else {
            None
        }
    }

    /// A layout with `main_width` columns in the main segment and `aux_width`
    /// columns in the auxiliary segment, which takes `aux_rands` random elements.
    pub fn new(main_width: usize, aux_width: usize, aux_rands: usize) -> (layout: TraceLayout)
        requires
            (TraceLayoutView {
                main_width: main_width as nat,
                aux_width: aux_width as nat,
                aux_rands: aux_rands as nat,
            }).valid(),
        ensures
            layout@ == (TraceLayoutView {
                main_width: main_width as nat,
                aux_width: aux_width as nat,
                aux_rands: aux_rands as nat,
            }),
    {
        TraceLayout {
            main_segment_width: main_width as u8,
            aux_segment_width: aux_width as u8,
            aux_segment_rands: aux_rands as u8,
        }
    }

    /// Number of columns in the main segment.
    pub fn main_trace_width(&self) -> (w: usize)
        ensures
            w == self@.main_width,
            self@.valid(),
    {
        proof {
            use_type_invariant(self);
        }
        self.main_segment_width as usize
    }

    /// Number of columns in the auxiliary segment.
    pub fn aux_trace_width(&self) -> (w: usize)
        ensures
            w == self@.aux_width,
            self@.valid(),
    {
        proof {
            use_type_invariant(self);
        }
        self.aux_segment_width as usize
    }

    /// Number of random elements that the auxiliary segment takes.
    pub fn aux_rand_elements(&self) -> (n: usize)
        ensures
            n == self@.aux_rands,
            self@.valid(),
    {
        proof {
            use_type_invariant(self);
        }
        self.aux_segment_rands as usize
    }

    /// Number of auxiliary segments: one or none.
    pub fn num_aux_segments(&self) -> (n: usize)
        ensures
            n + 1 == self@.num_segments(),
    {
        if self.aux_segment_width == 0 {
            0
        } else {
            1
        }
    }

    /// Number of segments, the main one included.
    pub fn num_segments(&self) -> (n: usize)
        ensures
            n == self@.num_segments(),
    {
        self.num_aux_segments() + 1
    }

    /// Appends the layout to `target`.
    pub fn write_into(&self, target: &mut Vec<u8>)
        ensures
            final(target)@ == old(target)@ + self@.encode(),
    {
        write_u8(target, self.main_segment_width);
        write_u8(target, self.aux_segment_width);
        write_u8(target, self.aux_segment_rands);
        assert(target@ =~= old(target)@ + self@.encode());
    }

    /// Reads a layout from `source`.
    pub fn read_from(source: &mut SliceReader) -> (result: Result<
        TraceLayout,
        DeserializationError,
    >)
        ensures
            match TraceLayoutView::decode(old(source).remaining()) {
                Ok((value, n)) => {
                    &&& result matches Ok(layout)
                    &&& layout@ == value
                    &&& final(source).remaining() == old(source).remaining().skip(n as int)
                },
                Err(e) => result == Err::<TraceLayout, DeserializationError>(e),
            },
    {
        reveal(TraceLayoutView::decode);
        let main_segment_width = source.read_u8()?;
        if main_segment_width == 0 {
            return Err(DeserializationError::InvalidValue(InvalidValue::MainSegmentWidth));
        }
        let aux_segment_width = source.read_u8()?;
        if aux_segment_width > 255 - main_segment_width {
            return Err(DeserializationError::InvalidValue(InvalidValue::TraceWidth));
        }
        let aux_segment_rands = source.read_u8()?;
        if (aux_segment_width == 0) != (aux_segment_rands == 0) {
            return Err(DeserializationError::InvalidValue(InvalidValue::AuxSegmentRands));
        }
        assert(source.remaining() =~= old(source).remaining().skip(3));
        Ok(TraceLayout { main_segment_width, aux_segment_width, aux_segment_rands })
    }
}

// TRACE INFO
// ================================================================================================

/// What a `TraceInfo` value says.
pub struct TraceInfoView {
    pub layout: TraceLayoutView,
    pub length: nat,
    pub meta: Seq<u8>,
}

impl TraceInfoView {
    /// The layout is admissible, the length is a power of two and at least
    /// 8, and the metadata takes at most 65535 bytes.
    pub open spec fn valid(self) -> bool {
        &&& self.layout.valid()
        &&& self.length >= 8
        &&& is_pow2(self.length as int)
        &&& self.meta.len() <= 65535
    }
}

/// Shape of an execution trace together with its metadata.
#[derive(Debug, PartialEq, Eq)]
pub struct TraceInfo {
    layout: TraceLayout,
    length: usize,
    meta: Vec<u8>,
}

impl View for TraceInfo {
    type V = TraceInfoView;

    closed spec fn view(&self) -> TraceInfoView {
        TraceInfoView { layout: self.layout@, length: self.length as nat, meta: self.meta@ }
    }
}

impl Clone for TraceInfo {
    fn clone(&self) -> (copy: Self)
        ensures
            copy@ == self@,
    {
        proof {
            use_type_invariant(self);
        }
        TraceInfo {
            layout: self.layout,
            length: self.length,
            meta: copy_bytes(self.meta.as_slice()),
        }
    }
}

impl TraceInfo {
    #[verifier::type_invariant]
    pub open spec fn inv(self) -> bool {
        self@.valid()
    }

    /// A trace of one segment with `width` columns and `length` rows, without metadata.
    pub fn new(width: usize, length: usize) -> (info: TraceInfo)
        requires
            0 < width <= 255,
            length >= 8,
            is_pow2(length as int),
        ensures
            info@ == (TraceInfoView {
                layout: TraceLayoutView { main_width: width as nat, aux_width: 0, aux_rands: 0 },
                length: length as nat,
                meta: Seq::<u8>::empty(),
            }),
    {
        TraceInfo { layout: TraceLayout::new(width, 0, 0), length, meta: Vec::new() }
    }

    /// A trace of one segment with `width` columns and `length` rows, with metadata.
    pub fn with_meta(width: usize, length: usize, meta: Vec<u8>) -> (info: TraceInfo)
        requires
            0 < width <= 255,
            length >= 8,
            is_pow2(length as int),
            meta@.len() <= 65535,
        ensures
            info@ == (TraceInfoView {
                layout: TraceLayoutView { main_width: width as nat, aux_width: 0, aux_rands: 0 },
                length: length as nat,
                meta: meta@,
            }),
    {
        TraceInfo { layout: TraceLayout::new(width, 0, 0), length, meta }
    }

    /// A trace with the given layout, `length` rows, and metadata.
    pub fn new_multi_segment(layout: TraceLayout, length: usize, meta: Vec<u8>) -> (info:
        TraceInfo)
        requires
            length >= 8,
            is_pow2(length as int),
            meta@.len() <= 65535,
        ensures
            info@ == (TraceInfoView { layout: layout@, length: length as nat, meta: meta@ }),
    {
        proof {
            use_type_invariant(&layout);
        }
        TraceInfo { layout, length, meta }
    }

    /// How the columns are arranged into segments.
    pub fn layout(&self) -> (layout: &TraceLayout)
        ensures
            layout@ == self@.layout,
            self@.valid(),
    {
        proof {
            use_type_invariant(self);
        }
        &self.layout
    }

    /// Number of columns, all segments together.
    pub fn width(&self) -> (w: usize)
        ensures
            w == self@.layout.main_width + self@.layout.aux_width,
    {
        self.layout.main_trace_width() + self.layout.aux_trace_width()
    }

    /// Number of rows.
    pub fn length(&self) -> (n: usize)
        ensures
            n == self@.length,
            self@.valid(),
    {
        proof {
            use_type_invariant(self);
        }
        self.length
    }

    /// The metadata.
    pub fn meta(&self) -> (meta: &[u8])
        ensures
            meta@ == self@.meta,
            self@.valid(),
    {
        proof {
            use_type_invariant(self);
        }
        self.meta.as_slice()
    }
}

} // verus!
