//! Protocol parameters under which a proof is generated and checked.

use crate::codec::{write_u8, DeserializationError, InvalidValue, SliceReader};
use vstd::arithmetic::power2::is_pow2;
use vstd::prelude::*;

verus! {

/// Largest admissible number of queries.
pub const MAX_NUM_QUERIES: usize = 255;

/// Smallest admissible blowup factor.
pub const MIN_BLOWUP_FACTOR: usize = 2;

/// Largest admissible blowup factor.
pub const MAX_BLOWUP_FACTOR: usize = 128;

/// Largest admissible grinding factor.
pub const MAX_GRINDING_FACTOR: u32 = 32;

/// Smallest admissible FRI folding factor.
pub const FRI_MIN_FOLDING_FACTOR: usize = 2;

/// Largest admissible FRI folding factor.
pub const FRI_MAX_FOLDING_FACTOR: usize = 16;

/// Largest admissible degree of the FRI remainder polynomial.
pub const FRI_MAX_REMAINDER_DEGREE: usize = 255;

/// Extension of the base field in which the protocol draws its random values.
#[derive(Clone, Copy, Debug, PartialEq, Eq, Structural)]
pub enum FieldExtension {
    /// The base field itself.
    Base,
    /// The quadratic extension of the base field.
    Quadratic,
    /// The cubic extension of the base field.
    Cubic,
}

impl FieldExtension {
    /// Degree of the extension over the base field.
    pub open spec fn spec_degree(self) -> nat {
        match self {
            FieldExtension::Base => 1,
            FieldExtension::Quadratic => 2,
            FieldExtension::Cubic => 3,
        }
    }

    /// Degree of the extension over the base field.
    pub fn degree(self) -> (d: u32)
        ensures
            d == self.spec_degree(),
    {
        match self {
            FieldExtension::Base => 1,
            FieldExtension::Quadratic => 2,
            FieldExtension::Cubic => 3,
        }
    }

    /// The byte that stands for the extension on the wire.
    pub open spec fn spec_tag(self) -> u8 {
        match self {
            FieldExtension::Base => 1,
            FieldExtension::Quadratic => 2,
            FieldExtension::Cubic => 3,
        }
    }

    /// The extension that `tag` stands for, if any.
    pub open spec fn spec_from_tag(tag: u8) -> Option<FieldExtension> {
        if tag == 1 {
            Some(FieldExtension::Base)
        } else if tag == 2 {
            Some(FieldExtension::Quadratic)
        } else if tag == 3 {
            Some(FieldExtension::Cubic)
        } else {
            None
        }
    }

    /// The byte that stands for the extension on the wire.
    pub fn tag(self) -> (t: u8)
        ensures
            t == self.spec_tag(),
            Self::spec_from_tag(t) == Some(self),
    {
        match self {
            FieldExtension::Base => 1,
            FieldExtension::Quadratic => 2,
            FieldExtension::Cubic => 3,
        }
    }

    /// The extension that `tag` stands for, if any.
    pub fn from_tag(tag: u8) -> (e: Option<FieldExtension>)
        ensures
            e == Self::spec_from_tag(tag),
    {
        if tag == 1 {
            Some(FieldExtension::Base)
        } else if tag == 2 {
            Some(FieldExtension::Quadratic)
        } else if tag == 3 {
            Some(FieldExtension::Cubic)
        } else {
            None
        }
    }

    /// True for the base field itself.
    pub fn is_base(self) -> (b: bool)
        ensures
            b == (self == FieldExtension::Base),
    {
        match self {
            FieldExtension::Base => true,
            _ => false,
        }
    }
}

/// What a `ProofOptions` value says, as numbers.
pub struct ProofOptionsView {
    pub num_queries: nat,
    pub blowup_factor: nat,
    pub grinding_factor: nat,
    pub field_extension: FieldExtension,
    pub fri_folding_factor: nat,
    pub fri_remainder_max_degree: nat,
}

impl ProofOptionsView {
    /// The first parameter that is inadmissible, in the order in which the
    /// parameters are listed; `None` when all are admissible.
    pub open spec fn fault(self) -> Option<InvalidValue> {
        if !(1 <= self.num_queries <= 255) {
            Some(InvalidValue::NumQueries)
        } else if !(2 <= self.blowup_factor <= 128 && is_pow2(self.blowup_factor as int)) {
            Some(InvalidValue::BlowupFactor)
        } else if self.grinding_factor > 32 {
            Some(InvalidValue::GrindingFactor)
        } else if !(2 <= self.fri_folding_factor <= 16 && is_pow2(self.fri_folding_factor as int)) {
            Some(InvalidValue::FriFoldingFactor)
        } else if !(self.fri_remainder_max_degree <= 255 && is_pow2(
            self.fri_remainder_max_degree as int + 1,
        )) {
            Some(InvalidValue::FriRemainderDegree)
        } else {
            None
        }
    }

    /// All parameters are admissible.
    pub open spec fn valid(self) -> bool {
        self.fault() is None
    }

    /// One byte per parameter: number of queries, blowup factor, grinding
    /// factor, field extension, FRI folding factor, FRI remainder degree.
    pub open spec fn encode(self) -> Seq<u8> {
        seq![
            self.num_queries as u8,
            self.blowup_factor as u8,
            self.grinding_factor as u8,
            self.field_extension.spec_tag(),
            self.fri_folding_factor as u8,
            self.fri_remainder_max_degree as u8,
        ]
    }

    /// The options at the head of `s`. The field extension is judged as
    /// soon as it is read, the numbers once all six bytes are there.
    #[verifier::opaque]
    pub open spec fn decode(s: Seq<u8>) -> Result<(ProofOptionsView, nat), DeserializationError> {
        if s.len() < 4 {
            Err(DeserializationError::UnexpectedEOF)
        } else {
            match FieldExtension::spec_from_tag(s[3]) {
                None => Err(DeserializationError::InvalidValue(InvalidValue::FieldExtension)),
                Some(field_extension) => if s.len() < 6 {
                    Err(DeserializationError::UnexpectedEOF)
                } else {
                    let options = ProofOptionsView {
                        num_queries: s[0] as nat,
                        blowup_factor: s[1] as nat,
                        grinding_factor: s[2] as nat,
                        field_extension,
                        fri_folding_factor: s[4] as nat,
                        fri_remainder_max_degree: s[5] as nat,
                    };
                    match options.fault() {
                        Some(fault) => Err(DeserializationError::InvalidValue(fault)),
                        None => Ok((options, 6)),
                    }
                },
            }
        }
    }

    /// Decoding undoes `encode`, whatever follows.
    pub proof fn lemma_decode_encode(self, rest: Seq<u8>)
        requires
            self.valid(),
        ensures
            Self::decode(self.encode() + rest) == Ok::<
                (ProofOptionsView, nat),
                DeserializationError,
            >((self, self.encode().len())),
            (self.encode() + rest).skip(self.encode().len() as int) == rest,
    {
        reveal(ProofOptionsView::decode);
        assert((self.encode() + rest).skip(6) =~= rest);
    }

    /// What `decode` reads is what `encode` writes.
    pub proof fn lemma_encode_decoded(s: Seq<u8>)
        ensures
            Self::decode(s) matches Ok((value, n)) ==> value.encode() == s.take(n as int),
    {
        reveal(ProofOptionsView::decode);
        if let Ok((value, n)) = Self::decode(s) {
            assert(value.encode() =~= s.take(6));
        }
    }

    /// What `decode` accepts is valid and lies within `s`.
    pub proof fn lemma_decode_bounds(s: Seq<u8>)
        ensures
            Self::decode(s) matches Ok((value, n)) ==> value.valid() && n == 6 <= s.len(),
    {
        reveal(ProofOptionsView::decode);
    }
}

/// True when `n` is one of 1, 2, 4, ..., 256.
fn is_small_power_of_two(n: usize) -> (b: bool)
    requires
        n <= 256,
    ensures
        b == is_pow2(n as int),
{
    reveal_with_fuel(is_pow2, 10);
    n == 1 || n == 2 || n == 4 || n == 8 || n == 16 || n == 32 || n == 64 || n == 128 || n == 256
}

/// Protocol parameters: how many queries the verifier makes, by how much the
/// trace domain is extended, how much proof-of-work guards the query seed,
/// in which field the random values live, and how FRI folds.
#[derive(Clone, Copy, Debug, PartialEq, Eq)]
pub struct ProofOptions {
    num_queries: u8,
    blowup_factor: u8,
    grinding_factor: u8,
    field_extension: FieldExtension,
    fri_folding_factor: u8,
    fri_remainder_max_degree: u8,
}

impl View for ProofOptions {
    type V = ProofOptionsView;

    closed spec fn view(&self) -> ProofOptionsView {
        ProofOptionsView {
            num_queries: self.num_queries as nat,
            blowup_factor: self.blowup_factor as nat,
            grinding_factor: self.grinding_factor as nat,
            field_extension: self.field_extension,
            fri_folding_factor: self.fri_folding_factor as nat,
            fri_remainder_max_degree: self.fri_remainder_max_degree as nat,
        }
    }
}

impl ProofOptions {
    #[verifier::type_invariant]
    pub open spec fn inv(self) -> bool {
        self@.valid()
    }

    /// The first of the given parameters that is inadmissible, if any.
    pub fn check(
        num_queries: usize,
        blowup_factor: usize,
        grinding_factor: u32,
        field_extension: FieldExtension,
        fri_folding_factor: usize,
        fri_remainder_max_degree: usize,
    ) -> (fault: Option<InvalidValue>)
        ensures
            fault == (ProofOptionsView {
                num_queries: num_queries as nat,
                blowup_factor: blowup_factor as nat,
                grinding_factor: grinding_factor as nat,
                field_extension,
                fri_folding_factor: fri_folding_factor as nat,
                fri_remainder_max_degree: fri_remainder_max_degree as nat,
            }).fault(),
    {
        if num_queries < 1 || num_queries > MAX_NUM_QUERIES {
            Some(InvalidValue::NumQueries)
        } else if blowup_factor < MIN_BLOWUP_FACTOR || blowup_factor > MAX_BLOWUP_FACTOR
            || !is_small_power_of_two(blowup_factor) {
            Some(InvalidValue::BlowupFactor)
        } else if grinding_factor > MAX_GRINDING_FACTOR {
            Some(InvalidValue::GrindingFactor)
        } else if fri_folding_factor < FRI_MIN_FOLDING_FACTOR || fri_folding_factor
            > FRI_MAX_FOLDING_FACTOR || !is_small_power_of_two(fri_folding_factor) {
            Some(InvalidValue::FriFoldingFactor)
        } else if fri_remainder_max_degree > FRI_MAX_REMAINDER_DEGREE || !is_small_power_of_two(
            fri_remainder_max_degree + 1,
        ) {
            Some(InvalidValue::FriRemainderDegree)
        } else {
            None
        }
    }

    /// Options with the given parameters, all of which must be admissible.
    pub fn new(
        num_queries: usize,
        blowup_factor: usize,
        grinding_factor: u32,
        field_extension: FieldExtension,
        fri_folding_factor: usize,
        fri_remainder_max_degree: usize,
    ) -> (options: ProofOptions)
        requires
            (ProofOptionsView {
                num_queries: num_queries as nat,
                blowup_factor: blowup_factor as nat,
                grinding_factor: grinding_factor as nat,
                field_extension,
                fri_folding_factor: fri_folding_factor as nat,
                fri_remainder_max_degree: fri_remainder_max_degree as nat,
            }).valid(),
        ensures
            options@ == (ProofOptionsView {
                num_queries: num_queries as nat,
                blowup_factor: blowup_factor as nat,
                grinding_factor: grinding_factor as nat,
                field_extension,
                fri_folding_factor: fri_folding_factor as nat,
                fri_remainder_max_degree: fri_remainder_max_degree as nat,
            }),
    {
        ProofOptions {
            num_queries: num_queries as u8,
            blowup_factor: blowup_factor as u8,
            grinding_factor: grinding_factor as u8,
            field_extension,
            fri_folding_factor: fri_folding_factor as u8,
            fri_remainder_max_degree: fri_remainder_max_degree as u8,
        }
    }

    /// Number of queries that the verifier makes.
    pub fn num_queries(&self) -> (n: usize)
        ensures
            n == self@.num_queries,
            self@.valid(),
    {
        proof {
            use_type_invariant(self);
        }
        self.num_queries as usize
    }

    /// Ratio between the size of the extended domain and that of the trace domain.
    pub fn blowup_factor(&self) -> (b: usize)
        ensures
            b == self@.blowup_factor,
            self@.valid(),
    {
        proof {
            use_type_invariant(self);
        }
        self.blowup_factor as usize
    }

    /// Number of leading zero bits asked of the proof-of-work nonce.
    pub fn grinding_factor(&self) -> (g: u32)
        ensures
            g == self@.grinding_factor,
            self@.valid(),
    {
        proof {
            use_type_invariant(self);
        }
        self.grinding_factor as u32
    }

    /// Field from which the protocol draws its random values.
    pub fn field_extension(&self) -> (e: FieldExtension)
        ensures
            e == self@.field_extension,
            self@.valid(),
    {
        proof {
            use_type_invariant(self);
        }
        self.field_extension
    }

    /// Factor by which each FRI layer shrinks the domain.
    pub fn fri_folding_factor(&self) -> (f: usize)
        ensures
            f == self@.fri_folding_factor,
            self@.valid(),
    {
        proof {
            use_type_invariant(self);
        }
        self.fri_folding_factor as usize
    }

    /// Largest degree at which FRI stops folding and sends the polynomial itself.
    pub fn fri_remainder_max_degree(&self) -> (d: usize)
        ensures
            d == self@.fri_remainder_max_degree,
            self@.valid(),
    {
        proof {
            use_type_invariant(self);
        }
        self.fri_remainder_max_degree as usize
    }

    /// Appends the options to `target`.
    pub fn write_into(&self, target: &mut Vec<u8>)
        ensures
            final(target)@ == old(target)@ + self@.encode(),
            self@.valid(),
    {
        proof {
            use_type_invariant(self);
        }
        write_u8(target, self.num_queries);
        write_u8(target, self.blowup_factor);
        write_u8(target, self.grinding_factor);
        write_u8(target, self.field_extension.tag());
        write_u8(target, self.fri_folding_factor);
        write_u8(target, self.fri_remainder_max_degree);
        assert(target@ =~= old(target)@ + self@.encode());
    }

    /// Reads options from `source`.
    pub fn read_from(source: &mut SliceReader) -> (result: Result<
        ProofOptions,
        DeserializationError,
    >)
        ensures
            match ProofOptionsView::decode(old(source).remaining()) {
                Ok((value, n)) => {
                    &&& result matches Ok(options)
                    &&& options@ == value
                    &&& value.valid()
                    &&& final(source).remaining() == old(source).remaining().skip(n as int)
                },
                Err(e) => result == Err::<ProofOptions, DeserializationError>(e),
            },
    {
        reveal(ProofOptionsView::decode);
        let ghost s = source.remaining();
        let num_queries = source.read_u8()?;
        let blowup_factor = source.read_u8()?;
        let grinding_factor = source.read_u8()?;
        let tag = source.read_u8()?;
        let field_extension = match FieldExtension::from_tag(tag) {
            Some(e) => e,
            None => {
                return Err(DeserializationError::InvalidValue(InvalidValue::FieldExtension));
            },
        };
        let fri_folding_factor = source.read_u8()?;
        let fri_remainder_max_degree = source.read_u8()?;
        assert(source.remaining() =~= s.skip(6));
        match ProofOptions::check(
            num_queries as usize,
            blowup_factor as usize,
            grinding_factor as u32,
            field_extension,
            fri_folding_factor as usize,
            fri_remainder_max_degree as usize,
        ) {
            Some(fault) => Err(DeserializationError::InvalidValue(fault)),
            None => Ok(
                ProofOptions {
                    num_queries,
                    blowup_factor,
                    grinding_factor,
                    field_extension,
                    fri_folding_factor,
                    fri_remainder_max_degree,
                },
            ),
        }
    }
}

} // verus!
