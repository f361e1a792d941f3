//! A set of functions as a Bloom filter over the hashes of their names.
//!
//! Every function that was put in is found again. Now and then another one is found
//! too; the larger the filter, the rarer. A filter needs no list of functions to be
//! read against, so it stays valid when the program changes.
//!
//! As bytes a filter is the number of its bits in four bytes, the lowest first, the
//! number of rounds in one, and then its bits, eight to a byte, the lowest first. As
//! text it is the URL-safe base64 of those bytes.
use vstd::prelude::*;
use vstd::string::StringExecFns;
use vstd::utf8::encode_utf8;

use crate::stylus::url_base64::{base64_bytes, base64_decode, base64_encode, base64_error,
    base64_error_message, base64_error_words, base64_text, lemma_base64_round_trip, Base64Error};
use crate::text::{decimal, decimal_text};

verus! {

/// Where the hash starts.
pub const FNV_OFFSET_BASIS: u64 = 0xcbf2_9ce4_8422_2325;

/// What the hash is multiplied by for each byte.
pub const FNV_PRIME: u64 = 0x0000_0100_0000_01b3;

/// The 64-bit FNV-1a hash of some bytes.
pub open spec fn fnv1a(bytes: Seq<u8>) -> u64
    decreases bytes.len(),
{
    if bytes.len() == 0 {
        FNV_OFFSET_BASIS
    } else {
        let mixed = fnv1a(bytes.drop_last()) ^ (bytes.last() as u64);
        ((mixed * FNV_PRIME) % 0x1_0000_0000_0000_0000) as u64
    }
}

/// The id of a name: the 64-bit FNV-1a hash of its UTF-8 bytes.
pub fn id_of(name: &str) -> (id: u64)
    ensures
        id == fnv1a(encode_utf8(name@)),
{
    let bytes = name.as_bytes();
    let count = bytes.len();
    let mut hash = FNV_OFFSET_BASIS;
    let mut i: usize = 0;
    while i < count
        invariant
            i <= count,
            count == bytes@.len(),
            hash == fnv1a(bytes@.take(i as int)),
        decreases count - i,
    {
        let byte: u8 = bytes[i];
        assert(bytes@.take(i + 1).drop_last() =~= bytes@.take(i as int));
        hash = (hash ^ (byte as u64)).wrapping_mul(FNV_PRIME);
        i = i + 1;
    }
    assert(bytes@.take(i as int) =~= bytes@);
    hash
}

/// The ids of names.
pub open spec fn ids_of(names: Seq<&str>) -> Seq<u64> {
    names.map_values(|name: &str| fnv1a(encode_utf8(name@)))
}

/// Why a text is not a filter.
#[derive(Debug, Clone, Copy, PartialEq, Eq, Structural)]
pub enum DecodeError {
    /// The text is not base64.
    Base64(Base64Error),
    /// There are not even as many bytes as the header takes, or it asks for rounds and
    /// there is no bit for them to look at.
    Truncated,
    /// There are more or fewer bytes behind the header than its number of bits takes.
    LengthMismatch {
        /// The bytes that the number of bits takes.
        expected: usize,
        /// The bytes that there are.
        actual: usize,
    },
}

impl DecodeError {
    /// The error in words.
    pub fn message(&self) -> (message: String)
        ensures
            message@ == match *self {
                DecodeError::Base64(error) => "invalid base64: "@ + base64_error_words(error),
                DecodeError::Truncated => "blob is shorter than its header claims"@,
                DecodeError::LengthMismatch { expected, actual } =>
                    "blob bit-array length mismatch: header implies "@ + decimal(expected as nat)
                    + " bytes, got "@ + decimal(actual as nat),
            },
    {
        match self {
            DecodeError::Base64(error) => {
                let head = String::from_str("invalid base64: ");
                let words = base64_error_message(error);
                head.concat(words.as_str())
            },
            DecodeError::Truncated => "blob is shorter than its header claims".to_owned(),
            DecodeError::LengthMismatch { expected, actual } => {
                let head = String::from_str("blob bit-array length mismatch: header implies ");
                let head = head.concat(decimal_text(*expected).as_str());
                let head = head.concat(" bytes, got ");
                head.concat(decimal_text(*actual).as_str())
            },
        }
    }
}

/// A Bloom filter.
#[derive(Debug)]
pub struct Filter {
    /// The number of bits.
    pub m: u32,
    /// The number of rounds.
    pub k: u8,
    /// The bits, eight to a byte.
    pub bits: Vec<u8>,
}

/// The number of bytes that some bits take.
pub open spec fn bytes_for(bits: nat) -> nat {
    (bits + 7) / 8
}

/// Whether the bit at a position is set.
pub open spec fn bit_at(bits: Seq<u8>, at: nat) -> bool {
    (bits[at as int / 8] >> ((at % 8) as u8)) & 1 == 1
}

/// The position that an id has in a round.
pub open spec fn position(id: u64, round: nat, m: u32) -> nat {
    let low = id as nat % 0x1_0000_0000;
    let high = id as nat / 0x1_0000_0000;
    ((low + round * high) % 0x1_0000_0000) % (m as nat)
}

/// Whether an id is in a filter: its position is set in every round.
pub open spec fn member(m: u32, k: u8, bits: Seq<u8>, id: u64) -> bool {
    forall|round: nat| round < k ==> bit_at(bits, #[trigger] position(id, round, m))
}

/// Whether `bits` are those of a filter of just these ids.
pub open spec fn holds_just(m: u32, k: u8, bits: Seq<u8>, ids: Seq<u64>) -> bool {
    &&& bits.len() == bytes_for(m as nat)
    &&& forall|at: nat|
        at < 8 * bits.len() ==> (#[trigger] bit_at(bits, at) <==> exists|i: int, round: nat|
            0 <= i < ids.len() && round < k && #[trigger] position(ids[i], round, m) == at)
}

/// The bytes of a filter.
pub open spec fn filter_bytes(m: u32, k: u8, bits: Seq<u8>) -> Seq<u8> {
    seq![
        (m % 256) as u8,
        (m / 256 % 256) as u8,
        (m / 65536 % 256) as u8,
        (m / 16777216) as u8,
        k,
    ] + bits
}

/// The number of bits that the header of a filter gives.
pub open spec fn header_bits(bytes: Seq<u8>) -> u32 {
    (bytes[0] + bytes[1] * 256 + bytes[2] * 65536 + bytes[3] * 16777216) as u32
}

/// What the bytes of a filter give: its number of bits, its rounds and its bits.
pub open spec fn parsed(bytes: Seq<u8>) -> Result<(u32, u8, Seq<u8>), DecodeError> {
    if bytes.len() < 5 {
        Err(DecodeError::Truncated)
    } else if bytes.len() - 5 != bytes_for(header_bits(bytes) as nat) {
        Err(
            DecodeError::LengthMismatch {
                expected: bytes_for(header_bits(bytes) as nat) as usize,
                actual: (bytes.len() - 5) as usize,
            },
        )
    } else if header_bits(bytes) == 0 && bytes[4] > 0 {
        Err(DecodeError::Truncated)
    } else {
        Ok((header_bits(bytes), bytes[4], bytes.skip(5)))
    }
}

/// What a text gives.
pub open spec fn decoded(blob: Seq<char>) -> Result<(u32, u8, Seq<u8>), DecodeError> {
    match base64_bytes(blob) {
        Some(bytes) => parsed(bytes),
        None => Err(DecodeError::Base64(base64_error(blob))),
    }
}

impl Filter {
    /// Whether there are as many bytes as the bits take, and bits for the rounds to look
    /// at.
    pub open spec fn wf(self) -> bool {
        &&& self.bits@.len() == bytes_for(self.m as nat)
        &&& self.k == 0 || self.m > 0
    }

    /// Whether an id is in the filter.
    pub fn contains_id(&self, id: u64) -> (found: bool)
        requires
            self.wf(),
        ensures
            found == member(self.m, self.k, self.bits@, id),
    {
        let mut round: u32 = 0;
        while round < self.k as u32
            invariant
                round <= self.k,
                self.wf(),
                forall|r: nat|
                    r < round ==> bit_at(self.bits@, #[trigger] position(id, r, self.m)),
            decreases self.k - round,
        {
            let at = position_of(id, round, self.m);
            if !get_bit(&self.bits, at) {
                assert(!bit_at(self.bits@, position(id, round as nat, self.m)));
                return false;
            }
            round = round + 1;
        }
        true
    }
}

/// The position that an id has in a round.
fn position_of(id: u64, round: u32, m: u32) -> (at: u32)
    requires
        m > 0,
    ensures
        at == position(id, round as nat, m),
        at < m,
{
    let low: u32 = (id % 0x1_0000_0000) as u32;
    let high: u32 = (id / 0x1_0000_0000) as u32;
    proof {
        let product = (round as int) * (high as int);
        assert(0 <= product) by (nonlinear_arith)
            requires
                product == (round as int) * (high as int),
        ;
        vstd::arithmetic::div_mod::lemma_add_mod_noop_right(
            low as int,
            product,
            0x1_0000_0000,
        );
    }
    low.wrapping_add(round.wrapping_mul(high)) % m
}

/// Whether the bit at a position is set.
fn get_bit(bits: &Vec<u8>, at: u32) -> (set: bool)
    requires
        at < 8 * bits@.len(),
    ensures
        set == bit_at(bits@, at as nat),
{
    let byte: u8 = bits[(at / 8) as usize];
    let shift: u8 = (at % 8) as u8;
    (byte >> shift) & 1 == 1
}

/// Sets the bit at a position.
fn set_bit(bits: &mut Vec<u8>, at: u32)
    requires
        at < 8 * old(bits)@.len(),
    ensures
        final(bits)@.len() == old(bits)@.len(),
        forall|other: nat|
            other < 8 * old(bits)@.len() ==> #[trigger] bit_at(final(bits)@, other) == (bit_at(
                old(bits)@,
                other,
            ) || other == at),
{
    let ghost before = bits@;
    let index: usize = (at / 8) as usize;
    let byte: u8 = bits[index];
    let shift: u8 = (at % 8) as u8;
    bits.set(index, byte | (1u8 << shift));
    assert forall|other: nat| other < 8 * before.len() implies #[trigger] bit_at(bits@, other) == (
    bit_at(before, other) || other == at) by {
        let there = (other % 8) as u8;
        assert(shift < 8 && there < 8 ==> (((byte | (1u8 << shift)) >> there) & 1 == 1) == ((byte
            >> there) & 1 == 1 || there == shift)) by (bit_vector);
    }
}

/// The size of a filter: how many bits it has and how many rounds it takes.
#[derive(Debug, Clone, Copy, PartialEq, Eq, Structural)]
pub struct Size {
    /// The number of bits.
    pub m: u32,
    /// The number of rounds.
    pub k: u8,
}

/// The number of bits for so many items, from an estimate: at least eight, and just
/// that for none.
pub fn bit_count(items: usize, estimate: u32) -> (m: u32)
    ensures
        m == if items == 0 || estimate < 8 {
            8
        } else {
            estimate
        },
{
    if items == 0 || estimate < 8 {
        8
    } else {
        estimate
    }
}

/// The number of rounds for so many items, from an estimate: from one to 32, and one
/// for none.
pub fn round_count(items: usize, estimate: u8) -> (k: u8)
    ensures
        k == if items == 0 || estimate < 1 {
            1
        } else if estimate > 32 {
            32
        } else {
            estimate
        },
{
    if items == 0 || estimate < 1 {
        1
    } else if estimate > 32 {
        32
    } else {
        estimate
    }
}

/// A filter of just these ids.
fn build(ids: &Vec<u64>, size: Size) -> (blob: String)
    requires
        size.m > 0,
    ensures
        exists|bits: Seq<u8>|
            #[trigger] holds_just(size.m, size.k, bits, ids@) && blob@ == base64_text(
                filter_bytes(size.m, size.k, bits),
            ),
{
    let m = size.m;
    let k = size.k;
    let bits = fill(ids, m, k);
    let mut bytes: Vec<u8> = Vec::new();
    bytes.push((m % 256) as u8);
    bytes.push((m / 256 % 256) as u8);
    bytes.push((m / 65536 % 256) as u8);
    bytes.push((m / 16777216) as u8);
    bytes.push(k);
    bytes.extend_from_slice(bits.as_slice());
    assert(bytes@ =~= filter_bytes(m, k, bits@));
    base64_encode(&bytes)
}

/// The bits of a filter of just these ids.
fn fill(ids: &Vec<u64>, m: u32, k: u8) -> (bits: Vec<u8>)
    requires
        m > 0,
    ensures
        holds_just(m, k, bits@, ids@),
{
    let len: usize = (m / 8 + (if m % 8 == 0 {
        0
    } else {
        1
    })) as usize;
    let mut bits: Vec<u8> = vec![0u8; len];
    assert(len == bytes_for(m as nat));
    assert forall|at: nat| at < 8 * bits@.len() implies !#[trigger] bit_at(bits@, at) by {
        let shift = (at % 8) as u8;
        assert((0u8 >> shift) & 1 == 0) by (bit_vector);
    }
    let count = ids.len();
    let mut i: usize = 0;
    while i < count
        invariant
            i <= count,
            count == ids@.len(),
            m > 0,
            bits@.len() == bytes_for(m as nat),
            forall|at: nat|
                at < 8 * bits@.len() ==> (#[trigger] bit_at(bits@, at) <==> exists|
                    j: int,
                    round: nat,
                |
                    0 <= j < i && round < k && #[trigger] position(ids@[j], round, m) == at),
        decreases count - i,
    {
        let id = ids[i];
        let ghost before = bits@;
        let mut r: u32 = 0;
        while r < k as u32
            invariant
                r <= k,
                m > 0,
                i < ids@.len(),
                id == ids@[i as int],
                bits@.len() == bytes_for(m as nat),
                before.len() == bits@.len(),
                forall|at: nat|
                    at < 8 * bits@.len() ==> (#[trigger] bit_at(bits@, at) <==> bit_at(before, at)
                        || exists|round: nat| round < r && #[trigger] position(id, round, m) == at),
            decreases k - r,
        {
            let at = position_of(id, r, m);
            let ghost was = bits@;
            set_bit(&mut bits, at);
            assert forall|other: nat| other < 8 * bits@.len() implies (#[trigger] bit_at(
                bits@,
                other,
            ) <==> bit_at(before, other) || exists|round: nat|
                round < r + 1 && #[trigger] position(id, round, m) == other) by {
                assert(bit_at(bits@, other) == (bit_at(was, other) || other == at));
                if other == at {
                    assert(position(id, r as nat, m) == other);
                }
            }
            r = r + 1;
        }
        assert forall|at: nat| at < 8 * bits@.len() implies (#[trigger] bit_at(bits@, at)
            <==> exists|j: int, round: nat|
            0 <= j < i + 1 && round < k && #[trigger] position(ids@[j], round, m) == at) by {
            if bit_at(before, at) {
                let (j, round) = choose|j: int, round: nat|
                    0 <= j < i && round < k && #[trigger] position(ids@[j], round, m) == at;
                assert(position(ids@[j], round, m) == at);
            }
            if exists|round: nat| round < k && #[trigger] position(id, round, m) == at {
                let round = choose|round: nat| round < k && #[trigger] position(id, round, m) == at;
                assert(position(ids@[i as int], round, m) == at);
            }
        }
        i = i + 1;
    }
    bits
}

/// The text of a filter of the given names.
pub fn encode(names: &[&str], size: Size) -> (blob: String)
    requires
        size.m > 0,
    ensures
        exists|bits: Seq<u8>|
            #[trigger] holds_just(
                size.m,
                size.k,
                bits,
                ids_of(names@),
            ) && blob@ == base64_text(filter_bytes(size.m, size.k, bits)),
{
    let mut ids: Vec<u64> = Vec::new();
    let count = names.len();
    let mut i: usize = 0;
    while i < count
        invariant
            i <= count,
            count == names@.len(),
            ids@ == ids_of(names@.take(i as int)),
        decreases count - i,
    {
        ids.push(id_of(names[i]));
        assert(ids@ =~= ids_of(names@.take(i + 1)));
        i = i + 1;
    }
    assert(names@.take(i as int) =~= names@);
    build(&ids, size)
}

/// The text of a filter of the given ids.
pub fn encode_ids(ids: &Vec<u64>, size: Size) -> (blob: String)
    requires
        size.m > 0,
    ensures
        exists|bits: Seq<u8>|
            #[trigger] holds_just(size.m, size.k, bits, ids@) && blob@ == base64_text(
                filter_bytes(size.m, size.k, bits),
            ),
{
    build(ids, size)
}

/// The text of a filter that every id is in: the smallest one with all its bits set.
pub fn encode_all() -> (blob: String)
    ensures
        blob@ == base64_text(filter_bytes(8, 1, seq![255u8])),
{
    let mut bytes: Vec<u8> = Vec::new();
    bytes.push(8);
    bytes.push(0);
    bytes.push(0);
    bytes.push(0);
    bytes.push(1);
    bytes.push(255);
    assert(bytes@ =~= filter_bytes(8, 1, seq![255u8]));
    base64_encode(&bytes)
}

/// The filter that a text gives.
///
/// # Errors
///
/// [`DecodeError::Base64`] if the text is not base64, [`DecodeError::Truncated`] if
/// there is no whole header, or one with rounds and no bits,
/// [`DecodeError::LengthMismatch`] if the number of bytes behind it is not what its
/// number of bits takes.
pub fn decode(blob: &str) -> (filter: Result<Filter, DecodeError>)
    ensures
        match decoded(blob@) {
            Ok((m, k, bits)) => filter matches Ok(filter) && filter.m == m && filter.k == k
                && filter.bits@ == bits && filter.wf(),
            Err(error) => filter == Err::<Filter, DecodeError>(error),
        },
{
    let bytes = match base64_decode(blob) {
        Ok(bytes) => bytes,
        Err(error) => {
            return Err(DecodeError::Base64(error));
        },
    };
    proof {
        lemma_base64_round_trip(bytes@);
    }
    parse(&bytes)
}

/// The filter that some bytes are.
///
/// # Errors
///
/// [`DecodeError::Truncated`] if there is no whole header, or one with rounds and no
/// bits, [`DecodeError::LengthMismatch`] if the number of bytes behind it is not what
/// its number of bits takes.
pub fn parse(bytes: &Vec<u8>) -> (filter: Result<Filter, DecodeError>)
    ensures
        match parsed(bytes@) {
            Ok((m, k, bits)) => filter matches Ok(filter) && filter.m == m && filter.k == k
                && filter.bits@ == bits && filter.wf(),
            Err(error) => filter == Err::<Filter, DecodeError>(error),
        },
{
    let count = bytes.len();
    if count < 5 {
        return Err(DecodeError::Truncated);
    }
    let m: u32 = bytes[0] as u32 + bytes[1] as u32 * 256 + bytes[2] as u32 * 65536 + bytes[3] as u32
        * 16777216;
    let k: u8 = bytes[4];
    let expected: usize = (m / 8 + (if m % 8 == 0 {
        0
    } else {
        1
    })) as usize;
    let actual: usize = count - 5;
    if actual != expected {
        return Err(DecodeError::LengthMismatch { expected, actual });
    }
    if m == 0 && k > 0 {
        return Err(DecodeError::Truncated);
    }
    let mut bits: Vec<u8> = Vec::new();
    let mut i: usize = 5;
    while i < count
        invariant
            5 <= i <= count,
            count == bytes@.len(),
            bits@ == bytes@.subrange(5, i as int),
        decreases count - i,
    {
        bits.push(bytes[i]);
        assert(bits@ =~= bytes@.subrange(5, i + 1));
        i = i + 1;
    }
    assert(bits@ =~= bytes@.skip(5));
    Ok(Filter { m, k, bits })
}

/// Whether a name is in the filter that a text gives.
///
/// # Errors
///
/// As [`decode`].
pub fn contains(blob: &str, name: &str) -> (found: Result<bool, DecodeError>)
    ensures
        match decoded(blob@) {
            Ok((m, k, bits)) => found == Ok::<bool, DecodeError>(
                member(m, k, bits, fnv1a(encode_utf8(name@))),
            ),
            Err(error) => found == Err::<bool, DecodeError>(error),
        },
{
    contains_id(blob, id_of(name))
}

/// Whether an id is in the filter that a text gives.
///
/// # Errors
///
/// As [`decode`].
pub fn contains_id(blob: &str, id: u64) -> (found: Result<bool, DecodeError>)
    ensures
        match decoded(blob@) {
            Ok((m, k, bits)) => found == Ok::<bool, DecodeError>(member(m, k, bits, id)),
            Err(error) => found == Err::<bool, DecodeError>(error),
        },
{
    match decode(blob) {
        Ok(filter) => Ok(filter.contains_id(id)),
        Err(error) => Err(error),
    }
}

proof fn lemma_header(m: u32)
    ensures
        m % 256 + m / 256 % 256 * 256 + m / 65536 % 256 * 65536 + m / 16777216 * 16777216 == m,
{
    let high = m / 256;
    let higher = high / 256;
    assert(m / 65536 == higher);
    assert(m / 16777216 == higher / 256);
}

/// The text of a filter gives that filter back.
pub proof fn lemma_decode_inverts_encode(m: u32, k: u8, bits: Seq<u8>)
    requires
        bits.len() == bytes_for(m as nat),
        k == 0 || m > 0,
    ensures
        decoded(base64_text(filter_bytes(m, k, bits))) == Ok::<(u32, u8, Seq<u8>), DecodeError>(
            (m, k, bits),
        ),
{
    let bytes = filter_bytes(m, k, bits);
    lemma_base64_round_trip(bytes);
    lemma_header(m);
    assert(bytes[0] == (m % 256) as u8);
    assert(bytes[1] == (m / 256 % 256) as u8);
    assert(bytes[2] == (m / 65536 % 256) as u8);
    assert(bytes[3] == (m / 16777216) as u8);
    assert(header_bits(bytes) == m);
    assert(bytes.skip(5) =~= bits);
}

/// What was put into a filter is found in it: there are no false negatives.
pub proof fn lemma_no_false_negatives(m: u32, k: u8, bits: Seq<u8>, ids: Seq<u64>, id: u64)
    requires
        m > 0,
        holds_just(m, k, bits, ids),
        ids.contains(id),
    ensures
        member(m, k, bits, id),
{
    let i = choose|i: int| 0 <= i < ids.len() && ids[i] == id;
    assert forall|round: nat| round < k implies bit_at(bits, #[trigger] position(id, round, m)) by {
        assert(position(ids[i], round, m) == position(id, round, m));
        assert(position(id, round, m) < 8 * bits.len());
    }
}

/// Whoever was encoded is found in the text that came of it.
pub proof fn lemma_encoded_ids_are_found(size: Size, ids: Seq<u64>, blob: Seq<char>, id: u64)
    requires
        size.m > 0,
        exists|bits: Seq<u8>|
            #[trigger] holds_just(size.m, size.k, bits, ids) && blob == base64_text(
                filter_bytes(size.m, size.k, bits),
            ),
        ids.contains(id),
    ensures
        decoded(blob) matches Ok((m, k, bits)) && member(m, k, bits, id),
{
    let bits = choose|bits: Seq<u8>|
        #[trigger] holds_just(size.m, size.k, bits, ids) && blob == base64_text(
            filter_bytes(size.m, size.k, bits),
        );
    lemma_decode_inverts_encode(size.m, size.k, bits);
    lemma_no_false_negatives(size.m, size.k, bits, ids, id);
}

/// What is decoded can be searched: it has the bytes that its bits take, and bits if it
/// has rounds.
pub proof fn lemma_decoded_filter_is_searchable(blob: Seq<char>)
    ensures
        decoded(blob) matches Ok((m, k, bits)) ==> bits.len() == bytes_for(m as nat) && (k == 0 || m
            > 0),
{
}

/// Nothing is found in a filter that nothing was put into.
pub proof fn lemma_empty_filter_has_no_members(m: u32, k: u8, bits: Seq<u8>, id: u64)
    requires
        m > 0,
        k > 0,
        holds_just(m, k, bits, Seq::<u64>::empty()),
    ensures
        !member(m, k, bits, id),
{
    let at = position(id, 0, m);
    assert(at < 8 * bits.len());
    assert(!bit_at(bits, at));
}

/// Every id is found in the filter with all its bits set.
pub proof fn lemma_encode_all_has_every_member(id: u64)
    ensures
        decoded(base64_text(filter_bytes(8, 1, seq![255u8]))) == Ok::<
            (u32, u8, Seq<u8>),
            DecodeError,
        >((8u32, 1u8, seq![255u8])),
        member(8, 1, seq![255u8], id),
{
    lemma_decode_inverts_encode(8, 1, seq![255u8]);
    assert forall|round: nat| round < 1 implies bit_at(
        seq![255u8],
        #[trigger] position(id, round, 8),
    ) by {
        let shift = (position(id, round, 8) % 8) as u8;
        assert(shift < 8 ==> (255u8 >> shift) & 1 == 1) by (bit_vector);
    }
}

/// The bits of a filter are settled by what was put into it: two filters of the same
/// size and the same ids are the same, whatever the order of the ids.
pub proof fn lemma_filter_depends_on_the_set_only(
    m: u32,
    k: u8,
    a: Seq<u8>,
    b: Seq<u8>,
    x: Seq<u64>,
    y: Seq<u64>,
)
    requires
        holds_just(m, k, a, x),
        holds_just(m, k, b, y),
        x.to_set() == y.to_set(),
    ensures
        a == b,
{
    assert forall|i: int| 0 <= i < a.len() implies a[i] == b[i] by {
        assert forall|shift: u8| shift < 8 implies ((a[i] >> shift) & 1 == 1) == ((b[i] >> shift) & 1
            == 1) by {
            let at = (8 * i + shift) as nat;
            assert(at as int / 8 == i && (at % 8) as u8 == shift);
            assert(bit_at(a, at) == ((a[i] >> shift) & 1 == 1));
            assert(bit_at(b, at) == ((b[i] >> shift) & 1 == 1));
            if bit_at(a, at) {
                let (j, round) = choose|j: int, round: nat|
                    0 <= j < x.len() && round < k && #[trigger] position(x[j], round, m) == at;
                assert(x.to_set().contains(x[j]));
                let l = choose|l: int| 0 <= l < y.len() && y[l] == x[j];
                assert(position(y[l], round, m) == at);
            }
            if bit_at(b, at) {
                let (j, round) = choose|j: int, round: nat|
                    0 <= j < y.len() && round < k && #[trigger] position(y[j], round, m) == at;
                assert(y.to_set().contains(y[j]));
                let l = choose|l: int| 0 <= l < x.len() && x[l] == y[j];
                assert(position(x[l], round, m) == at);
            }
        }
        let p = a[i];
        let q = b[i];
        assert(((p >> 0u8) & 1 == 1) == ((q >> 0u8) & 1 == 1));
        assert(((p >> 1u8) & 1 == 1) == ((q >> 1u8) & 1 == 1));
        assert(((p >> 2u8) & 1 == 1) == ((q >> 2u8) & 1 == 1));
        assert(((p >> 3u8) & 1 == 1) == ((q >> 3u8) & 1 == 1));
        assert(((p >> 4u8) & 1 == 1) == ((q >> 4u8) & 1 == 1));
        assert(((p >> 5u8) & 1 == 1) == ((q >> 5u8) & 1 == 1));
        assert(((p >> 6u8) & 1 == 1) == ((q >> 6u8) & 1 == 1));
        assert(((p >> 7u8) & 1 == 1) == ((q >> 7u8) & 1 == 1));
        assert(p == q) by (bit_vector)
            requires
                ((p >> 0u8) & 1 == 1) == ((q >> 0u8) & 1 == 1),
                ((p >> 1u8) & 1 == 1) == ((q >> 1u8) & 1 == 1),
                ((p >> 2u8) & 1 == 1) == ((q >> 2u8) & 1 == 1),
                ((p >> 3u8) & 1 == 1) == ((q >> 3u8) & 1 == 1),
                ((p >> 4u8) & 1 == 1) == ((q >> 4u8) & 1 == 1),
                ((p >> 5u8) & 1 == 1) == ((q >> 5u8) & 1 == 1),
                ((p >> 6u8) & 1 == 1) == ((q >> 6u8) & 1 == 1),
                ((p >> 7u8) & 1 == 1) == ((q >> 7u8) & 1 == 1),
        ;
    }
    assert(a =~= b);
}

/// Every byte counts towards the hash, however many there are: one more byte mixes it into
/// the hash of those before and multiplies, and no byte at all leaves the start.
pub proof fn lemma_every_byte_counts(bytes: Seq<u8>, byte: u8)
    ensures
        fnv1a(Seq::<u8>::empty()) == 0xcbf2_9ce4_8422_2325u64,
        fnv1a(bytes.push(byte)) as int == ((fnv1a(bytes) ^ (byte as u64)) * 0x100_0000_01b3int)
            % 0x1_0000_0000_0000_0000int,
{
    assert(bytes.push(byte).drop_last() =~= bytes);
    assert(bytes.push(byte).last() == byte);
}

/// Multiplying by the prime loses nothing: it can be undone modulo the word size.
proof fn lemma_prime_can_be_undone(x: u64)
    ensures
        ((x * 0x100_0000_01b3int) % 0x1_0000_0000_0000_0000int * 0xce96_5057_aff6_957bint)
            % 0x1_0000_0000_0000_0000int == x,
{
    let m = 0x1_0000_0000_0000_0000int;
    let p = 0x100_0000_01b3int;
    let q = 0xce96_5057_aff6_957bint;
    let k = 0xce9650590fint;
    vstd::arithmetic::div_mod::lemma_mul_mod_noop_left(x * p, q, m);
    assert(p * q == 1 + k * m) by (nonlinear_arith)
        requires
            m == 0x1_0000_0000_0000_0000int,
            p == 0x100_0000_01b3int,
            q == 0xce96_5057_aff6_957bint,
            k == 0xce9650590fint,
    ;
    assert((x * p) * q == m * (x * k) + x) by (nonlinear_arith)
        requires
            p * q == 1 + k * m,
    ;
    vstd::arithmetic::div_mod::lemma_fundamental_div_mod_converse((x * p) * q, m, x * k, x as int);
}

/// Texts that differ in one byte at the end have different hashes, and so have those that go
/// on alike from different hashes.
pub proof fn lemma_one_different_byte_makes_another_hash(
    a: Seq<u8>,
    b: Seq<u8>,
    x: u8,
    y: u8,
)
    ensures
        x != y ==> fnv1a(a.push(x)) != fnv1a(a.push(y)),
        fnv1a(a) != fnv1a(b) ==> fnv1a(a.push(x)) != fnv1a(b.push(x)),
{
    lemma_every_byte_counts(a, x);
    lemma_every_byte_counts(a, y);
    lemma_every_byte_counts(b, x);
    let h = fnv1a(a);
    let g = fnv1a(b);
    lemma_prime_can_be_undone(h ^ (x as u64));
    lemma_prime_can_be_undone(h ^ (y as u64));
    lemma_prime_can_be_undone(g ^ (x as u64));
    assert(x != y ==> h ^ (x as u64) != h ^ (y as u64)) by (bit_vector);
    assert(h != g ==> h ^ (x as u64) != g ^ (x as u64)) by (bit_vector);
}

/// The id of a name that is one byte longer than another follows from the id of the other and
/// that byte. Names that differ in their last byte alone have different ids, however long
/// they are.
pub proof fn lemma_ids_of_longer_names(
    short: &str,
    long: &str,
    other: &str,
    byte: u8,
    last: u8,
    id_short: u64,
    id_long: u64,
    id_other: u64,
)
    requires
        call_ensures(id_of, (short,), id_short),
        call_ensures(id_of, (long,), id_long),
        call_ensures(id_of, (other,), id_other),
        encode_utf8(long@) == encode_utf8(short@).push(byte),
        encode_utf8(other@) == encode_utf8(short@).push(last),
    ensures
        id_long as int == ((id_short ^ (byte as u64)) * 0x100_0000_01b3int)
            % 0x1_0000_0000_0000_0000int,
        byte != last ==> id_long != id_other,
{
    lemma_every_byte_counts(encode_utf8(short@), byte);
    lemma_one_different_byte_makes_another_hash(
        encode_utf8(short@),
        encode_utf8(short@),
        byte,
        last,
    );
}

/// The id of the empty name is where the hash starts.
pub proof fn lemma_id_of_the_empty_name(name: &str, id: u64)
    requires
        call_ensures(id_of, (name,), id),
        encode_utf8(name@).len() == 0,
    ensures
        id == 0xcbf2_9ce4_8422_2325u64,
{
    lemma_every_byte_counts(Seq::empty(), 0);
    assert(encode_utf8(name@) =~= Seq::<u8>::empty());
}

/// The ids of names are the ids of each of them, in their order.
pub proof fn lemma_ids_of_names(names: Seq<&str>)
    ensures
        ids_of(names).len() == names.len(),
        forall|i: int|
            0 <= i < names.len() ==> #[trigger] ids_of(names)[i] == fnv1a(encode_utf8(names[i]@)),
{
}

/// Bits take as many bytes as hold them, and not one more.
pub proof fn lemma_bytes_hold_their_bits(bits: nat)
    ensures
        8 * bytes_for(bits) >= bits,
        8 * bytes_for(bits) < bits + 8,
{
}

/// A byte is the sum of the powers of two whose bits are set, and bit `at` of a filter is the
/// one of the byte that it falls into.
pub proof fn lemma_bits_make_up_bytes(byte: u8, bits: Seq<u8>, at: nat)
    requires
        at < 8 * bits.len(),
    ensures
        byte == (if bit_at(seq![byte], 0) { 1int } else { 0 })
            + (if bit_at(seq![byte], 1) { 2int } else { 0 })
            + (if bit_at(seq![byte], 2) { 4int } else { 0 })
            + (if bit_at(seq![byte], 3) { 8int } else { 0 })
            + (if bit_at(seq![byte], 4) { 16int } else { 0 })
            + (if bit_at(seq![byte], 5) { 32int } else { 0 })
            + (if bit_at(seq![byte], 6) { 64int } else { 0 })
            + (if bit_at(seq![byte], 7) { 128int } else { 0 }),
        bit_at(bits, at) == bit_at(seq![bits[at as int / 8]], at % 8),
{
    assert(byte == (if (byte >> 0u8) & 1 == 1 { 1u8 } else { 0u8 })
        + (if (byte >> 1u8) & 1 == 1 { 2u8 } else { 0u8 })
        + (if (byte >> 2u8) & 1 == 1 { 4u8 } else { 0u8 })
        + (if (byte >> 3u8) & 1 == 1 { 8u8 } else { 0u8 })
        + (if (byte >> 4u8) & 1 == 1 { 16u8 } else { 0u8 })
        + (if (byte >> 5u8) & 1 == 1 { 32u8 } else { 0u8 })
        + (if (byte >> 6u8) & 1 == 1 { 64u8 } else { 0u8 })
        + (if (byte >> 7u8) & 1 == 1 { 128u8 } else { 0u8 })) by (bit_vector);
}

/// The positions of an id: in each round the upper half of the id is added to the lower half
/// once more, modulo the size of a half, and the sum is taken modulo the number of bits.
pub proof fn lemma_positions_step_by_the_upper_half(id: u64, round: nat, m: u32) -> (sum: int)
    requires
        m > 0,
    ensures
        0 <= sum < 0x1_0000_0000int,
        exists|turns: int|
            id as int % 0x1_0000_0000int + round * (id as int / 0x1_0000_0000int) == #[trigger] (
            turns * 0x1_0000_0000int) + sum,
        position(id, round, m) == sum % m as int,
        position(id, round, m) < m,
{
    let low = id as int % 0x1_0000_0000int;
    let high = id as int / 0x1_0000_0000int;
    let total = low + round * high;
    assert(total >= 0) by (nonlinear_arith)
        requires
            total == low + round * high,
            low >= 0,
            high >= 0,
    ;
    let turns = total / 0x1_0000_0000int;
    assert(total == turns * 0x1_0000_0000int + total % 0x1_0000_0000int);
    total % 0x1_0000_0000int
}

/// An id is found in the text of a filter if and only if the bit at each of its positions is
/// set.
pub proof fn lemma_found_exactly_if_every_position_is_set(
    m: u32,
    k: u8,
    bits: Seq<u8>,
    text: &str,
    id: u64,
    found: Result<bool, DecodeError>,
)
    requires
        bits.len() == (m as int + 7) / 8,
        k == 0 || m > 0,
        text@ == base64_text(filter_bytes(m, k, bits)),
        call_ensures(contains_id, (text, id), found),
    ensures
        found is Ok,
        found->Ok_0 <==> (forall|round: nat|
            round < k ==> bit_at(bits, #[trigger] position(id, round, m))),
{
    lemma_decode_inverts_encode(m, k, bits);
}

/// The texts that `encode` and `encode_ids` give are those of filters of just the names and
/// just the ids, of the size asked for.
pub proof fn lemma_encoded_filters_hold_what_was_put_in(
    names: &[&str],
    ids: Vec<u64>,
    size: Size,
    of_names: String,
    of_ids: String,
)
    requires
        size.m > 0,
        call_ensures(encode, (names, size), of_names),
        call_ensures(encode_ids, (&ids, size), of_ids),
    ensures
        exists|bits: Seq<u8>|
            #[trigger] holds_just(size.m, size.k, bits, ids_of(names@)) && of_names@
                == base64_text(filter_bytes(size.m, size.k, bits)),
        exists|bits: Seq<u8>|
            #[trigger] holds_just(size.m, size.k, bits, ids@) && of_ids@ == base64_text(
                filter_bytes(size.m, size.k, bits),
            ),
{
}

/// A bit of a filter is set exactly if it is a position of an id that was put in.
pub proof fn lemma_bits_are_the_positions_taken(
    m: u32,
    k: u8,
    bits: Seq<u8>,
    ids: Seq<u64>,
    at: nat,
)
    requires
        holds_just(m, k, bits, ids),
        at < m,
    ensures
        8 * bits.len() >= m,
        8 * bits.len() < m + 8,
        bit_at(bits, at) <==> exists|i: int, round: nat|
            0 <= i < ids.len() && round < k && #[trigger] position(ids[i], round, m) == at,
{
}

/// The layout of a filter: four bytes that give the number of its bits, the lowest first, one
/// that gives the rounds, then its bits.
pub proof fn lemma_the_layout_of_a_filter(m: u32, k: u8, bits: Seq<u8>)
    ensures
        filter_bytes(m, k, bits).len() == 5 + bits.len(),
        filter_bytes(m, k, bits)[0] + 256 * filter_bytes(m, k, bits)[1] + 65536 * filter_bytes(
            m,
            k,
            bits,
        )[2] + 16777216 * filter_bytes(m, k, bits)[3] == m,
        filter_bytes(m, k, bits)[4] == k,
        filter_bytes(m, k, bits).skip(5) == bits,
{
    lemma_header(m);
    assert(filter_bytes(m, k, bits).skip(5) =~= bits);
}

/// What bytes are a filter: a header of five bytes, as many behind it as the number of bits
/// that the header gives takes, and some bit if there is a round. The filter is what the
/// header and the rest say.
pub proof fn lemma_what_bytes_are_a_filter(bytes: Vec<u8>, filter: Result<Filter, DecodeError>)
    requires
        call_ensures(parse, (&bytes,), filter),
    ensures
        bytes@.len() < 5 ==> filter == Err::<Filter, DecodeError>(DecodeError::Truncated),
        bytes@.len() >= 5 ==> {
            let m = bytes@[0] + 256 * bytes@[1] + 65536 * bytes@[2] + 16777216 * bytes@[3];
            let expected = (m + 7) / 8;
            let actual = bytes@.len() - 5;
            &&& expected != actual ==> (filter matches Err(DecodeError::LengthMismatch {
                expected: e,
                actual: a,
            }) && e == expected && a == actual)
            &&& expected == actual && m == 0 && bytes@[4] > 0 ==> filter == Err::<
                Filter,
                DecodeError,
            >(DecodeError::Truncated)
            &&& expected == actual && (m > 0 || bytes@[4] == 0) ==> (filter matches Ok(f) && f.m
                == m && f.k == bytes@[4] && f.bits@ == bytes@.skip(5))
        },
{
    if bytes@.len() >= 5 {
        let m = bytes@[0] + 256 * bytes@[1] + 65536 * bytes@[2] + 16777216 * bytes@[3];
        assert(0 <= m <= u32::MAX);
        assert(header_bits(bytes@) == m);
        assert(bytes.len() == bytes@.len());
        assert(bytes_for(m as nat) <= usize::MAX);
    }
}

/// What texts are a filter: the base64 texts of bytes that are one, and no others.
pub proof fn lemma_what_texts_are_a_filter(
    bytes: Vec<u8>,
    text: &str,
    other: &str,
    parsed_bytes: Result<Filter, DecodeError>,
    decoded_text: Result<Filter, DecodeError>,
    decoded_other: Result<Filter, DecodeError>,
)
    requires
        text@ == base64_text(bytes@),
        forall|b: Seq<u8>| #[trigger] base64_text(b) != other@,
        call_ensures(parse, (&bytes,), parsed_bytes),
        call_ensures(decode, (text,), decoded_text),
        call_ensures(decode, (other,), decoded_other),
    ensures
        match parsed_bytes {
            Ok(a) => decoded_text matches Ok(b) && a.m == b.m && a.k == b.k && a.bits@ == b.bits@,
            Err(error) => decoded_text == Err::<Filter, DecodeError>(error),
        },
        decoded_other == Err::<Filter, DecodeError>(DecodeError::Base64(base64_error(other@))),
{
    lemma_base64_round_trip(bytes@);
}

/// A filter is searched alike by the name and by its id, and refused alike.
pub proof fn lemma_names_are_found_by_their_ids(
    blob: &str,
    name: &str,
    id: u64,
    by_name: Result<bool, DecodeError>,
    by_id: Result<bool, DecodeError>,
    filter: Result<Filter, DecodeError>,
)
    requires
        call_ensures(id_of, (name,), id),
        call_ensures(contains, (blob, name), by_name),
        call_ensures(contains_id, (blob, id), by_id),
        call_ensures(decode, (blob,), filter),
    ensures
        by_name == by_id,
        match filter {
            Ok(f) => by_id is Ok && (by_id->Ok_0 <==> forall|round: nat|
                round < f.k ==> bit_at(f.bits@, #[trigger] position(id, round, f.m))),
            Err(error) => by_id == Err::<bool, DecodeError>(error),
        },
{
}

/// The size of a filter follows the estimate within its bounds: no fewer than eight bits, from
/// one round to 32, and the least of both for no item.
pub proof fn lemma_sizes_follow_the_estimate(items: usize, bits: u32, rounds: u8, m: u32, k: u8)
    requires
        call_ensures(bit_count, (items, bits), m),
        call_ensures(round_count, (items, rounds), k),
    ensures
        m >= 8,
        1 <= k <= 32,
        items == 0 ==> m == 8 && k == 1,
        items > 0 && bits >= 8 ==> m == bits,
        items > 0 && bits < 8 ==> m == 8,
        items > 0 && 1 <= rounds <= 32 ==> k == rounds,
        items > 0 && rounds > 32 ==> k == 32,
        items > 0 && rounds == 0 ==> k == 1,
{
}

/// Everything is found in the text that stands for all functions.
pub proof fn lemma_everything_is_found_in_all(
    blob: String,
    text: &str,
    id: u64,
    found: Result<bool, DecodeError>,
)
    requires
        call_ensures(encode_all, (), blob),
        text@ == blob@,
        call_ensures(contains_id, (text, id), found),
    ensures
        found == Ok::<bool, DecodeError>(true),
{
    lemma_encode_all_has_every_member(id);
}

} // verus!
