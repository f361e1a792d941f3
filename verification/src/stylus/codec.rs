//! A set of functions as a short text, by their ids and without loss.
//!
//! The ids are sorted, the gaps between them are written as LEB128 numbers, and the
//! bytes become URL-safe base64 text. Ids are dense, so the gaps are small and the
//! text is short.
use vstd::prelude::*;
use vstd::relations::{sorted_by, total_ordering};
use vstd::seq_lib::lemma_sorted_unique;
use vstd::string::StringExecFns;

use crate::stylus::url_base64::{base64_bytes, base64_decode, base64_encode, base64_error,
    base64_error_message, base64_error_words, base64_text, lemma_base64_is_url_safe,
    lemma_base64_round_trip, url_safe, Base64Error};
use crate::stylus::varint::{leb128_bytes, leb128_front, leb128_read, leb128_write,
    lemma_leb128_len_in_range, lemma_leb128_round_trip};

verus! {

/// Why a text is not a list of ids.
#[derive(Debug, Clone, Copy, PartialEq, Eq, Structural)]
pub enum DecodeError {
    /// The text is not base64.
    Base64(Base64Error),
    /// The bytes are not a run of LEB128 numbers: one ends too early or is too large.
    Leb128,
    /// The gaps add up to more than an id can be.
    Overflow,
}

impl DecodeError {
    /// The error in words.
    pub fn message(&self) -> (message: String)
        ensures
            message@ == match *self {
                DecodeError::Base64(error) => "invalid base64: "@ + base64_error_words(error),
                DecodeError::Leb128 => "malformed LEB128 delta stream"@,
                DecodeError::Overflow => "decoded ids overflow u64"@,
            },
    {
        match self {
            DecodeError::Base64(error) => {
                let mut message = String::from_str("invalid base64: ");
                let words = base64_error_message(error);
                message.append(words.as_str());
                message
            },
            DecodeError::Leb128 => "malformed LEB128 delta stream".to_owned(),
            DecodeError::Overflow => "decoded ids overflow u64".to_owned(),
        }
    }
}

/// Whether ids are in ascending order.
pub open spec fn ascending(ids: Seq<u64>) -> bool {
    forall|i: int, j: int| 0 <= i <= j < ids.len() ==> ids[i] <= ids[j]
}

/// The gaps between ascending ids as bytes, the first one from `from`.
pub open spec fn gap_bytes(ids: Seq<u64>, from: u64) -> Seq<u8>
    decreases ids.len(),
{
    if ids.len() == 0 {
        Seq::empty()
    } else {
        leb128_bytes((ids[0] - from) as nat) + gap_bytes(ids.skip(1), ids[0])
    }
}

/// The text of ascending ids.
pub open spec fn encoded(ids: Seq<u64>) -> Seq<char> {
    base64_text(gap_bytes(ids, 0))
}

/// The ids whose gaps, the first one from `from`, some bytes hold.
pub open spec fn ids_of_gaps(bytes: Seq<u8>, from: u64) -> Result<Seq<u64>, DecodeError>
    decreases bytes.len(),
{
    if bytes.len() == 0 {
        Ok(Seq::empty())
    } else {
        match leb128_front(bytes) {
            None => Err(DecodeError::Leb128),
            Some((gap, len)) => if from + gap > u64::MAX {
                Err(DecodeError::Overflow)
            } else {
                proof {
                    lemma_leb128_len_in_range(bytes);
                }
                let id = (from + gap) as u64;
                match ids_of_gaps(bytes.skip(len as int), id) {
                    Ok(rest) => Ok(seq![id] + rest),
                    Err(error) => Err(error),
                }
            },
        }
    }
}

/// The ids that a text stands for.
pub open spec fn decoded(text: Seq<char>) -> Result<Seq<u64>, DecodeError> {
    match base64_bytes(text) {
        Some(bytes) => ids_of_gaps(bytes, 0),
        None => Err(DecodeError::Base64(base64_error(text))),
    }
}

/// `slice::sort_unstable` on integers: the same numbers in ascending order.
#[verifier::external_body]
pub(crate) fn sort_ids(ids: &mut [u64])
    ensures
        ascending(final(ids)@),
        final(ids)@.to_multiset() == old(ids)@.to_multiset(),
{
    ids.sort_unstable();
}

/// The text of a list of ids. The list is sorted in place. An id that occurs twice
/// comes back twice, so who means a set takes the decoded list as one.
pub fn encode(ids: &mut [u64]) -> (text: String)
    ensures
        ascending(final(ids)@),
        final(ids)@.to_multiset() == old(ids)@.to_multiset(),
        text@ == encoded(final(ids)@),
{
    sort_ids(ids);
    let ghost all = ids@;
    let mut bytes: Vec<u8> = Vec::new();
    let mut prev: u64 = 0;
    let mut i: usize = 0;
    let count = ids.len();
    assert(all.skip(0) =~= all);
    while i < count
        invariant
            i <= count,
            count == all.len(),
            ids@ == all,
            ascending(all),
            prev == (if i == 0 {
                0
            } else {
                all[i - 1]
            }),
            bytes@ + gap_bytes(all.skip(i as int), prev) == gap_bytes(all, 0),
        decreases count - i,
    {
        let id = ids[i];
        let ghost done = bytes@;
        assert(prev <= id);
        leb128_write(&mut bytes, id - prev);
        proof {
            let rest = all.skip(i as int);
            assert(rest[0] == id);
            assert(rest.skip(1) =~= all.skip(i + 1));
            assert(done + gap_bytes(rest, prev) =~= bytes@ + gap_bytes(all.skip(i + 1), id));
        }
        prev = id;
        i = i + 1;
    }
    assert(bytes@ =~= gap_bytes(all, 0));
    base64_encode(&bytes)
}

/// The ids that a text stands for, in ascending order.
///
/// # Errors
///
/// [`DecodeError::Base64`] if the text is not base64, [`DecodeError::Leb128`] if its
/// bytes are not a run of numbers, [`DecodeError::Overflow`] if an id would not fit.
pub fn decode(text: &str) -> (ids: Result<Vec<u64>, DecodeError>)
    ensures
        match decoded(text@) {
            Ok(list) => ids matches Ok(ids) && ids@ == list,
            Err(error) => ids == Err::<Vec<u64>, DecodeError>(error),
        },
{
    let bytes = match base64_decode(text) {
        Ok(bytes) => bytes,
        Err(error) => {
            return Err(DecodeError::Base64(error));
        },
    };
    proof {
        assert(base64_text(bytes@) == text@);
        lemma_base64_round_trip(bytes@);
    }
    ids_from_gaps(bytes.as_slice())
}

/// The ids whose gaps some bytes hold.
///
/// # Errors
///
/// [`DecodeError::Leb128`] if the bytes are not a run of numbers,
/// [`DecodeError::Overflow`] if an id would not fit.
pub fn ids_from_gaps(bytes: &[u8]) -> (ids: Result<Vec<u64>, DecodeError>)
    ensures
        match ids_of_gaps(bytes@, 0) {
            Ok(list) => ids matches Ok(ids) && ids@ == list,
            Err(error) => ids == Err::<Vec<u64>, DecodeError>(error),
        },
{
    let ghost all = ids_of_gaps(bytes@, 0);
    let mut rest: &[u8] = bytes;
    let mut ids: Vec<u64> = Vec::new();
    let mut acc: u64 = 0;
    assert(match all {
        Ok(list) => list == ids@ + list,
        Err(_) => true,
    });
    while rest.len() > 0
        invariant
            match ids_of_gaps(rest@, acc) {
                Ok(list) => all == Ok::<Seq<u64>, DecodeError>(ids@ + list),
                Err(error) => all == Err::<Seq<u64>, DecodeError>(error),
            },
            all == ids_of_gaps(bytes@, 0),
        decreases rest@.len(),
    {
        proof {
            lemma_leb128_len_in_range(rest@);
        }
        match leb128_read(rest) {
            Ok((gap, behind)) => {
                if gap > u64::MAX - acc {
                    return Err(DecodeError::Overflow);
                }
                let ghost before = ids@;
                let ghost was = ids_of_gaps(rest@, acc);
                acc = acc + gap;
                ids.push(acc);
                rest = behind;
                proof {
                    match ids_of_gaps(rest@, acc) {
                        Ok(list) => {
                            assert(was == Ok::<Seq<u64>, DecodeError>(seq![acc] + list));
                            assert(before + (seq![acc] + list) =~= ids@ + list);
                        },
                        Err(_) => {},
                    }
                }
            },
            Err(_) => {
                return Err(DecodeError::Leb128);
            },
        }
    }
    assert(ids@ + Seq::<u64>::empty() =~= ids@);
    Ok(ids)
}

proof fn lemma_gaps_round_trip(ids: Seq<u64>, from: u64)
    requires
        ascending(ids),
        ids.len() > 0 ==> from <= ids[0],
    ensures
        ids_of_gaps(gap_bytes(ids, from), from) == Ok::<Seq<u64>, DecodeError>(ids),
    decreases ids.len(),
{
    let bytes = gap_bytes(ids, from);
    if ids.len() > 0 {
        let gap = (ids[0] - from) as u64;
        let rest = ids.skip(1);
        let tail = gap_bytes(rest, ids[0]);
        assert forall|i: int, j: int| 0 <= i <= j < rest.len() implies rest[i] <= rest[j] by {
            assert(rest[i] == ids[i + 1] && rest[j] == ids[j + 1]);
        }
        lemma_gaps_round_trip(rest, ids[0]);
        lemma_leb128_round_trip(gap, tail);
        let len = leb128_bytes(gap as nat).len();
        assert(bytes == leb128_bytes(gap as nat) + tail);
        assert(bytes.skip(len as int) =~= tail);
        lemma_leb128_len_in_range(bytes);
        assert(seq![ids[0]] + rest =~= ids);
    } else {
        assert(ids =~= Seq::empty());
    }
}

/// Decoding what encoding made gives the ids back, in ascending order: nothing is
/// lost and nothing is added.
pub proof fn lemma_decode_inverts_encode(ids: Seq<u64>)
    requires
        ascending(ids),
    ensures
        decoded(encoded(ids)) == Ok::<Seq<u64>, DecodeError>(ids),
{
    lemma_base64_round_trip(gap_bytes(ids, 0));
    lemma_gaps_round_trip(ids, 0);
}

/// Different ascending lists have different texts.
pub proof fn lemma_encoding_is_injective(a: Seq<u64>, b: Seq<u64>)
    requires
        ascending(a),
        ascending(b),
        encoded(a) == encoded(b),
    ensures
        a == b,
{
    lemma_decode_inverts_encode(a);
    lemma_decode_inverts_encode(b);
}

/// The order in which ids are given does not matter: two lists of the same ids have
/// one ascending list, and so one text.
pub proof fn lemma_order_does_not_matter(a: Seq<u64>, b: Seq<u64>, x: Seq<u64>, y: Seq<u64>)
    requires
        a.to_multiset() == b.to_multiset(),
        ascending(x),
        x.to_multiset() == a.to_multiset(),
        ascending(y),
        y.to_multiset() == b.to_multiset(),
    ensures
        x == y,
        encoded(x) == encoded(y),
{
    let leq = |i: u64, j: u64| i <= j;
    assert(total_ordering(leq));
    assert(sorted_by(x, leq));
    assert(sorted_by(y, leq));
    lemma_sorted_unique(x, y, leq);
}

/// A URL can hold the text of any ids as it is.
pub proof fn lemma_encoding_is_url_safe(ids: Seq<u64>)
    ensures
        forall|i: int| 0 <= i < encoded(ids).len() ==> url_safe(#[trigger] encoded(ids)[i]),
{
    lemma_base64_is_url_safe(gap_bytes(ids, 0));
}

/// Decoded ids are in ascending order, none below the one the gaps start from.
pub proof fn lemma_decoded_ids_ascend(bytes: Seq<u8>, from: u64)
    ensures
        ids_of_gaps(bytes, from) matches Ok(ids) ==> ascending(ids) && forall|i: int|
            0 <= i < ids.len() ==> from <= #[trigger] ids[i],
    decreases bytes.len(),
{
    if bytes.len() > 0 {
        match leb128_front(bytes) {
            None => {},
            Some((gap, len)) => {
                if from + gap <= u64::MAX {
                    lemma_leb128_len_in_range(bytes);
                    lemma_decoded_ids_ascend(bytes.skip(len as int), (from + gap) as u64);
                }
            },
        }
    }
}

/// The bytes of ids in two parts are those of the first part and then those of the second,
/// counted from the last id of the first. Those of a single id are its distance as a number.
pub proof fn lemma_gaps_of_two_parts(a: Seq<u64>, b: Seq<u64>, id: u64, from: u64)
    ensures
        gap_bytes(a + b, from) == gap_bytes(a, from) + gap_bytes(
            b,
            if a.len() == 0 {
                from
            } else {
                a.last()
            },
        ),
        from <= id ==> gap_bytes(seq![id], from) == leb128_bytes((id - from) as nat),
        gap_bytes(Seq::empty(), from).len() == 0,
        encoded(a) == base64_text(gap_bytes(a, 0)),
    decreases a.len(),
{
    assert(seq![id].skip(1) =~= Seq::<u64>::empty());
    assert(gap_bytes(Seq::<u64>::empty(), id) =~= Seq::<u8>::empty());
    reveal_with_fuel(gap_bytes, 2);
    assert(gap_bytes(seq![id], from) =~= leb128_bytes((id - from) as nat));
    if a.len() == 0 {
        assert(a + b =~= b);
        assert(gap_bytes(a + b, from) =~= gap_bytes(a, from) + gap_bytes(b, from));
    } else {
        let rest = a.skip(1);
        lemma_gaps_of_two_parts(rest, b, id, a[0]);
        assert((a + b).skip(1) =~= rest + b);
        assert(gap_bytes(a + b, from) =~= gap_bytes(a, from) + gap_bytes(b, a.last()));
    }
}

/// Ids that ascend still do with one more behind them exactly if it is not below the last, and
/// no ids ascend.
pub proof fn lemma_ascending_with_one_more(ids: Seq<u64>, id: u64)
    ensures
        ascending(Seq::empty()),
        ascending(ids.push(id)) <==> ascending(ids) && (ids.len() == 0 || ids.last() <= id),
{
    let more = ids.push(id);
    if ascending(more) {
        assert forall|i: int, j: int| 0 <= i <= j < ids.len() implies ids[i] <= ids[j] by {
            assert(more[i] == ids[i] && more[j] == ids[j]);
        }
        if ids.len() > 0 {
            assert(more[ids.len() - 1] <= more[ids.len() as int]);
        }
    }
    if ascending(ids) && (ids.len() == 0 || ids.last() <= id) {
        assert forall|i: int, j: int| 0 <= i <= j < more.len() implies more[i] <= more[j] by {
            if j == ids.len() && i < j {
                assert(ids[i] <= ids[ids.len() - 1]);
            }
        }
    }
}

/// How bytes are read as ids: a number at a time, each the distance from the id before. It
/// fails where a number cannot be read and where an id would not fit, whichever comes first,
/// and bytes that end between two numbers give the ids so far.
pub proof fn lemma_ids_are_read_a_number_at_a_time(bytes: Seq<u8>, from: u64)
    ensures
        bytes.len() == 0 ==> ids_of_gaps(bytes, from) == Ok::<Seq<u64>, DecodeError>(Seq::empty()),
        bytes.len() > 0 && leb128_front(bytes) is None ==> ids_of_gaps(bytes, from) == Err::<
            Seq<u64>,
            DecodeError,
        >(DecodeError::Leb128),
        bytes.len() > 0 ==> (leb128_front(bytes) matches Some((gap, len)) ==> {
            let next = from + gap;
            &&& next > u64::MAX ==> ids_of_gaps(bytes, from) == Err::<Seq<u64>, DecodeError>(
                DecodeError::Overflow,
            )
            &&& next <= u64::MAX ==> match ids_of_gaps(bytes.skip(len as int), next as u64) {
                Ok(rest) => ids_of_gaps(bytes, from) matches Ok(ids) && ids.len() == rest.len() + 1
                    && ids[0] == next && ids.skip(1) == rest,
                Err(error) => ids_of_gaps(bytes, from) == Err::<Seq<u64>, DecodeError>(error),
            }
        }),
{
    lemma_leb128_len_in_range(bytes);
    if bytes.len() > 0 {
        if let Some((gap, len)) = leb128_front(bytes) {
            if from + gap <= u64::MAX {
                let id = (from + gap) as u64;
                if let Ok(rest) = ids_of_gaps(bytes.skip(len as int), id) {
                    assert((seq![id] + rest).skip(1) =~= rest);
                }
            }
        }
    }
}

/// What texts are lists of ids: the base64 texts of bytes that are, which give the same ids and
/// the same errors, and no others.
pub proof fn lemma_what_texts_are_lists(
    bytes: &[u8],
    text: &str,
    other: &str,
    read: Result<Vec<u64>, DecodeError>,
    from_text: Result<Vec<u64>, DecodeError>,
    from_other: Result<Vec<u64>, DecodeError>,
)
    requires
        text@ == base64_text(bytes@),
        forall|b: Seq<u8>| #[trigger] base64_text(b) != other@,
        call_ensures(ids_from_gaps, (bytes,), read),
        call_ensures(decode, (text,), from_text),
        call_ensures(decode, (other,), from_other),
    ensures
        match ids_of_gaps(bytes@, 0) {
            Ok(ids) => (read matches Ok(list) && list@ == ids) && (from_text matches Ok(list)
                && list@ == ids),
            Err(error) => read == Err::<Vec<u64>, DecodeError>(error) && from_text == Err::<
                Vec<u64>,
                DecodeError,
            >(error),
        },
        from_other == Err::<Vec<u64>, DecodeError>(DecodeError::Base64(base64_error(other@))),
        decoded(text@) == ids_of_gaps(bytes@, 0),
{
    lemma_base64_round_trip(bytes@);
}

/// What is encoded is read back: the text of a list gives the same ids, each as often as it was
/// there, in ascending order.
pub proof fn lemma_what_is_encoded_is_read_back(
    ids: &mut [u64],
    text: String,
    read: &str,
    back: Result<Vec<u64>, DecodeError>,
)
    requires
        call_ensures(encode, (ids,), text),
        read@ == text@,
        call_ensures(decode, (read,), back),
    ensures
        back is Ok,
        back->Ok_0@ == final(ids)@,
        ascending(back->Ok_0@),
        back->Ok_0@.to_multiset() == old(ids)@.to_multiset(),
        text@ == base64_text(gap_bytes(final(ids)@, 0)),
{
    lemma_decode_inverts_encode(final(ids)@);
}

} // verus!
