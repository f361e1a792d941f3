//! Numbers as runs of bytes: unsigned LEB128.
use vstd::arithmetic::power::pow;
use vstd::prelude::*;

verus! {

/// Why no number could be read.
#[verifier::external_type_specification]
#[verifier::external_body]
pub struct ExLeb128Error(leb128::read::Error);

/// The most bytes that a number takes.
pub const MAX_LEN: usize = 10;

/// The bytes of a number: seven bits each, the lowest first, and the high bit set on
/// all but the last.
pub open spec fn leb128_bytes(value: nat) -> Seq<u8>
    decreases value,
{
    if value < 128 {
        seq![value as u8]
    } else {
        seq![(value % 128 + 128) as u8] + leb128_bytes(value / 128)
    }
}

/// The number of bytes up to the first one without the high bit, or nothing if every
/// byte has it.
pub open spec fn leb128_len(bytes: Seq<u8>) -> Option<nat>
    decreases bytes.len(),
{
    if bytes.len() == 0 {
        None
    } else if bytes[0] < 128 {
        Some(1)
    } else {
        match leb128_len(bytes.skip(1)) {
            Some(len) => Some(len + 1),
            None => None,
        }
    }
}

/// The number that some bytes stand for, taking seven bits of each.
pub open spec fn leb128_value(bytes: Seq<u8>) -> nat
    decreases bytes.len(),
{
    if bytes.len() == 0 {
        0
    } else {
        (bytes[0] % 128) as nat + 128 * leb128_value(bytes.skip(1))
    }
}

/// The number at the front of some bytes and how many bytes it takes, or nothing if
/// the bytes end in the middle of it or it does not fit.
pub open spec fn leb128_front(bytes: Seq<u8>) -> Option<(u64, nat)> {
    match leb128_len(bytes) {
        Some(len) => {
            let value = leb128_value(bytes.take(len as int));
            if len <= MAX_LEN && value <= u64::MAX {
                Some((value as u64, len))
            } else {
                None
            }
        },
        None => None,
    }
}

/// `leb128::write::unsigned` to a vector: the bytes of the number are appended.
#[verifier::external_body]
pub(crate) fn leb128_write(out: &mut Vec<u8>, value: u64)
    ensures
        final(out)@ == old(out)@ + leb128_bytes(value as nat),
{
    leb128::write::unsigned(out, value).expect("a vector can always be written to");
}

/// `leb128::read::unsigned` from a slice: the number at the front and the bytes behind
/// it. It fails if the bytes end before the number does, or if the number takes more
/// than ten bytes or more than 64 bits.
#[verifier::external_body]
pub(crate) fn leb128_read(bytes: &[u8]) -> (read: Result<(u64, &[u8]), leb128::read::Error>)
    ensures
        match read {
            Ok((value, rest)) => leb128_front(bytes@) is Some && value == (leb128_front(
                bytes@,
            )->0).0 && rest@ == bytes@.skip((leb128_front(bytes@)->0).1 as int),
            Err(_) => leb128_front(bytes@) is None,
        },
{
    let mut rest = bytes;
    match leb128::read::unsigned(&mut rest) {
        Ok(value) => Ok((value, rest)),
        Err(error) => Err(error),
    }
}

/// A number takes at least one byte, and no more than there are.
pub proof fn lemma_leb128_len_in_range(bytes: Seq<u8>)
    ensures
        leb128_len(bytes) matches Some(len) ==> 1 <= len <= bytes.len(),
    decreases bytes.len(),
{
    if bytes.len() > 0 {
        lemma_leb128_len_in_range(bytes.skip(1));
    }
}

/// The bytes of a number, whatever stands behind them, are read back as that number.
pub proof fn lemma_leb128_round_trip(value: u64, rest: Seq<u8>)
    ensures
        leb128_front(leb128_bytes(value as nat) + rest) == Some(
            (value, leb128_bytes(value as nat).len()),
        ),
{
    lemma_len_and_value(value as nat, rest);
    assert(pow(128, 10) == 0x40_0000_0000_0000_0000int) by {
        reveal_with_fuel(pow, 11);
    }
    lemma_fits(value as nat, 10);
    let bytes = leb128_bytes(value as nat);
    assert((bytes + rest).take(bytes.len() as int) =~= bytes);
}

proof fn lemma_len_and_value(value: nat, rest: Seq<u8>)
    ensures
        leb128_len(leb128_bytes(value) + rest) == Some(leb128_bytes(value).len()),
        leb128_value(leb128_bytes(value)) == value,
    decreases value,
{
    let bytes = leb128_bytes(value);
    let all = bytes + rest;
    if value < 128 {
        reveal_with_fuel(leb128_value, 2);
        assert(all[0] == value as u8);
    } else {
        lemma_len_and_value(value / 128, rest);
        let tail = leb128_bytes(value / 128);
        assert(bytes.skip(1) =~= tail);
        assert(all.skip(1) =~= tail + rest);
        assert(all[0] == (value % 128 + 128) as u8);
    }
}

proof fn lemma_fits(value: nat, len: nat)
    requires
        len > 0,
        value < pow(128, len),
    ensures
        leb128_bytes(value).len() <= len,
    decreases len,
{
    reveal(pow);
    if value >= 128 {
        assert(len > 1) by {
            reveal_with_fuel(pow, 2);
        }
        let less = (len - 1) as nat;
        assert(value / 128 < pow(128, less)) by {
            assert(pow(128, len) == 128 * pow(128, less));
        }
        lemma_fits(value / 128, less);
    }
}

/// Where a number ends: at the first byte without the high bit.
pub proof fn lemma_a_number_ends_at_the_first_low_byte(bytes: Seq<u8>)
    ensures
        leb128_len(bytes) matches Some(len) ==> 1 <= len <= bytes.len() && bytes[len - 1] < 128 && (
        forall|i: int| 0 <= i < len - 1 ==> #[trigger] bytes[i] >= 128),
        leb128_len(bytes) is None ==> (forall|i: int|
            0 <= i < bytes.len() ==> #[trigger] bytes[i] >= 128),
    decreases bytes.len(),
{
    if bytes.len() > 0 && bytes[0] >= 128 {
        let rest = bytes.skip(1);
        lemma_a_number_ends_at_the_first_low_byte(rest);
        assert forall|i: int| 0 <= i < rest.len() implies #[trigger] rest[i] == bytes[i + 1] by {}
        if leb128_len(rest) is None {
            assert forall|i: int| 0 <= i < bytes.len() implies #[trigger] bytes[i] >= 128 by {
                if i > 0 {
                    assert(rest[i - 1] == bytes[i]);
                }
            }
        } else {
            let len = leb128_len(rest)->0;
            assert(rest[len - 1] == bytes[len as int]);
            assert forall|i: int| 0 <= i < len implies #[trigger] bytes[i] >= 128 by {
                if i > 0 {
                    assert(rest[i - 1] == bytes[i]);
                }
            }
        }
    }
}

/// The bytes of a number stand for it, take no more bytes than it needs, and end where it does.
pub proof fn lemma_the_bytes_of_a_number(value: nat, byte: u8, rest: Seq<u8>)
    ensures
        leb128_value(leb128_bytes(value)) == value,
        leb128_len(leb128_bytes(value)) == Some(leb128_bytes(value).len()),
        leb128_bytes(value).len() > 1 ==> leb128_bytes(value).last() > 0,
        leb128_value(Seq::empty()) == 0,
        leb128_value(seq![byte] + rest) == byte as int % 128 + 128 * leb128_value(rest),
    decreases value,
{
    lemma_len_and_value(value, Seq::empty());
    assert(leb128_bytes(value) + Seq::<u8>::empty() =~= leb128_bytes(value));
    assert((seq![byte] + rest).skip(1) =~= rest);
    if value >= 128 {
        lemma_the_bytes_of_a_number(value / 128, byte, rest);
        assert(leb128_bytes(value).last() == leb128_bytes(value / 128).last());
        if value / 128 < 128 {
            assert(leb128_bytes(value / 128).last() == (value / 128) as u8);
        }
    }
}

/// When a number can be read from the front of some bytes: exactly if it ends among the first
/// ten of them and fits into 64 bits. It takes the bytes up to its end.
pub proof fn lemma_when_a_number_can_be_read(bytes: Seq<u8>)
    ensures
        match leb128_len(bytes) {
            Some(len) => {
                let value = leb128_value(bytes.take(len as int));
                if len <= 10 && value < 0x1_0000_0000_0000_0000 {
                    leb128_front(bytes) matches Some((read, used)) && read == value && used == len
                } else {
                    leb128_front(bytes) is None
                }
            },
            None => leb128_front(bytes) is None,
        },
{
}

} // verus!
