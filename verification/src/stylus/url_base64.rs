//! Bytes as text that is safe in a URL: base64 with the URL-safe alphabet and
//! without padding.
use base64::engine::general_purpose::URL_SAFE_NO_PAD;
use base64::Engine as _;
use vstd::prelude::*;

use crate::text::decimal;

verus! {

/// Why a text is not base64.
#[derive(Debug, Clone, Copy, PartialEq, Eq, Structural)]
pub enum Base64Error {
    /// A byte outside the alphabet.
    InvalidByte {
        /// The position of the byte.
        offset: usize,
        /// The byte.
        byte: u8,
    },
    /// No text has this many symbols.
    InvalidLength {
        /// The number of symbols.
        symbols: usize,
    },
    /// A last symbol with bits that belong to no byte.
    InvalidLastSymbol {
        /// The position of the symbol.
        offset: usize,
        /// The symbol.
        byte: u8,
    },
    /// Padding that is wrong or absent.
    InvalidPadding,
}

/// The symbol for six bits.
pub open spec fn base64_symbol(bits: int) -> char {
    if bits < 26 {
        (65 + bits) as char
    } else if bits < 52 {
        (97 + bits - 26) as char
    } else if bits < 62 {
        (48 + bits - 52) as char
    } else if bits == 62 {
        '-'
    } else {
        '_'
    }
}

/// The text of some bytes: four symbols for every three bytes, and one symbol more
/// than bytes for the one or two that are left.
pub open spec fn base64_text(bytes: Seq<u8>) -> Seq<char>
    decreases bytes.len(),
{
    if bytes.len() == 0 {
        Seq::empty()
    } else if bytes.len() == 1 {
        seq![base64_symbol(bytes[0] as int / 4), base64_symbol(bytes[0] as int % 4 * 16)]
    } else if bytes.len() == 2 {
        seq![
            base64_symbol(bytes[0] as int / 4),
            base64_symbol(bytes[0] as int % 4 * 16 + bytes[1] as int / 16),
            base64_symbol(bytes[1] as int % 16 * 4),
        ]
    } else {
        seq![
            base64_symbol(bytes[0] as int / 4),
            base64_symbol(bytes[0] as int % 4 * 16 + bytes[1] as int / 16),
            base64_symbol(bytes[1] as int % 16 * 4 + bytes[2] as int / 64),
            base64_symbol(bytes[2] as int % 64),
        ] + base64_text(bytes.skip(3))
    }
}

/// The bytes whose text this is, if there are any.
pub open spec fn base64_bytes(text: Seq<char>) -> Option<Seq<u8>> {
    if exists|bytes: Seq<u8>| #[trigger] base64_text(bytes) == text {
        Some(choose|bytes: Seq<u8>| #[trigger] base64_text(bytes) == text)
    } else {
        None
    }
}

/// Why a text is the text of no bytes.
pub uninterp spec fn base64_error(text: Seq<char>) -> Base64Error;

/// An error in words.
pub open spec fn base64_error_words(error: Base64Error) -> Seq<char> {
    match error {
        Base64Error::InvalidByte { offset, byte } => "Invalid symbol "@ + decimal(byte as nat)
            + ", offset "@ + decimal(offset as nat) + "."@,
        Base64Error::InvalidLength { symbols } => "Invalid input length: "@ + decimal(
            symbols as nat,
        ),
        Base64Error::InvalidLastSymbol { offset, byte } => "Invalid last symbol "@ + decimal(
            byte as nat,
        ) + ", offset "@ + decimal(offset as nat) + "."@,
        Base64Error::InvalidPadding => "Invalid padding"@,
    }
}

/// `Engine::encode` of `URL_SAFE_NO_PAD`: the base64 text of the bytes, as RFC 4648
/// has it for URLs, without padding.
#[verifier::external_body]
pub(crate) fn base64_encode(bytes: &Vec<u8>) -> (text: String)
    ensures
        text@ == base64_text(bytes@),
{
    URL_SAFE_NO_PAD.encode(bytes)
}

/// `Engine::decode` of `URL_SAFE_NO_PAD`: the bytes whose text this is. Any other
/// text is refused: one with padding, with a symbol outside the alphabet, of an
/// impossible length, or with stray bits in its last symbol. Which error comes is a
/// function of the text.
#[verifier::external_body]
pub(crate) fn base64_decode(text: &str) -> (decoded: Result<Vec<u8>, Base64Error>)
    ensures
        match decoded {
            Ok(bytes) => base64_text(bytes@) == text@,
            Err(error) => error == base64_error(text@) && forall|other: Seq<u8>|
                #[trigger] base64_text(other) != text@,
        },
{
    match URL_SAFE_NO_PAD.decode(text) {
        Ok(bytes) => Ok(bytes),
        Err(base64::DecodeError::InvalidByte(offset, byte)) => Err(
            Base64Error::InvalidByte { offset, byte },
        ),
        Err(base64::DecodeError::InvalidLength(symbols)) => Err(
            Base64Error::InvalidLength { symbols },
        ),
        Err(base64::DecodeError::InvalidLastSymbol(offset, byte)) => Err(
            Base64Error::InvalidLastSymbol { offset, byte },
        ),
        Err(base64::DecodeError::InvalidPadding) => Err(Base64Error::InvalidPadding),
    }
}

/// `Display` of `base64::DecodeError`: what is wrong, then the symbol as a number and
/// where it stands, or the length.
#[verifier::external_body]
pub(crate) fn base64_error_message(error: &Base64Error) -> (words: String)
    ensures
        words@ == base64_error_words(*error),
{
    match *error {
        Base64Error::InvalidByte { offset, byte } => base64::DecodeError::InvalidByte(offset, byte),
        Base64Error::InvalidLength { symbols } => base64::DecodeError::InvalidLength(symbols),
        Base64Error::InvalidLastSymbol { offset, byte } => {
            base64::DecodeError::InvalidLastSymbol(offset, byte)
        },
        Base64Error::InvalidPadding => base64::DecodeError::InvalidPadding,
    }.to_string()
}

proof fn lemma_symbols_differ(a: int, b: int)
    requires
        0 <= a < 64,
        0 <= b < 64,
        base64_symbol(a) == base64_symbol(b),
    ensures
        a == b,
{
}

proof fn lemma_text_len(bytes: Seq<u8>)
    ensures
        base64_text(bytes).len() == bytes.len() / 3 * 4 + (if bytes.len() % 3 == 0 {
            0nat
        } else {
            bytes.len() % 3 + 1
        }),
    decreases bytes.len(),
{
    if bytes.len() >= 3 {
        lemma_text_len(bytes.skip(3));
    }
}

/// The symbols that three bytes or more begin with.
proof fn lemma_text_front(bytes: Seq<u8>)
    requires
        bytes.len() >= 3,
    ensures
        base64_text(bytes)[0] == base64_symbol(bytes[0] as int / 4),
        base64_text(bytes)[1] == base64_symbol(bytes[0] as int % 4 * 16 + bytes[1] as int / 16),
        base64_text(bytes)[2] == base64_symbol(bytes[1] as int % 16 * 4 + bytes[2] as int / 64),
        base64_text(bytes)[3] == base64_symbol(bytes[2] as int % 64),
        base64_text(bytes).skip(4) == base64_text(bytes.skip(3)),
{
    assert(base64_text(bytes).skip(4) =~= base64_text(bytes.skip(3)));
}

/// Three bytes with the same symbols are the same.
proof fn lemma_group_is_injective(a0: u8, a1: u8, a2: u8, b0: u8, b1: u8, b2: u8)
    requires
        base64_symbol(a0 as int / 4) == base64_symbol(b0 as int / 4),
        base64_symbol(a0 as int % 4 * 16 + a1 as int / 16) == base64_symbol(
            b0 as int % 4 * 16 + b1 as int / 16,
        ),
        base64_symbol(a1 as int % 16 * 4 + a2 as int / 64) == base64_symbol(
            b1 as int % 16 * 4 + b2 as int / 64,
        ),
        base64_symbol(a2 as int % 64) == base64_symbol(b2 as int % 64),
    ensures
        a0 == b0,
        a1 == b1,
        a2 == b2,
{
    lemma_symbols_differ(a0 as int / 4, b0 as int / 4);
    lemma_symbols_differ(a0 as int % 4 * 16 + a1 as int / 16, b0 as int % 4 * 16 + b1 as int / 16);
    lemma_symbols_differ(a1 as int % 16 * 4 + a2 as int / 64, b1 as int % 16 * 4 + b2 as int / 64);
    lemma_symbols_differ(a2 as int % 64, b2 as int % 64);
}

/// Different bytes have different texts.
pub proof fn lemma_base64_is_injective(a: Seq<u8>, b: Seq<u8>)
    requires
        base64_text(a) == base64_text(b),
    ensures
        a == b,
    decreases a.len(),
{
    lemma_text_len(a);
    lemma_text_len(b);
    assert(a.len() == b.len());
    let text = base64_text(a);
    if a.len() == 0 {
        assert(a =~= b);
    } else if a.len() == 1 {
        assert(text[0] == base64_symbol(a[0] as int / 4));
        assert(text[0] == base64_symbol(b[0] as int / 4));
        assert(text[1] == base64_symbol(a[0] as int % 4 * 16));
        assert(text[1] == base64_symbol(b[0] as int % 4 * 16));
        lemma_group_is_injective(a[0], 0, 0, b[0], 0, 0);
        assert(a =~= b);
    } else if a.len() == 2 {
        assert(text[0] == base64_symbol(a[0] as int / 4));
        assert(text[0] == base64_symbol(b[0] as int / 4));
        assert(text[1] == base64_symbol(a[0] as int % 4 * 16 + a[1] as int / 16));
        assert(text[1] == base64_symbol(b[0] as int % 4 * 16 + b[1] as int / 16));
        assert(text[2] == base64_symbol(a[1] as int % 16 * 4));
        assert(text[2] == base64_symbol(b[1] as int % 16 * 4));
        lemma_group_is_injective(a[0], a[1], 0, b[0], b[1], 0);
        assert(a =~= b);
    } else {
        lemma_text_front(a);
        lemma_text_front(b);
        lemma_group_is_injective(a[0], a[1], a[2], b[0], b[1], b[2]);
        lemma_base64_is_injective(a.skip(3), b.skip(3));
        assert forall|i: int| 0 <= i < a.len() implies a[i] == b[i] by {
            if i >= 3 {
                assert(a[i] == a.skip(3)[i - 3]);
                assert(b[i] == b.skip(3)[i - 3]);
            }
        }
        assert(a =~= b);
    }
}

/// The bytes of the text of some bytes are those bytes.
pub proof fn lemma_base64_round_trip(bytes: Seq<u8>)
    ensures
        base64_bytes(base64_text(bytes)) == Some(bytes),
{
    let text = base64_text(bytes);
    let found = choose|other: Seq<u8>| #[trigger] base64_text(other) == text;
    lemma_base64_is_injective(found, bytes);
}

/// Whether a URL can hold the character as it is.
pub open spec fn url_safe(c: char) -> bool {
    'A' <= c <= 'Z' || 'a' <= c <= 'z' || '0' <= c <= '9' || c == '-' || c == '_'
}

/// A URL can hold the text of any bytes as it is.
pub proof fn lemma_base64_is_url_safe(bytes: Seq<u8>)
    ensures
        forall|i: int| 0 <= i < base64_text(bytes).len() ==> url_safe(#[trigger] base64_text(bytes)[i]),
    decreases bytes.len(),
{
    if bytes.len() >= 3 {
        lemma_base64_is_url_safe(bytes.skip(3));
        let rest = base64_text(bytes.skip(3));
        assert forall|i: int| 0 <= i < base64_text(bytes).len() implies url_safe(
            #[trigger] base64_text(bytes)[i],
        ) by {
            if i >= 4 {
                assert(base64_text(bytes)[i] == rest[i - 4]);
            }
        }
    }
}

} // verus!
