//! Ids as people write them: decimal numbers with white space between them.
use vstd::prelude::*;
use vstd::string::{StrSliceExecFns, StringExecFns};

use crate::stylus::codec::{ascending, encode, encoded};
use crate::text::{code_points, is_white_space, white_space};

verus! {

/// Why a word is not an id.
#[derive(Debug, Clone, Copy, PartialEq, Eq, Structural)]
pub enum IdError {
    /// There is no digit, or something else than digits.
    InvalidDigit,
    /// The number does not fit.
    TooLarge,
}

impl IdError {
    /// The error in words.
    pub fn message(&self) -> (message: String)
        ensures
            message@ == match *self {
                IdError::InvalidDigit => "invalid digit found in string"@,
                IdError::TooLarge => "number too large to fit in target type"@,
            },
    {
        match self {
            IdError::InvalidDigit => "invalid digit found in string".to_owned(),
            IdError::TooLarge => "number too large to fit in target type".to_owned(),
        }
    }
}

/// A word that is not an id, and why.
#[derive(Debug, Clone)]
pub struct InvalidId {
    /// The word.
    pub word: String,
    /// Why it is not an id.
    pub error: IdError,
}

impl InvalidId {
    /// The error in words.
    pub fn message(&self) -> (message: String)
        ensures
            message@ == "invalid id `"@ + self.word@ + "`: "@ + match self.error {
                IdError::InvalidDigit => "invalid digit found in string"@,
                IdError::TooLarge => "number too large to fit in target type"@,
            },
    {
        let head = String::from_str("invalid id `").concat(self.word.as_str()).concat("`: ");
        head.concat(self.error.message().as_str())
    }
}

/// The number that digits give when they stand behind `before`.
pub open spec fn number(digits: Seq<char>, before: nat) -> Result<u64, IdError>
    decreases digits.len(),
{
    if digits.len() == 0 {
        Ok(before as u64)
    } else if !('0' <= digits[0] <= '9') {
        Err(IdError::InvalidDigit)
    } else if before * 10 + (digits[0] as nat - 48) > u64::MAX {
        Err(IdError::TooLarge)
    } else {
        number(digits.skip(1), (before * 10 + (digits[0] as nat - 48)) as nat)
    }
}

/// The id that a word gives: digits, of which there is at least one, and perhaps a
/// plus sign before them.
pub open spec fn id_of_word(word: Seq<char>) -> Result<u64, IdError> {
    let digits = if word.len() > 0 && word[0] == '+' {
        word.skip(1)
    } else {
        word
    };
    if digits.len() == 0 {
        Err(IdError::InvalidDigit)
    } else {
        number(digits, 0)
    }
}

/// The length of the word that a text begins with: up to the first white space.
pub open spec fn word_len(text: Seq<char>) -> nat
    decreases text.len(),
{
    if text.len() == 0 || white_space(text[0]) {
        0
    } else {
        1 + word_len(text.skip(1))
    }
}

/// The words of a text: its longest runs without white space.
pub open spec fn words(text: Seq<char>) -> Seq<Seq<char>>
    decreases text.len(),
{
    if text.len() == 0 {
        Seq::empty()
    } else if white_space(text[0]) {
        words(text.skip(1))
    } else {
        proof {
            lemma_word_len(text);
        }
        seq![text.take(word_len(text) as int)] + words(text.skip(word_len(text) as int))
    }
}

/// The ids that words give, or the first word that gives none.
pub open spec fn ids_of_words(list: Seq<Seq<char>>) -> Result<Seq<u64>, (Seq<char>, IdError)>
    decreases list.len(),
{
    if list.len() == 0 {
        Ok(Seq::empty())
    } else {
        match id_of_word(list[0]) {
            Err(error) => Err((list[0], error)),
            Ok(id) => match ids_of_words(list.skip(1)) {
                Ok(rest) => Ok(seq![id] + rest),
                Err(error) => Err(error),
            },
        }
    }
}

/// A word is no longer than the text, and not empty where the text begins with one.
pub proof fn lemma_word_len(text: Seq<char>)
    ensures
        word_len(text) <= text.len(),
        text.len() > 0 && !white_space(text[0]) ==> word_len(text) >= 1,
    decreases text.len(),
{
    if text.len() > 0 && !white_space(text[0]) {
        lemma_word_len(text.skip(1));
    }
}

/// The end of the word that begins at `from`.
fn word_end(chars: &Vec<char>, from: usize) -> (end: usize)
    requires
        from <= chars@.len(),
    ensures
        end == from + word_len(chars@.skip(from as int)),
        from <= end <= chars@.len(),
{
    let count = chars.len();
    let mut end = from;
    while end < count && !is_white_space(chars[end])
        invariant
            from <= end <= count,
            count == chars@.len(),
            word_len(chars@.skip(from as int)) == end - from + word_len(chars@.skip(end as int)),
        decreases count - end,
    {
        assert(chars@.skip(end as int).skip(1) =~= chars@.skip(end + 1));
        end = end + 1;
    }
    end
}

/// The id that the word from `from` to `end` gives.
fn word_to_id(chars: &Vec<char>, from: usize, end: usize) -> (id: Result<u64, IdError>)
    requires
        from <= end <= chars@.len(),
    ensures
        id == id_of_word(chars@.subrange(from as int, end as int)),
{
    let ghost word = chars@.subrange(from as int, end as int);
    let mut at = from;
    if at < end && chars[at] == '+' {
        at = at + 1;
        assert(word.skip(1) =~= chars@.subrange(at as int, end as int));
    }
    if at == end {
        return Err(IdError::InvalidDigit);
    }
    let ghost digits = chars@.subrange(at as int, end as int);
    assert(id_of_word(word) == number(digits, 0));
    let mut value: u64 = 0;
    while at < end
        invariant
            at <= end <= chars@.len(),
            id_of_word(chars@.subrange(from as int, end as int)) == number(digits, 0),
            number(digits, 0) == number(chars@.subrange(at as int, end as int), value as nat),
        decreases end - at,
    {
        let c = chars[at];
        let ghost rest = chars@.subrange(at as int, end as int);
        assert(rest[0] == c);
        assert(rest.skip(1) =~= chars@.subrange(at + 1, end as int));
        if c < '0' || c > '9' {
            return Err(IdError::InvalidDigit);
        }
        let digit: u64 = (c as u32 - 48) as u64;
        if value > u64::MAX / 10 || value * 10 > u64::MAX - digit {
            return Err(IdError::TooLarge);
        }
        value = value * 10 + digit;
        at = at + 1;
    }
    Ok(value)
}

/// The ids that a text lists.
///
/// # Errors
///
/// [`InvalidId`] with the first word that is not an id.
pub fn parse_ids(text: &str) -> (ids: Result<Vec<u64>, InvalidId>)
    ensures
        match ids_of_words(words(text@)) {
            Ok(list) => ids matches Ok(ids) && ids@ == list,
            Err((word, error)) => ids matches Err(invalid) && invalid.word@ == word
                && invalid.error == error,
        },
{
    let chars = code_points(text);
    let count = chars.len();
    let ghost all = ids_of_words(words(chars@));
    let mut ids: Vec<u64> = Vec::new();
    let mut at: usize = 0;
    assert(chars@.skip(0) =~= chars@);
    assert(all matches Ok(list) ==> list =~= ids@ + list);
    while at < count
        invariant
            at <= count,
            count == chars@.len(),
            chars@ == text@,
            all == ids_of_words(words(text@)),
            match ids_of_words(words(chars@.skip(at as int))) {
                Ok(list) => all == Ok::<Seq<u64>, (Seq<char>, IdError)>(ids@ + list),
                Err(error) => all == Err::<Seq<u64>, (Seq<char>, IdError)>(error),
            },
        decreases count - at,
    {
        let ghost rest = chars@.skip(at as int);
        assert(rest[0] == chars@[at as int]);
        if is_white_space(chars[at]) {
            assert(rest.skip(1) =~= chars@.skip(at + 1));
            at = at + 1;
        } else {
            let end = word_end(&chars, at);
            proof {
                lemma_word_len(rest);
                assert(rest.take(word_len(rest) as int) =~= chars@.subrange(at as int, end as int));
                assert(rest.skip(word_len(rest) as int) =~= chars@.skip(end as int));
                let list = words(rest);
                assert(list[0] == chars@.subrange(at as int, end as int));
                assert(list.skip(1) =~= words(chars@.skip(end as int)));
            }
            match word_to_id(&chars, at, end) {
                Ok(id) => {
                    let ghost before = ids@;
                    ids.push(id);
                    proof {
                        match ids_of_words(words(chars@.skip(end as int))) {
                            Ok(list) => {
                                assert(before + (seq![id] + list) =~= ids@ + list);
                            },
                            Err(_) => {},
                        }
                    }
                },
                Err(error) => {
                    let word = text.substring_char(at, end).to_owned();
                    return Err(InvalidId { word, error });
                },
            }
            at = end;
        }
    }
    assert(chars@.skip(at as int) =~= Seq::<char>::empty());
    assert(ids@ + Seq::<u64>::empty() =~= ids@);
    Ok(ids)
}

/// The encoded form of the ids that a text lists.
///
/// # Errors
///
/// As [`parse_ids`].
pub fn encode_listed(text: &str) -> (coded: Result<String, InvalidId>)
    ensures
        match ids_of_words(words(text@)) {
            Ok(list) => coded matches Ok(coded) && exists|sorted: Seq<u64>| #[trigger]
                ascending(sorted) && sorted.to_multiset() == list.to_multiset() && coded@ == encoded(
                    sorted,
                ),
            Err((word, error)) => coded matches Err(invalid) && invalid.word@ == word
                && invalid.error == error,
        },
{
    match parse_ids(text) {
        Ok(ids) => {
            let mut ids = ids;
            let coded = encode(ids.as_mut_slice());
            assert(ascending(ids@));
            Ok(coded)
        },
        Err(invalid) => Err(invalid),
    }
}

/// Words are told apart by white space alone: a text with white space between two parts has the
/// words of the one and then those of the other. A run without white space is one word, and
/// an empty text has none.
pub proof fn lemma_white_space_parts_words(a: Seq<char>, space: char, b: Seq<char>)
    requires
        white_space(space),
    ensures
        words(a + seq![space] + b) == words(a) + words(b),
        a.len() > 0 && (forall|i: int| 0 <= i < a.len() ==> !white_space(#[trigger] a[i])) ==> words(
            a,
        ) == seq![a],
        words(Seq::empty()).len() == 0,
    decreases a.len(),
{
    let all = a + seq![space] + b;
    if a.len() == 0 {
        assert(all.skip(1) =~= b);
        assert(words(a) + words(b) =~= words(b));
    } else if white_space(a[0]) {
        lemma_white_space_parts_words(a.skip(1), space, b);
        assert(all.skip(1) =~= a.skip(1) + seq![space] + b);
    } else {
        lemma_word_len(a);
        lemma_word_len(all);
        lemma_word_len_before_space(a, space, b);
        let len = word_len(a) as int;
        assert(all.take(len) =~= a.take(len));
        lemma_white_space_parts_words(a.skip(len), space, b);
        assert(all.skip(len) =~= a.skip(len) + seq![space] + b);
        assert(words(all) =~= words(a) + words(b));
        if forall|i: int| 0 <= i < a.len() ==> !white_space(#[trigger] a[i]) {
            lemma_word_len_of_a_run(a);
            assert(a.take(a.len() as int) =~= a);
            assert(a.skip(a.len() as int) =~= Seq::<char>::empty());
            assert(words(a) =~= seq![a]);
        }
    }
}

proof fn lemma_word_len_before_space(a: Seq<char>, space: char, b: Seq<char>)
    requires
        white_space(space),
    ensures
        word_len(a + seq![space] + b) == word_len(a),
    decreases a.len(),
{
    let all = a + seq![space] + b;
    if a.len() == 0 {
        assert(all[0] == space);
    } else if !white_space(a[0]) {
        lemma_word_len_before_space(a.skip(1), space, b);
        assert(all.skip(1) =~= a.skip(1) + seq![space] + b);
    }
}

proof fn lemma_word_len_of_a_run(a: Seq<char>)
    requires
        forall|i: int| 0 <= i < a.len() ==> !white_space(#[trigger] a[i]),
    ensures
        word_len(a) == a.len(),
    decreases a.len(),
{
    if a.len() > 0 {
        let rest = a.skip(1);
        assert forall|i: int| 0 <= i < rest.len() implies !white_space(#[trigger] rest[i]) by {
            assert(rest[i] == a[i + 1]);
        }
        assert(!white_space(a[0]));
        lemma_word_len_of_a_run(rest);
    }
}

/// How digits are read: each digit more makes the number ten times what it was and the digit
/// more. The first code point that is no digit, or with which the number does not fit any
/// more, decides the error.
pub proof fn lemma_a_digit_more(digits: Seq<char>, c: char, before: nat)
    requires
        before <= u64::MAX,
    ensures
        number(Seq::empty(), before) == Ok::<u64, IdError>(before as u64),
        match number(digits, before) {
            Err(error) => number(digits.push(c), before) == Err::<u64, IdError>(error),
            Ok(value) => if !('0' <= c <= '9') {
                number(digits.push(c), before) == Err::<u64, IdError>(IdError::InvalidDigit)
            } else if 10 * value + (c as int - '0' as int) >= 0x1_0000_0000_0000_0000 {
                number(digits.push(c), before) == Err::<u64, IdError>(IdError::TooLarge)
            } else {
                number(digits.push(c), before) matches Ok(more) && more == 10 * value + (c as int
                    - '0' as int)
            },
        },
    decreases digits.len(),
{
    let all = digits.push(c);
    if digits.len() == 0 {
        assert(all.skip(1) =~= Seq::<char>::empty());
        reveal_with_fuel(number, 2);
    } else {
        assert(all[0] == digits[0]);
        assert(all.skip(1) =~= digits.skip(1).push(c));
        if '0' <= digits[0] <= '9' && before * 10 + (digits[0] as nat - 48) <= u64::MAX {
            lemma_a_digit_more(
                digits.skip(1),
                c,
                (before * 10 + (digits[0] as nat - 48)) as nat,
            );
        }
    }
}

/// What words are ids: digits, of which there is at least one; one plus sign before them makes
/// no difference.
pub proof fn lemma_what_words_are_ids(word: Seq<char>)
    ensures
        word.len() == 0 ==> id_of_word(word) == Err::<u64, IdError>(IdError::InvalidDigit),
        word.len() > 0 && word[0] != '+' ==> id_of_word(word) == number(word, 0) && id_of_word(
            seq!['+'] + word,
        ) == number(word, 0),
        id_of_word(seq!['+']) == Err::<u64, IdError>(IdError::InvalidDigit),
        word.len() > 0 && word[0] == '+' ==> id_of_word(seq!['+'] + word) == Err::<u64, IdError>(
            IdError::InvalidDigit,
        ),
{
    assert((seq!['+'] + word).skip(1) =~= word);
    assert(seq!['+'].skip(1).len() == 0);
}

/// The ids of words are those of each, in their order, and the first word that is none decides
/// the error.
pub proof fn lemma_the_first_wrong_word_decides(list: Seq<Seq<char>>, word: Seq<char>)
    ensures
        ids_of_words(Seq::empty()) == Ok::<Seq<u64>, (Seq<char>, IdError)>(Seq::empty()),
        match ids_of_words(list) {
            Err(error) => ids_of_words(list.push(word)) == Err::<Seq<u64>, (Seq<char>, IdError)>(
                error,
            ),
            Ok(ids) => match id_of_word(word) {
                Ok(id) => ids_of_words(list.push(word)) == Ok::<Seq<u64>, (Seq<char>, IdError)>(
                    ids.push(id),
                ),
                Err(error) => ids_of_words(list.push(word)) == Err::<
                    Seq<u64>,
                    (Seq<char>, IdError),
                >((word, error)),
            },
        },
    decreases list.len(),
{
    let all = list.push(word);
    if list.len() == 0 {
        assert(all.skip(1) =~= Seq::<Seq<char>>::empty());
        reveal_with_fuel(ids_of_words, 2);
        if let Ok(id) = id_of_word(word) {
            assert(seq![id] + Seq::<u64>::empty() =~= Seq::<u64>::empty().push(id));
        }
    } else {
        assert(all[0] == list[0]);
        assert(all.skip(1) =~= list.skip(1).push(word));
        lemma_the_first_wrong_word_decides(list.skip(1), word);
        if let (Ok(first), Ok(ids), Ok(id)) = (
            id_of_word(list[0]),
            ids_of_words(list.skip(1)),
            id_of_word(word),
        ) {
            assert(seq![first] + ids.push(id) =~= (seq![first] + ids).push(id));
        }
    }
}

/// What a text lists is what its words give, and its encoded form is that of those ids, in
/// ascending order; both are refused for the same word.
pub proof fn lemma_a_text_lists_what_its_words_give(
    text: &str,
    ids: Result<Vec<u64>, InvalidId>,
    coded: Result<String, InvalidId>,
)
    requires
        call_ensures(parse_ids, (text,), ids),
        call_ensures(encode_listed, (text,), coded),
    ensures
        match ids_of_words(words(text@)) {
            Ok(list) => (ids matches Ok(ids) && ids@ == list) && (coded matches Ok(coded)
                && exists|sorted: Seq<u64>| #[trigger]
                ascending(sorted) && sorted.to_multiset() == list.to_multiset() && coded@ == encoded(
                    sorted,
                )),
            Err((word, error)) => (ids matches Err(invalid) && invalid.word@ == word
                && invalid.error == error) && (coded matches Err(invalid) && invalid.word@ == word
                && invalid.error == error),
        },
{
}

} // verus!
