//! Strings as sequences of code points: lexicographic order, white space and
//! trimming.
use vstd::prelude::*;
use vstd::std_specs::iter::IteratorSpec;
use vstd::string::{StrSliceExecFns, StringExecFns};

verus! {

broadcast use vstd::string::group_string_axioms;

/// Strict lexicographic order by code point.
pub open spec fn precedes(a: Seq<char>, b: Seq<char>) -> bool
    decreases a.len(),
{
    if b.len() == 0 {
        false
    } else if a.len() == 0 {
        true
    } else if a[0] == b[0] {
        precedes(a.drop_first(), b.drop_first())
    } else {
        a[0] < b[0]
    }
}

/// No string precedes itself.
pub proof fn lemma_precedes_irreflexive(a: Seq<char>)
    ensures
        !precedes(a, a),
    decreases a.len(),
{
    if a.len() > 0 {
        lemma_precedes_irreflexive(a.drop_first());
    }
}

/// The order is transitive.
pub proof fn lemma_precedes_transitive(a: Seq<char>, b: Seq<char>, c: Seq<char>)
    requires
        precedes(a, b),
        precedes(b, c),
    ensures
        precedes(a, c),
    decreases a.len(),
{
    if a.len() > 0 && a[0] == b[0] && b[0] == c[0] {
        lemma_precedes_transitive(a.drop_first(), b.drop_first(), c.drop_first());
    }
}

/// Of two different strings one precedes the other.
pub proof fn lemma_precedes_total(a: Seq<char>, b: Seq<char>)
    ensures
        a == b || precedes(a, b) || precedes(b, a),
    decreases a.len(),
{
    if a.len() > 0 && b.len() > 0 && a[0] == b[0] {
        lemma_precedes_total(a.drop_first(), b.drop_first());
        if a.drop_first() == b.drop_first() {
            assert(a =~= seq![a[0]] + a.drop_first());
            assert(b =~= seq![b[0]] + b.drop_first());
        }
    } else if a.len() == 0 && b.len() == 0 {
        assert(a =~= b);
    }
}

/// How two strings stand to each other.
#[derive(Debug, Clone, Copy, PartialEq, Eq, Structural)]
pub enum KeyOrder {
    /// The first precedes the second.
    Before,
    /// The two are the same.
    Same,
    /// The second precedes the first.
    After,
}

/// Compares two strings code point by code point.
pub fn key_order(a: &str, b: &str) -> (order: KeyOrder)
    ensures
        match order {
            KeyOrder::Before => precedes(a@, b@),
            KeyOrder::Same => a@ == b@,
            KeyOrder::After => precedes(b@, a@),
        },
{
    let mut left = a.chars();
    let mut right = b.chars();
    loop
        invariant
            precedes(left.remaining(), right.remaining()) ==> precedes(a@, b@),
            precedes(right.remaining(), left.remaining()) ==> precedes(b@, a@),
            left.remaining() == right.remaining() ==> a@ == b@,
            left.decrease() is Some,
        decreases left.decrease()->0,
    {
        let ghost l = left.remaining();
        let ghost r = right.remaining();
        match (left.next(), right.next()) {
            (Some(x), Some(y)) => {
                if x < y {
                    return KeyOrder::Before;
                }
                if y < x {
                    return KeyOrder::After;
                }
                assert(l =~= seq![x] + l.drop_first());
                assert(r =~= seq![y] + r.drop_first());
            },
            (None, Some(_)) => {
                return KeyOrder::Before;
            },
            (Some(_), None) => {
                return KeyOrder::After;
            },
            (None, None) => {
                assert(l =~= r);
                return KeyOrder::Same;
            },
        }
    }
}

/// Whether two strings hold the same code points.
pub fn same_text(a: &str, b: &str) -> (same: bool)
    ensures
        same == (a@ == b@),
{
    match key_order(a, b) {
        KeyOrder::Same => true,
        KeyOrder::Before => {
            proof {
                lemma_precedes_irreflexive(a@);
            }
            false
        },
        KeyOrder::After => {
            proof {
                lemma_precedes_irreflexive(a@);
            }
            false
        },
    }
}

/// The code points of a string.
pub fn code_points(s: &str) -> (chars: Vec<char>)
    ensures
        chars@ == s@,
{
    let mut chars: Vec<char> = Vec::new();
    let mut rest = s.chars();
    loop
        invariant
            chars@ + rest.remaining() == s@,
            rest.decrease() is Some,
        decreases rest.decrease()->0,
    {
        let ghost before = rest.remaining();
        match rest.next() {
            Some(c) => {
                assert(before =~= seq![c] + before.drop_first());
                chars.push(c);
                assert(chars@ + rest.remaining() =~= s@);
            },
            None => {
                assert(chars@ =~= s@);
                return chars;
            },
        }
    }
}

/// The code points with the Unicode property `White_Space`.
pub open spec fn white_space(c: char) -> bool {
    ||| 0x09 <= c as u32 <= 0x0d
    ||| c as u32 == 0x20
    ||| c as u32 == 0x85
    ||| c as u32 == 0xa0
    ||| c as u32 == 0x1680
    ||| 0x2000 <= c as u32 <= 0x200a
    ||| 0x2028 <= c as u32 <= 0x2029
    ||| c as u32 == 0x202f
    ||| c as u32 == 0x205f
    ||| c as u32 == 0x3000
}

/// Whether a code point is white space.
pub fn is_white_space(c: char) -> (space: bool)
    ensures
        space == white_space(c),
{
    let u: u32 = c as u32;
    (0x09 <= u && u <= 0x0d) || u == 0x20 || u == 0x85 || u == 0xa0 || u == 0x1680 || (0x2000 <= u
        && u <= 0x200a) || (0x2028 <= u && u <= 0x2029) || u == 0x202f || u == 0x205f || u
        == 0x3000
}

/// A string without the white space at its two ends.
pub open spec fn trimmed(s: Seq<char>) -> Seq<char>
    decreases s.len(),
{
    if s.len() > 0 && white_space(s.first()) {
        trimmed(s.drop_first())
    } else if s.len() > 0 && white_space(s.last()) {
        trimmed(s.drop_last())
    } else {
        s
    }
}

/// The part of `s` between its leading and its trailing white space.
pub fn trim(s: &str) -> (middle: &str)
    ensures
        middle@ == trimmed(s@),
{
    let chars = code_points(s);
    let mut from: usize = 0;
    let mut to: usize = chars.len();
    assert(chars@.subrange(0, to as int) =~= s@);
    while from < to && is_white_space(chars[from])
        invariant
            chars@ == s@,
            from <= to == chars@.len(),
            trimmed(s@) == trimmed(s@.subrange(from as int, to as int)),
        decreases to - from,
    {
        assert(s@.subrange(from as int, to as int).drop_first() =~= s@.subrange(
            from + 1,
            to as int,
        ));
        from = from + 1;
    }
    while from < to && is_white_space(chars[to - 1])
        invariant
            chars@ == s@,
            from <= to <= chars@.len(),
            from < to ==> !white_space(s@[from as int]),
            trimmed(s@) == trimmed(s@.subrange(from as int, to as int)),
        decreases to - from,
    {
        assert(s@.subrange(from as int, to as int).drop_last() =~= s@.subrange(
            from as int,
            to - 1,
        ));
        to = to - 1;
    }
    s.substring_char(from, to)
}

/// The digit for a number below ten.
pub open spec fn digit(value: nat) -> char {
    (48 + value) as char
}

/// A number in decimal, without leading zeros.
pub open spec fn decimal(value: nat) -> Seq<char>
    decreases value,
{
    if value < 10 {
        seq![digit(value)]
    } else {
        decimal(value / 10).push(digit(value % 10))
    }
}

/// The digit for a number below ten.
fn digit_text(value: usize) -> (text: &'static str)
    requires
        value < 10,
    ensures
        text@ == seq![digit(value as nat)],
{
    proof {
        reveal_strlit("0");
        reveal_strlit("1");
        reveal_strlit("2");
        reveal_strlit("3");
        reveal_strlit("4");
        reveal_strlit("5");
        reveal_strlit("6");
        reveal_strlit("7");
        reveal_strlit("8");
        reveal_strlit("9");
    }
    if value == 0 {
        "0"
    } else if value == 1 {
        "1"
    } else if value == 2 {
        "2"
    } else if value == 3 {
        "3"
    } else if value == 4 {
        "4"
    } else if value == 5 {
        "5"
    } else if value == 6 {
        "6"
    } else if value == 7 {
        "7"
    } else if value == 8 {
        "8"
    } else {
        "9"
    }
}

/// A number in decimal.
pub fn decimal_text(value: usize) -> (text: String)
    ensures
        text@ == decimal(value as nat),
    decreases value,
{
    if value < 10 {
        digit_text(value).to_owned()
    } else {
        let front = decimal_text(value / 10);
        let ghost before = front@;
        let last = digit_text(value % 10);
        assert(before + last@ =~= before.push(digit((value % 10) as nat)));
        front.concat(last)
    }
}

/// Where two strings first differ decides which precedes the other: the smaller code point
/// comes first, and a string comes before one that goes on behind it.
pub proof fn lemma_the_first_difference_decides(
    common: Seq<char>,
    a: Seq<char>,
    b: Seq<char>,
)
    requires
        a.len() == 0 || b.len() == 0 || a[0] != b[0],
    ensures
        precedes(common + a, common + b) <==> b.len() > 0 && (a.len() == 0 || a[0] < b[0]),
    decreases common.len(),
{
    let x = common + a;
    let y = common + b;
    if common.len() == 0 {
        assert(x =~= a);
        assert(y =~= b);
    } else {
        let rest = common.drop_first();
        lemma_the_first_difference_decides(rest, a, b);
        assert(x.drop_first() =~= rest + a);
        assert(y.drop_first() =~= rest + b);
    }
}

/// Comparing tells which of three things holds, and just that one.
pub proof fn lemma_comparing_tells_all(a: &str, b: &str, order: KeyOrder, same: bool)
    requires
        call_ensures(key_order, (a, b), order),
        call_ensures(same_text, (a, b), same),
    ensures
        order is Before <==> precedes(a@, b@),
        order is Same <==> a@ == b@,
        order is After <==> precedes(b@, a@),
        same <==> a@ == b@,
{
    lemma_precedes_irreflexive(a@);
    if precedes(a@, b@) && precedes(b@, a@) {
        lemma_precedes_transitive(a@, b@, a@);
    }
}

/// Trimming cuts white space off the two ends, all of it and nothing else: what is left is a
/// part of the string, what went was white space, and neither end of it is.
pub proof fn lemma_trimming_cuts_white_space_only(s: Seq<char>) -> (cut: (int, int))
    ensures
        0 <= cut.0 <= cut.1 <= s.len(),
        trimmed(s) == s.subrange(cut.0, cut.1),
        forall|i: int| 0 <= i < cut.0 ==> white_space(#[trigger] s[i]),
        forall|i: int| cut.1 <= i < s.len() ==> white_space(#[trigger] s[i]),
        trimmed(s).len() > 0 ==> !white_space(trimmed(s)[0]) && !white_space(trimmed(s).last()),
        trimmed(s).len() == 0 <==> (forall|i: int| 0 <= i < s.len() ==> white_space(#[trigger] s[i])),
    decreases s.len(),
{
    if s.len() > 0 && white_space(s.first()) {
        let rest = s.drop_first();
        let (from, to) = lemma_trimming_cuts_white_space_only(rest);
        assert(rest.subrange(from, to) =~= s.subrange(from + 1, to + 1));
        assert forall|i: int| 0 <= i < rest.len() implies #[trigger] rest[i] == s[i + 1] by {}
        assert forall|i: int| 0 <= i < from + 1 implies white_space(#[trigger] s[i]) by {
            if i > 0 {
                assert(rest[i - 1] == s[i]);
            }
        }
        assert forall|i: int| to + 1 <= i < s.len() implies white_space(#[trigger] s[i]) by {
            assert(rest[i - 1] == s[i]);
        }
        if forall|i: int| 0 <= i < s.len() ==> white_space(#[trigger] s[i]) {
            assert forall|i: int| 0 <= i < rest.len() implies white_space(#[trigger] rest[i]) by {
                assert(rest[i] == s[i + 1]);
            }
        }
        if trimmed(s).len() == 0 {
            assert forall|i: int| 0 <= i < s.len() implies white_space(#[trigger] s[i]) by {
                if i > 0 {
                    assert(rest[i - 1] == s[i]);
                }
            }
        }
        (from + 1, to + 1)
    } else if s.len() > 0 && white_space(s.last()) {
        let rest = s.drop_last();
        let (from, to) = lemma_trimming_cuts_white_space_only(rest);
        assert(rest.subrange(from, to) =~= s.subrange(from, to));
        assert forall|i: int| 0 <= i < from implies white_space(#[trigger] s[i]) by {
            assert(rest[i] == s[i]);
        }
        assert forall|i: int| to <= i < s.len() implies white_space(#[trigger] s[i]) by {
            if i < rest.len() {
                assert(rest[i] == s[i]);
            }
        }
        assert(!white_space(s[0]));
        if trimmed(s).len() == 0 {
            assert(rest.len() > 0);
            assert(rest[0] == s[0]);
        }
        (from, to)
    } else {
        assert(s.subrange(0, s.len() as int) =~= s);
        if s.len() > 0 {
            assert(!white_space(s[0]));
        }
        (0, s.len() as int)
    }
}

/// Decimal notation is positional: a number ten times another and a digit more is written as
/// the other with that digit behind it, and a number below ten is its digit.
pub proof fn lemma_decimal_is_positional(value: nat, low: nat)
    requires
        low < 10,
    ensures
        decimal(low) == seq![digit(low)],
        value > 0 ==> decimal(10 * value + low) == decimal(value).push(digit(low)),
        digit(low) as int == '0' as int + low,
{
    if value > 0 {
        assert((10 * value + low) / 10 == value);
        assert((10 * value + low) % 10 == low);
    }
}

} // verus!
