//! The meaning of `*` patterns, and what a left-to-right search may rely on.
use vstd::prelude::*;

verus! {

/// Whether `pattern` matches the whole of `key`: a `*` stands for any run of
/// code points, the empty one included, and every other code point for itself.
pub open spec fn glob_matches(pattern: Seq<char>, key: Seq<char>) -> bool
    decreases pattern.len(),
{
    if pattern.len() == 0 {
        key.len() == 0
    } else if pattern[0] == '*' {
        exists|at: int|
            0 <= at <= key.len() && glob_matches(pattern.drop_first(), #[trigger] key.skip(at))
    } else {
        key.len() > 0 && key[0] == pattern[0] && glob_matches(
            pattern.drop_first(),
            key.drop_first(),
        )
    }
}

/// Whether a string holds no `*`.
pub open spec fn is_literal(s: Seq<char>) -> bool {
    !s.contains('*')
}

/// Whether `part` stands in `key` at position `at`.
pub open spec fn occurs_at(part: Seq<char>, key: Seq<char>, at: int) -> bool {
    &&& 0 <= at
    &&& at + part.len() <= key.len()
    &&& key.subrange(at, at + part.len()) == part
}

/// A literal in front of a pattern must stand at the front of the key, and what
/// is left of the pattern must match what is left of the key.
pub proof fn lemma_glob_literal_prefix(literal: Seq<char>, rest: Seq<char>, key: Seq<char>)
    requires
        is_literal(literal),
    ensures
        glob_matches(literal + rest, key) == (occurs_at(literal, key, 0) && glob_matches(
            rest,
            key.skip(literal.len() as int),
        )),
    decreases literal.len(),
{
    let pattern = literal + rest;
    if literal.len() == 0 {
        assert(pattern =~= rest);
        assert(key.skip(0) =~= key);
        assert(key.subrange(0, 0) =~= literal);
    } else {
        let tail = literal.drop_first();
        assert(literal.contains(literal[0]));
        assert(is_literal(tail)) by {
            if tail.contains('*') {
                let i = choose|i: int| 0 <= i < tail.len() && tail[i] == '*';
                assert(literal[i + 1] == '*');
            }
        }
        assert(pattern.drop_first() =~= tail + rest);
        if key.len() > 0 {
            lemma_glob_literal_prefix(tail, rest, key.drop_first());
            if literal.len() <= key.len() {
                assert(key.drop_first().skip(tail.len() as int) =~= key.skip(
                    literal.len() as int,
                ));
            }
            assert(occurs_at(literal, key, 0) == (key[0] == literal[0] && occurs_at(
                tail,
                key.drop_first(),
                0,
            ))) by {
                if occurs_at(literal, key, 0) {
                    assert(key[0] == key.subrange(0, literal.len() as int)[0]);
                    assert(key.drop_first().subrange(0, tail.len() as int) =~= key.subrange(
                        0,
                        literal.len() as int,
                    ).drop_first());
                }
                if key[0] == literal[0] && occurs_at(tail, key.drop_first(), 0) {
                    assert(literal =~= seq![literal[0]] + tail);
                    assert(key.subrange(0, literal.len() as int) =~= seq![key[0]]
                        + key.drop_first().subrange(0, tail.len() as int));
                }
            }
        }
    }
}

/// What a pattern that starts with `*` matches, it still matches with more in front.
pub proof fn lemma_glob_star_absorbs(rest: Seq<char>, key: Seq<char>, from: int)
    requires
        0 <= from <= key.len(),
        glob_matches(seq!['*'] + rest, key.skip(from)),
    ensures
        glob_matches(seq!['*'] + rest, key),
{
    let pattern = seq!['*'] + rest;
    assert(pattern.drop_first() =~= rest);
    let at = choose|at: int|
        0 <= at <= key.skip(from).len() && glob_matches(
            pattern.drop_first(),
            #[trigger] key.skip(from).skip(at),
        );
    assert(key.skip(from).skip(at) =~= key.skip(from + at));
    assert(glob_matches(pattern.drop_first(), key.skip(from + at)));
}

/// A `*` and a final literal match exactly the keys that end in the literal.
pub proof fn lemma_glob_star_suffix(literal: Seq<char>, key: Seq<char>)
    requires
        is_literal(literal),
    ensures
        glob_matches(seq!['*'] + literal, key) == occurs_at(
            literal,
            key,
            key.len() - literal.len(),
        ),
{
    let pattern = seq!['*'] + literal;
    assert(pattern.drop_first() =~= literal);
    let end = Seq::<char>::empty();
    assert(literal + end =~= literal);
    assert forall|at: int| 0 <= at <= key.len() implies glob_matches(
        literal,
        #[trigger] key.skip(at),
    ) == (at == key.len() - literal.len() && occurs_at(literal, key, at)) by {
        lemma_glob_literal_prefix(literal, end, key.skip(at));
        if at + literal.len() <= key.len() {
            assert(key.skip(at).subrange(0, literal.len() as int) =~= key.subrange(
                at,
                at + literal.len(),
            ));
        }
    }
    let last = key.len() - literal.len();
    if occurs_at(literal, key, last) {
        assert(glob_matches(pattern.drop_first(), key.skip(last)));
    }
}

/// A `*`, a literal and a further `*`: the first occurrence of the literal
/// decides, since everything that a later one leaves over an earlier one leaves
/// over too.
pub proof fn lemma_glob_first_occurrence(
    literal: Seq<char>,
    rest: Seq<char>,
    key: Seq<char>,
    first: int,
)
    requires
        is_literal(literal),
        occurs_at(literal, key, first),
        forall|at: int| 0 <= at < first ==> !occurs_at(literal, key, at),
    ensures
        glob_matches(seq!['*'] + literal + (seq!['*'] + rest), key) == glob_matches(
            seq!['*'] + rest,
            key.skip(first + literal.len()),
        ),
{
    let star_rest = seq!['*'] + rest;
    let pattern = seq!['*'] + literal + star_rest;
    assert(pattern.drop_first() =~= literal + star_rest);
    assert forall|at: int| 0 <= at <= key.len() implies glob_matches(
        literal + star_rest,
        #[trigger] key.skip(at),
    ) == (occurs_at(literal, key, at) && glob_matches(star_rest, key.skip(at + literal.len()))) by {
        lemma_glob_literal_prefix(literal, star_rest, key.skip(at));
        if at + literal.len() <= key.len() {
            assert(key.skip(at).subrange(0, literal.len() as int) =~= key.subrange(
                at,
                at + literal.len(),
            ));
            assert(key.skip(at).skip(literal.len() as int) =~= key.skip(at + literal.len()));
        }
    }
    if glob_matches(star_rest, key.skip(first + literal.len())) {
        assert(glob_matches(pattern.drop_first(), key.skip(first)));
    }
    if glob_matches(pattern, key) {
        let at = choose|at: int|
            0 <= at <= key.len() && glob_matches(pattern.drop_first(), #[trigger] key.skip(at));
        assert(occurs_at(literal, key, at));
        let left = key.skip(first + literal.len());
        assert(left.skip(at - first) =~= key.skip(at + literal.len()));
        lemma_glob_star_absorbs(rest, left, at - first);
    }
}

/// A literal between two `*` has to occur somewhere.
pub proof fn lemma_glob_no_occurrence(literal: Seq<char>, rest: Seq<char>, key: Seq<char>)
    requires
        is_literal(literal),
        forall|at: int| !occurs_at(literal, key, at),
    ensures
        !glob_matches(seq!['*'] + literal + rest, key),
{
    let pattern = seq!['*'] + literal + rest;
    assert(pattern.drop_first() =~= literal + rest);
    assert forall|at: int| 0 <= at <= key.len() implies !glob_matches(
        pattern.drop_first(),
        #[trigger] key.skip(at),
    ) by {
        lemma_glob_literal_prefix(literal, rest, key.skip(at));
        if occurs_at(literal, key.skip(at), 0) {
            assert(key.skip(at).subrange(0, literal.len() as int) =~= key.subrange(
                at,
                at + literal.len(),
            ));
            assert(occurs_at(literal, key, at));
        }
    }
}

/// A pattern without `*` matches itself and nothing else.
pub proof fn lemma_literal_matches_itself_only(literal: Seq<char>, key: Seq<char>)
    requires
        is_literal(literal),
    ensures
        glob_matches(literal, key) == (literal == key),
{
    let end = Seq::<char>::empty();
    assert(literal + end =~= literal);
    lemma_glob_literal_prefix(literal, end, key);
    if literal.len() <= key.len() {
        assert(key.subrange(0, literal.len() as int) + key.skip(literal.len() as int) =~= key);
    }
    if literal == key {
        assert(key.subrange(0, literal.len() as int) =~= key);
    } else if glob_matches(literal, key) {
        assert(key.skip(literal.len() as int) =~= end);
        assert(key =~= literal);
    }
}

/// The pattern `*` matches everything.
pub proof fn lemma_star_matches_everything(key: Seq<char>)
    ensures
        glob_matches(seq!['*'], key),
{
    let pattern = seq!['*'];
    assert(pattern.drop_first() =~= Seq::<char>::empty());
    assert(glob_matches(pattern.drop_first(), key.skip(key.len() as int)));
}

/// Two adjacent `*` mean what one means.
pub proof fn lemma_adjacent_stars_are_one(before: Seq<char>, after: Seq<char>, key: Seq<char>)
    ensures
        glob_matches(before + seq!['*', '*'] + after, key) == glob_matches(
            before + seq!['*'] + after,
            key,
        ),
    decreases before.len(),
{
    let two = before + seq!['*', '*'] + after;
    let one = before + seq!['*'] + after;
    if before.len() == 0 {
        let star_after = seq!['*'] + after;
        assert(two.drop_first() =~= star_after);
        assert(one =~= star_after);
        if glob_matches(two, key) {
            let at = choose|at: int|
                0 <= at <= key.len() && glob_matches(two.drop_first(), #[trigger] key.skip(at));
            lemma_glob_star_absorbs(after, key, at);
        }
        if glob_matches(one, key) {
            assert(key.skip(0) =~= key);
            assert(glob_matches(two.drop_first(), key.skip(0)));
        }
    } else {
        let tail = before.drop_first();
        assert(two.drop_first() =~= tail + seq!['*', '*'] + after);
        assert(one.drop_first() =~= tail + seq!['*'] + after);
        if before[0] == '*' {
            assert forall|at: int| 0 <= at <= key.len() implies glob_matches(
                two.drop_first(),
                #[trigger] key.skip(at),
            ) == glob_matches(one.drop_first(), key.skip(at)) by {
                lemma_adjacent_stars_are_one(tail, after, key.skip(at));
            }
            if glob_matches(one, key) {
                let at = choose|at: int|
                    0 <= at <= key.len() && glob_matches(one.drop_first(), #[trigger] key.skip(at));
                assert(glob_matches(two.drop_first(), key.skip(at)));
            }
            if glob_matches(two, key) {
                let at = choose|at: int|
                    0 <= at <= key.len() && glob_matches(two.drop_first(), #[trigger] key.skip(at));
                assert(glob_matches(one.drop_first(), key.skip(at)));
            }
        } else if key.len() > 0 {
            lemma_adjacent_stars_are_one(tail, after, key.drop_first());
        }
    }
}

/// A pattern in two parts matches exactly the keys in two parts of which each matches its
/// own.
pub proof fn lemma_parts_match_parts(front: Seq<char>, back: Seq<char>, key: Seq<char>)
    ensures
        glob_matches(front + back, key) <==> exists|at: int|
            0 <= at <= key.len() && #[trigger] glob_matches(front, key.take(at))
                && glob_matches(back, key.skip(at)),
    decreases front.len(),
{
    let all = front + back;
    if front.len() == 0 {
        assert(all =~= back);
        assert(key.skip(0) =~= key);
        assert(key.take(0).len() == 0);
        if glob_matches(all, key) {
            assert(glob_matches(front, key.take(0)) && glob_matches(back, key.skip(0)));
        }
        assert forall|at: int| 0 <= at <= key.len() && #[trigger] glob_matches(
            front,
            key.take(at),
        ) implies at == 0 by {
            assert(key.take(at).len() == at);
        }
    } else {
        let rest = front.drop_first();
        assert(all.drop_first() =~= rest + back);
        if front[0] == '*' {
            if glob_matches(all, key) {
                let from = choose|from: int|
                    0 <= from <= key.len() && glob_matches(
                        all.drop_first(),
                        #[trigger] key.skip(from),
                    );
                lemma_parts_match_parts(rest, back, key.skip(from));
                let at = choose|at: int|
                    0 <= at <= key.skip(from).len() && #[trigger] glob_matches(
                        rest,
                        key.skip(from).take(at),
                    ) && glob_matches(back, key.skip(from).skip(at));
                assert(key.take(from + at).skip(from) =~= key.skip(from).take(at));
                assert(key.skip(from).skip(at) =~= key.skip(from + at));
                assert(glob_matches(front.drop_first(), key.take(from + at).skip(from)));
                assert(glob_matches(front, key.take(from + at)));
            }
            if exists|at: int|
                0 <= at <= key.len() && #[trigger] glob_matches(front, key.take(at))
                    && glob_matches(back, key.skip(at)) {
                let at = choose|at: int|
                    0 <= at <= key.len() && #[trigger] glob_matches(front, key.take(at))
                        && glob_matches(back, key.skip(at));
                let head = key.take(at);
                let from = choose|from: int|
                    0 <= from <= head.len() && glob_matches(
                        front.drop_first(),
                        #[trigger] head.skip(from),
                    );
                assert(head.skip(from) =~= key.skip(from).take(at - from));
                assert(key.skip(from).skip(at - from) =~= key.skip(at));
                lemma_parts_match_parts(rest, back, key.skip(from));
                assert(glob_matches(rest, key.skip(from).take(at - from)));
                assert(glob_matches(all.drop_first(), key.skip(from)));
            }
        } else if key.len() > 0 {
            let tail = key.drop_first();
            lemma_parts_match_parts(rest, back, tail);
            if glob_matches(all, key) {
                let at = choose|at: int|
                    0 <= at <= tail.len() && #[trigger] glob_matches(rest, tail.take(at))
                        && glob_matches(back, tail.skip(at));
                assert(key.take(at + 1).drop_first() =~= tail.take(at));
                assert(key.skip(at + 1) =~= tail.skip(at));
                assert(glob_matches(front, key.take(at + 1)));
            }
            if exists|at: int|
                0 <= at <= key.len() && #[trigger] glob_matches(front, key.take(at))
                    && glob_matches(back, key.skip(at)) {
                let at = choose|at: int|
                    0 <= at <= key.len() && #[trigger] glob_matches(front, key.take(at))
                        && glob_matches(back, key.skip(at));
                assert(at > 0);
                assert(key.take(at).drop_first() =~= tail.take(at - 1));
                assert(key.skip(at) =~= tail.skip(at - 1));
                assert(glob_matches(rest, tail.take(at - 1)));
            }
        } else {
            assert forall|at: int| 0 <= at <= key.len() implies !#[trigger] glob_matches(
                front,
                key.take(at),
            ) by {}
        }
    }
}

/// What the smallest patterns match: the empty one the empty key, a `*` every key, and any
/// other code point itself.
pub proof fn lemma_smallest_patterns(c: char, key: Seq<char>)
    ensures
        glob_matches(Seq::empty(), key) <==> key.len() == 0,
        glob_matches(seq!['*'], key),
        c != '*' ==> (glob_matches(seq![c], key) <==> key == seq![c]),
{
    lemma_star_matches_everything(key);
    if c != '*' {
        assert(is_literal(seq![c]));
        lemma_literal_matches_itself_only(seq![c], key);
    }
}

} // verus!
