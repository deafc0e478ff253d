//! Strings as sequences of characters: splitting at a separator, joining,
//! removing a character, and reading decimal numbers. Splitting and joining
//! are stated for sequences of any kind, so that a list of tokens is split in
//! the same way as a string.
use crate::sequences::lemma_pushed_row;
use vstd::prelude::*;

verus! {

/// `s` cut at every occurrence of `sep`. There is always at least one piece;
/// a separator at either end, or two in a row, give an empty piece.
pub open spec fn split<A>(s: Seq<A>, sep: A) -> Seq<Seq<A>>
    decreases s.len(),
{
    if s.len() == 0 {
        seq![Seq::empty()]
    } else {
        let before = split(s.drop_last(), sep);
        if s.last() == sep {
            before.push(Seq::empty())
        } else {
            before.drop_last().push(before.last().push(s.last()))
        }
    }
}

/// The parts in a row, with `sep` between each two neighbours.
pub open spec fn join<A>(parts: Seq<Seq<A>>, sep: Seq<A>) -> Seq<A>
    decreases parts.len(),
{
    if parts.len() == 0 {
        Seq::empty()
    } else if parts.len() == 1 {
        parts[0]
    } else {
        join(parts.drop_last(), sep) + sep + parts.last()
    }
}

/// `s` without its occurrences of `c`.
pub open spec fn without(s: Seq<char>, c: char) -> Seq<char> {
    s.filter(|x: char| x != c)
}

/// Whether `s` begins with a dash.
pub open spec fn is_dashed(s: Seq<char>) -> bool {
    s.len() > 0 && s[0] == '-'
}

/// Whether `c` is one of the ten decimal digits.
pub open spec fn is_digit(c: char) -> bool {
    '0' <= c <= '9'
}

/// The number that the digit `c` stands for; 0 for a character that is no
/// digit.
pub open spec fn digit_value(c: char) -> nat {
    if is_digit(c) {
        (c as int - '0' as int) as nat
    } else {
        0
    }
}

/// Whether `s` holds decimal digits only.
pub open spec fn all_digits(s: Seq<char>) -> bool {
    forall|k: int| 0 <= k < s.len() ==> is_digit(#[trigger] s[k])
}

/// The number that the decimal digits `digits` write.
pub open spec fn decimal(digits: Seq<char>) -> nat
    decreases digits.len(),
{
    if digits.len() == 0 {
        0
    } else {
        decimal(digits.drop_last()) * 10 + digit_value(digits.last())
    }
}

/// The number that `s` writes, where `s` is one or more decimal digits and
/// the number is no more than `limit`.
pub open spec fn number(s: Seq<char>, limit: nat) -> Option<nat> {
    if s.len() > 0 && all_digits(s) && decimal(s) <= limit {
        Some(decimal(s))
    } else {
        None
    }
}

/// A number is at least what any beginning of its digits writes.
pub proof fn lemma_decimal_grows(digits: Seq<char>, n: int)
    requires
        0 <= n <= digits.len(),
    ensures
        decimal(digits.take(n)) <= decimal(digits),
    decreases digits.len(),
{
    if n == digits.len() {
        assert(digits.take(n) =~= digits);
    } else {
        lemma_decimal_grows(digits.drop_last(), n);
        assert(digits.drop_last().take(n) =~= digits.take(n));
    }
}

/// Splitting always gives at least one piece.
pub proof fn lemma_split_nonempty<A>(s: Seq<A>, sep: A)
    ensures
        split(s, sep).len() >= 1,
    decreases s.len(),
{
    if s.len() > 0 {
        lemma_split_nonempty(s.drop_last(), sep);
    }
}

/// No piece of a split holds the separator.
pub proof fn lemma_split_pieces_clean<A>(s: Seq<A>, sep: A)
    ensures
        forall|i: int| 0 <= i < split(s, sep).len() ==> !(#[trigger] split(s, sep)[i]).contains(sep),
    decreases s.len(),
{
    if s.len() > 0 {
        let before = split(s.drop_last(), sep);
        lemma_split_nonempty(s.drop_last(), sep);
        lemma_split_pieces_clean(s.drop_last(), sep);
        assert forall|i: int| 0 <= i < split(s, sep).len() implies !(#[trigger] split(
            s,
            sep,
        )[i]).contains(sep) by {
            let piece = split(s, sep)[i];
            if piece.contains(sep) {
                let k = choose|k: int| 0 <= k < piece.len() && piece[k] == sep;
                if s.last() == sep {
                    assert(i < before.len());
                    assert(before[i][k] == sep);
                } else if i < before.len() - 1 {
                    assert(before[i][k] == sep);
                } else {
                    assert(k < before.last().len());
                    assert(before.last()[k] == sep);
                }
            }
        }
    }
}

/// Every item of a piece of a split is an item of what was split.
pub proof fn lemma_split_pieces_within<A>(s: Seq<A>, sep: A)
    ensures
        forall|i: int, k: int|
            0 <= i < split(s, sep).len() && 0 <= k < split(s, sep)[i].len() ==> s.contains(
                #[trigger] split(s, sep)[i][k],
            ),
    decreases s.len(),
{
    if s.len() > 0 {
        let before = split(s.drop_last(), sep);
        lemma_split_nonempty(s.drop_last(), sep);
        lemma_split_pieces_within(s.drop_last(), sep);
        assert forall|i: int, k: int|
            0 <= i < split(s, sep).len() && 0 <= k < split(s, sep)[i].len() implies s.contains(
            #[trigger] split(s, sep)[i][k],
        ) by {
            let item = split(s, sep)[i][k];
            if s.last() != sep && i == before.len() - 1 && k == before.last().len() {
                assert(s[s.len() - 1] == item);
            } else {
                assert(before[i][k] == item);
                assert(s.drop_last().contains(before[i][k]));
                let at = choose|at: int| 0 <= at < s.drop_last().len() && s.drop_last()[at] == item;
                assert(s[at] == item);
            }
        }
    }
}

/// What does not hold the separator is split into itself alone.
pub proof fn lemma_split_whole<A>(s: Seq<A>, sep: A)
    requires
        !s.contains(sep),
    ensures
        split(s, sep) == seq![s],
    decreases s.len(),
{
    if s.len() == 0 {
        assert(split(s, sep)[0] =~= s);
        assert(split(s, sep) =~= seq![s]);
    } else {
        assert(s[s.len() - 1] != sep);
        assert forall|k: int| 0 <= k < s.drop_last().len() implies s.drop_last()[k] != sep by {
            assert(s[k] != sep);
        }
        lemma_split_whole(s.drop_last(), sep);
        assert(s.drop_last().push(s.last()) =~= s);
        assert(split(s, sep)[0] == s);
        assert(split(s, sep) =~= seq![s]);
    }
}

/// Joining the pieces of a split with the separator gives the string back.
pub proof fn lemma_join_split<A>(s: Seq<A>, sep: A)
    ensures
        join(split(s, sep), seq![sep]) == s,
    decreases s.len(),
{
    if s.len() == 0 {
        assert(split(s, sep)[0] =~= s);
    } else {
        let before = split(s.drop_last(), sep);
        lemma_split_nonempty(s.drop_last(), sep);
        lemma_join_split(s.drop_last(), sep);
        if s.last() == sep {
            assert(split(s, sep).drop_last() =~= before);
            assert(s.drop_last() + seq![sep] + Seq::<A>::empty() =~= s);
        } else {
            let grown = before.last().push(s.last());
            let all = before.drop_last().push(grown);
            assert(all.drop_last() =~= before.drop_last());
            if before.len() == 1 {
                assert(before.last() == s.drop_last());
                assert(grown =~= s);
            } else {
                let front = join(before.drop_last(), seq![sep]);
                assert(join(before, seq![sep]) == front + seq![sep] + before.last());
                assert(front + seq![sep] + grown =~= (front + seq![sep] + before.last()).push(
                    s.last(),
                ));
                assert(s.drop_last().push(s.last()) =~= s);
            }
        }
    }
}

/// The characters of `s`, in order.
pub fn chars_of(s: &str) -> (r: Vec<char>)
    ensures
        r@ == s@,
{
    let mut out: Vec<char> = Vec::new();
    for c in it: s.chars()
        invariant
            it.seq() == s@,
            out@ =~= s@.take(it.index()),
    {
        out.push(c);
    }
    assert(s@.take(s@.len() as int) =~= s@);
    out
}

/// The part of `s` from character `from` up to, not including, character `to`.
pub fn substring(s: &str, from: usize, to: usize) -> (r: String)
    requires
        from <= to <= s@.len(),
    ensures
        r@ == s@.subrange(from as int, to as int),
{
    s.substring_char(from, to).to_owned()
}

/// Whether `c` occurs in `s`.
pub fn has_char(s: &str, c: char) -> (r: bool)
    ensures
        r == s@.contains(c),
{
    let chars = chars_of(s);
    let mut i: usize = 0;
    while i < chars.len()
        invariant
            chars@ == s@,
            i <= chars.len(),
            forall|k: int| 0 <= k < i ==> chars[k] != c,
        decreases chars.len() - i,
    {
        if chars[i] == c {
            return true;
        }
        i += 1;
    }
    false
}

/// The number that the characters of `chars` from `from` up to `to` write, if
/// they are one or more decimal digits and the number is no more than `limit`.
pub fn read_number(chars: &Vec<char>, from: usize, to: usize, limit: u64) -> (r: Option<u64>)
    requires
        from <= to <= chars.len(),
    ensures
        r is Some <==> number(chars@.subrange(from as int, to as int), limit as nat) is Some,
        r matches Some(n) ==> number(chars@.subrange(from as int, to as int), limit as nat)
            == Some(n as nat),
{
    let ghost digits = chars@.subrange(from as int, to as int);
    if from == to {
        return None;
    }
    let mut total: u128 = 0;
    let mut at: usize = from;
    assert(digits.take(0) =~= Seq::empty());
    while at < to
        invariant
            from <= at <= to <= chars.len(),
            digits == chars@.subrange(from as int, to as int),
            all_digits(digits.take(at - from)),
            total == decimal(digits.take(at - from)),
            total <= limit,
        decreases to - at,
    {
        let c = chars[at];
        proof {
            assert(digits.take(at + 1 - from).drop_last() =~= digits.take(at - from));
            assert(digits.take(at + 1 - from).last() == c);
        }
        if !('0' <= c && c <= '9') {
            assert(!is_digit(digits[at - from]));
            return None;
        }
        let next: u128 = total * 10 + (c as u32 - '0' as u32) as u128;
        if next > limit as u128 {
            proof {
                lemma_decimal_grows(digits, at + 1 - from);
            }
            return None;
        }
        proof {
            assert forall|k: int| 0 <= k < at + 1 - from implies is_digit(
                #[trigger] digits.take(at + 1 - from)[k],
            ) by {
                if k < at - from {
                    assert(digits.take(at - from)[k] == digits[k]);
                }
            }
        }
        total = next;
        at += 1;
    }
    assert(digits.take(to - from) =~= digits);
    Some(total as u64)
}

/// Whether `s` begins with a dash.
pub fn starts_with_dash(s: &str) -> (r: bool)
    ensures
        r == is_dashed(s@),
{
    let chars = chars_of(s);
    chars.len() > 0 && chars[0] == '-'
}

/// Cuts `s` at every occurrence of `sep`.
pub fn split_at_char(s: &str, sep: char) -> (r: Vec<String>)
    ensures
        r.deep_view() == split(s@, sep),
{
    let chars = chars_of(s);
    let mut out: Vec<String> = Vec::new();
    let mut start: usize = 0;
    let mut at: usize = 0;
    assert(s@.take(0) =~= Seq::empty());
    assert(out.deep_view().push(s@.subrange(0, 0)) =~= seq![Seq::empty()]);
    while at < chars.len()
        invariant
            chars@ == s@,
            start <= at <= chars.len(),
            split(s@.take(at as int), sep) == out.deep_view().push(s@.subrange(start as int, at as int)),
        decreases chars.len() - at,
    {
        let ghost done = out.deep_view();
        let ghost piece = s@.subrange(start as int, at as int);
        proof {
            assert(s@.take(at + 1).drop_last() =~= s@.take(at as int));
            assert(s@.take(at + 1).last() == s@[at as int]);
        }
        if chars[at] == sep {
            let part = substring(s, start, at);
            let ghost earlier = out;
            out.push(part);
            start = at + 1;
            proof {
                lemma_pushed_row(earlier, out, part);
                assert(s@.subrange(start as int, at + 1) =~= Seq::empty());
            }
        } else {
            proof {
                assert(done.push(piece).drop_last() =~= done);
                assert(s@.subrange(start as int, at + 1) =~= piece.push(s@[at as int]));
            }
        }
        at += 1;
    }
    let part = substring(s, start, at);
    let ghost earlier = out;
    out.push(part);
    proof {
        lemma_pushed_row(earlier, out, part);
        assert(s@.take(at as int) =~= s@);
    }
    out
}

/// `s` without its occurrences of `c`.
pub fn strip_char(s: &str, c: char) -> (r: String)
    ensures
        r@ == without(s@, c),
{
    let chars = chars_of(s);
    let mut out = String::new();
    let mut start: usize = 0;
    let mut at: usize = 0;
    proof {
        reveal(Seq::filter);
        assert(s@.take(0) =~= Seq::empty());
        assert(s@.subrange(0, 0) =~= Seq::empty());
        assert(out@ + s@.subrange(0, 0) =~= Seq::empty());
    }
    while at < chars.len()
        invariant
            chars@ == s@,
            start <= at <= chars.len(),
            without(s@.take(at as int), c) == out@ + s@.subrange(start as int, at as int),
        decreases chars.len() - at,
    {
        let ghost piece = s@.subrange(start as int, at as int);
        proof {
            reveal(Seq::filter);
            assert(s@.take(at + 1).drop_last() =~= s@.take(at as int));
            assert(s@.take(at + 1).last() == s@[at as int]);
        }
        if chars[at] == c {
            out.append(s.substring_char(start, at));
            start = at + 1;
            proof {
                assert(s@.subrange(start as int, at + 1) =~= Seq::empty());
                assert(out@ + Seq::<char>::empty() =~= out@);
            }
        } else {
            proof {
                assert(s@.subrange(start as int, at + 1) =~= piece.push(s@[at as int]));
                assert((out@ + piece).push(s@[at as int]) =~= out@ + piece.push(s@[at as int]));
            }
        }
        at += 1;
    }
    out.append(s.substring_char(start, at));
    proof {
        assert(s@.take(at as int) =~= s@);
    }
    out
}

} // verus!
