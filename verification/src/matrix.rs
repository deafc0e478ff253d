//! The argument matrix: the options that the tail of a command line declares,
//! each with its values.
//!
//! A token that begins with a dash declares an option, which owns the tokens
//! after it up to the next such token. What is written into the option's name
//! and its values decides how the values are combined later on.
use crate::error::ConfigError;
use crate::text::{
    all_digits, chars_of, decimal, has_char, is_dashed, is_digit, join, read_number, split,
    split_at_char, starts_with_dash, strip_char, substring, without,
};
use vstd::prelude::*;

verus! {

/// How the values of an option enter the combinations.
#[derive(Clone, Copy, Debug, PartialEq, Eq, Structural)]
pub enum OptionKind {
    /// No values: the name alone is an argument of every combination.
    Flag,
    /// A list of values, each of which is combined with all values of the
    /// other options.
    MultiValued,
    /// Values that came as one comma-joined token and are taken position for
    /// position together with those of the other positional options.
    Positional,
    /// Values that were spread over as many groups as there are runners, each
    /// group joined into one value.
    Distributed,
}

/// An option of the matrix.
#[derive(Debug)]
pub struct ArgOption {
    /// The option as it is handed to the command, without the marks that were
    /// written into it.
    pub name: String,
    pub kind: OptionKind,
    /// The command that alone gets this option, counted from zero in the
    /// order in which the commands were declared; `None` for an option of
    /// every command.
    pub scope: Option<usize>,
    pub values: Vec<String>,
}

/// The model of an option.
pub struct OptionView {
    pub name: Seq<char>,
    pub kind: OptionKind,
    pub scope: Option<usize>,
    pub values: Seq<Seq<char>>,
}

impl View for ArgOption {
    type V = OptionView;

    open spec fn view(&self) -> OptionView {
        OptionView {
            name: self.name@,
            kind: self.kind,
            scope: self.scope,
            values: self.values.deep_view(),
        }
    }
}

impl OptionView {
    /// A flag is an option without values, and only a flag has none.
    pub open spec fn wf(self) -> bool {
        self.kind == OptionKind::Flag <==> self.values.len() == 0
    }
}

/// The options of a command line, in the order in which they were declared.
#[derive(Debug)]
pub struct Matrix {
    pub options: Vec<ArgOption>,
    /// The number of values of every positional option, 0 where there is no
    /// such option.
    pub positional_size: usize,
}

/// The model of a matrix.
pub struct MatrixView {
    pub options: Seq<OptionView>,
    pub positional_size: nat,
}

impl View for Matrix {
    type V = MatrixView;

    open spec fn view(&self) -> MatrixView {
        MatrixView {
            options: Seq::new(self.options.len() as nat, |i: int| self.options[i]@),
            positional_size: self.positional_size as nat,
        }
    }
}

impl MatrixView {
    /// Every option is well formed, and the positional ones have
    /// `positional_size` values each.
    pub open spec fn wf(self) -> bool {
        forall|i: int|
            0 <= i < self.options.len() ==> {
                &&& (#[trigger] self.options[i]).wf()
                &&& self.options[i].kind == OptionKind::Positional ==> self.options[i].values.len()
                    == self.positional_size
            }
    }
}

/// The number of dashes, up to two, with which `arg` begins.
pub open spec fn dash_count(arg: Seq<char>) -> int {
    if arg.len() >= 2 && arg[0] == '-' && arg[1] == '-' {
        2
    } else if arg.len() >= 1 && arg[0] == '-' {
        1
    } else {
        0
    }
}

/// Whether `arg` has, after its `dashes` leading dashes, one or more digits
/// and then a comma at index `comma`.
pub open spec fn scope_ends_at(arg: Seq<char>, dashes: int, comma: int) -> bool {
    0 <= dashes < comma < arg.len() && arg[comma] == ',' && all_digits(
        arg.subrange(dashes, comma),
    )
}

/// The name and the command index of an option that is written for one
/// command: one or two dashes, the index in decimal digits, a comma, and the
/// rest of the name. The name is the dashes and the rest. An index above
/// `i32::MAX` is not taken for one.
pub open spec fn scoped_name(arg: Seq<char>) -> Option<(Seq<char>, nat)> {
    let dashes = dash_count(arg);
    if dashes > 0 && exists|comma: int| scope_ends_at(arg, dashes, comma) {
        let comma = choose|comma: int| scope_ends_at(arg, dashes, comma);
        let index = decimal(arg.subrange(dashes, comma));
        if index <= i32::MAX {
            Some((arg.take(dashes) + arg.skip(comma + 1), index))
        } else {
            None
        }
    } else {
        None
    }
}

/// The items of `items` at the positions `from`, `from + step`,
/// `from + 2 * step` and so on.
pub open spec fn every_nth(items: Seq<Seq<char>>, step: nat, from: nat) -> Seq<Seq<char>>
    decreases
        if from < items.len() {
            items.len() - from
        } else {
            0
        },
{
    if from >= items.len() || step == 0 {
        Seq::empty()
    } else {
        seq![items[from as int]] + every_nth(items, step, from + step)
    }
}

/// The values of a distributed option: token `k` goes to group `k % runners`,
/// and the tokens of a group are joined by single spaces. There are as many
/// groups as runners, or as tokens where these are fewer.
pub open spec fn distributed(tokens: Seq<Seq<char>>, runners: nat) -> Seq<Seq<char>> {
    Seq::new(
        if tokens.len() < runners {
            tokens.len()
        } else {
            runners
        },
        |group: int| join(every_nth(tokens, runners, group as nat), seq![' ']),
    )
}

/// The index of the first token at or after `from` that begins with a dash,
/// or the number of tokens where there is none.
pub open spec fn next_dashed(tail: Seq<Seq<char>>, from: int) -> int
    decreases tail.len() - from,
{
    if from < 0 || from >= tail.len() {
        tail.len() as int
    } else if is_dashed(tail[from]) {
        from
    } else {
        next_dashed(tail, from + 1)
    }
}

/// The last of the tokens `owned` that holds a comma.
pub open spec fn last_listed(owned: Seq<Seq<char>>) -> Option<Seq<char>>
    decreases owned.len(),
{
    if owned.len() == 0 {
        None
    } else if owned.last().contains(',') {
        Some(owned.last())
    } else {
        last_listed(owned.drop_last())
    }
}

/// The option that the token `head` declares when it owns the tokens `owned`.
///
/// Every `%` is taken out of the name, and if what is left names one command
/// (see [`scoped_name`]), so is the index. Where an owned token holds a comma,
/// the option is positional, and its values are the comma-separated parts of
/// the last such token; the other tokens are not used. Otherwise an option
/// without tokens is a flag, one with a `%` in its name is distributed (see
/// [`distributed`]), and any other has its tokens for values.
pub open spec fn option_of(head: Seq<char>, owned: Seq<Seq<char>>, runners: nat) -> OptionView {
    let plain = without(head, '%');
    let name = match scoped_name(plain) {
        Some((name, _)) => name,
        None => plain,
    };
    let scope = match scoped_name(plain) {
        Some((_, index)) => Some(index as usize),
        None => None,
    };
    match last_listed(owned) {
        Some(token) => OptionView {
            name,
            kind: OptionKind::Positional,
            scope,
            values: split(token, ','),
        },
        None => if owned.len() == 0 {
            OptionView { name, kind: OptionKind::Flag, scope, values: Seq::empty() }
        } else if head.contains('%') {
            OptionView {
                name,
                kind: OptionKind::Distributed,
                scope,
                values: distributed(owned, runners),
            }
        } else {
            OptionView { name, kind: OptionKind::MultiValued, scope, values: owned }
        },
    }
}

/// The options that the tokens from index `from` on declare: each token that
/// begins with a dash declares one and owns the tokens up to the next such
/// token.
pub open spec fn options_from(tail: Seq<Seq<char>>, from: int, runners: nat) -> Seq<OptionView>
    decreases tail.len() - from,
{
    let head = next_dashed(tail, from);
    if from < 0 || head >= tail.len() {
        Seq::empty()
    } else {
        proof {
            lemma_next_dashed_bounds(tail, from);
            lemma_next_dashed_bounds(tail, head + 1);
        }
        let end = next_dashed(tail, head + 1);
        seq![option_of(tail[head], tail.subrange(head + 1, end), runners)] + options_from(
            tail,
            end,
            runners,
        )
    }
}

/// The options of the matrix for the tokens `tail`. Where the first token
/// does not begin with a dash, a first option without a name has all the
/// tokens for values; the options that later tokens declare follow it.
pub open spec fn matrix_options(tail: Seq<Seq<char>>, runners: nat) -> Seq<OptionView> {
    if tail.len() > 0 && !is_dashed(tail[0]) {
        seq![
            OptionView {
                name: Seq::empty(),
                kind: OptionKind::MultiValued,
                scope: None,
                values: tail,
            },
        ] + options_from(tail, 0, runners)
    } else {
        options_from(tail, 0, runners)
    }
}

/// Whether token `k` is a value with a comma in it that a declared option
/// owns.
pub open spec fn is_listed_value(tail: Seq<Seq<char>>, k: int) -> bool {
    next_dashed(tail, 0) < k < tail.len() && !is_dashed(tail[k]) && tail[k].contains(',')
}

/// Whether all comma-joined values have the same number of parts.
pub open spec fn lists_agree(tail: Seq<Seq<char>>) -> bool {
    forall|a: int, b: int|
        is_listed_value(tail, a) && is_listed_value(tail, b) ==> split(tail[a], ',').len() == split(
            tail[b],
            ',',
        ).len()
}

/// The number of parts of the comma-joined values, 0 where there is none.
pub open spec fn list_size(tail: Seq<Seq<char>>) -> nat {
    if exists|k: int| is_listed_value(tail, k) {
        split(tail[choose|k: int| is_listed_value(tail, k)], ',').len()
    } else {
        0
    }
}

/// The matrix for the tokens `tail`, or the reason why there is none.
pub open spec fn matrix_of(tail: Seq<Seq<char>>, runners: nat) -> Result<MatrixView, ConfigError> {
    if lists_agree(tail) {
        Ok(
            MatrixView {
                options: matrix_options(tail, runners),
                positional_size: list_size(tail),
            },
        )
    } else {
        Err(ConfigError::PositionalMismatch)
    }
}

/// The next dashed token is not before the place from which it is sought,
/// and not after the last token.
pub proof fn lemma_next_dashed_bounds(tail: Seq<Seq<char>>, from: int)
    ensures
        from <= next_dashed(tail, from) || next_dashed(tail, from) == tail.len(),
        0 <= from ==> from <= next_dashed(tail, from) <= tail.len() || from > tail.len(),
        next_dashed(tail, from) <= tail.len(),
        next_dashed(tail, from) < tail.len() ==> is_dashed(tail[next_dashed(tail, from)]),
    decreases tail.len() - from,
{
    if 0 <= from < tail.len() && !is_dashed(tail[from]) {
        lemma_next_dashed_bounds(tail, from + 1);
    }
}

/// No token between the place from which the next dashed token is sought and
/// that token begins with a dash.
pub proof fn lemma_next_dashed_first(tail: Seq<Seq<char>>, from: int, at: int)
    requires
        0 <= from <= at < next_dashed(tail, from),
    ensures
        at < tail.len(),
        !is_dashed(tail[at]),
        next_dashed(tail, at) == next_dashed(tail, from),
    decreases at - from,
{
    lemma_next_dashed_bounds(tail, from);
    if from < at {
        lemma_next_dashed_first(tail, from + 1, at);
    }
}

/// What a scan of the tokens before `upto` has found of the comma-joined
/// values: they all have `size` parts, and `size` is 0 exactly where there was
/// none.
pub open spec fn sizes_seen(tail: Seq<Seq<char>>, upto: int, size: nat) -> bool {
    &&& forall|k: int|
        k < upto && is_listed_value(tail, k) ==> (#[trigger] split(tail[k], ',')).len() == size
    &&& size == 0 <==> forall|k: int| k < upto ==> !is_listed_value(tail, k)
}

/// A dashed token is found by every search that starts at or before it.
proof fn lemma_next_dashed_upto(tail: Seq<Seq<char>>, from: int, at: int)
    requires
        0 <= from <= at < tail.len(),
        is_dashed(tail[at]),
    ensures
        next_dashed(tail, from) <= at,
{
    if next_dashed(tail, from) > at {
        lemma_next_dashed_first(tail, from, at);
    }
}

/// A copy of `items[from..to]`.
pub fn copy_range(items: &Vec<String>, from: usize, to: usize) -> (r: Vec<String>)
    requires
        from <= to <= items.len(),
    ensures
        r.deep_view() == items.deep_view().subrange(from as int, to as int),
{
    let mut out: Vec<String> = Vec::new();
    let mut at: usize = from;
    while at < to
        invariant
            from <= at <= to <= items.len(),
            out.len() == at - from,
            forall|k: int| 0 <= k < out.len() ==> (#[trigger] out[k])@ == items[from + k]@,
        decreases to - at,
    {
        out.push(items[at].clone());
        at += 1;
    }
    assert(out.deep_view() =~= items.deep_view().subrange(from as int, to as int));
    out
}

/// Reads the option that token `head` declares and that owns the tokens up
/// to `end`, and holds the comma-joined values among them against `size`.
fn read_option(
    tail: &Vec<String>,
    head: usize,
    end: usize,
    runners: usize,
    size: &mut usize,
) -> (r: Result<ArgOption, ConfigError>)
    requires
        head < end <= tail.len(),
        runners >= 1,
        is_dashed(tail.deep_view()[head as int]),
        forall|k: int| head < k < end ==> !is_dashed(#[trigger] tail.deep_view()[k]),
        sizes_seen(tail.deep_view(), head + 1, *old(size) as nat),
    ensures
        match r {
            Ok(option) => {
                &&& option@ == option_of(
                    tail.deep_view()[head as int],
                    tail.deep_view().subrange(head + 1, end as int),
                    runners as nat,
                )
                &&& option@.wf()
                &&& option.kind == OptionKind::Positional ==> option.values.len() == *final(size)
                &&& *old(size) != 0 ==> *final(size) == *old(size)
                &&& sizes_seen(tail.deep_view(), end as int, *final(size) as nat)
            },
            Err(e) => e == ConfigError::PositionalMismatch && !lists_agree(tail.deep_view()),
        },
{
    let ghost tokens = tail.deep_view();
    let ghost owned = tokens.subrange(head + 1, end as int);
    assert(tokens[head as int] == tail[head as int]@);
    let head_token = tail[head].as_str();
    let spread = has_char(head_token, '%');
    let plain = strip_char(head_token, '%');
    let (scoped, index) = get_specific_arg(plain.clone());
    let (name, scope) = if index >= 0 {
        (scoped, Some(index as usize))
    } else {
        (plain, None)
    };
    let mut listed: Option<Vec<String>> = None;
    let mut at: usize = head + 1;
    assert(owned.take(0) =~= Seq::empty());
    while at < end
        invariant
            head < at <= end <= tail.len(),
            tokens == tail.deep_view(),
            owned == tokens.subrange(head + 1, end as int),
            is_dashed(tokens[head as int]),
            forall|k: int| head < k < end ==> !is_dashed(#[trigger] tokens[k]),
            sizes_seen(tokens, at as int, *size as nat),
            *old(size) != 0 ==> *size == *old(size),
            match listed {
                Some(parts) => last_listed(owned.take(at - head - 1)) is Some && parts.deep_view()
                    == split(last_listed(owned.take(at - head - 1))->0, ',') && parts.len()
                    == *size && parts.len() > 0,
                None => last_listed(owned.take(at - head - 1)) is None,
            },
        decreases end - at,
    {
        let token = tail[at].as_str();
        proof {
            assert(tokens[at as int] == tail[at as int]@);
            assert(owned.take(at - head).drop_last() =~= owned.take(at - head - 1));
            assert(owned.take(at - head).last() == tokens[at as int]);
            lemma_next_dashed_upto(tokens, 0, head as int);
        }
        if has_char(token, ',') {
            assert(is_listed_value(tokens, at as int));
            let parts = split_at_char(token, ',');
            proof {
                crate::text::lemma_split_nonempty(token@, ',');
            }
            if *size == 0 {
                *size = parts.len();
            } else if *size != parts.len() {
                proof {
                    let seen = choose|k: int| k < at && is_listed_value(tokens, k);
                    assert(split(tokens[seen], ',').len() != split(tokens[at as int], ',').len());
                }
                return Err(ConfigError::PositionalMismatch);
            }
            listed = Some(parts);
        }
        at += 1;
    }
    assert(owned.take(end - head - 1) =~= owned);
    let (kind, values) = match listed {
        Some(parts) => (OptionKind::Positional, parts),
        None => if end == head + 1 {
            let none: Vec<String> = Vec::new();
            assert(none.deep_view() =~= Seq::empty());
            (OptionKind::Flag, none)
        } else if spread {
            (OptionKind::Distributed, distribute(tail, head + 1, end, runners))
        } else {
            (OptionKind::MultiValued, copy_range(tail, head + 1, end))
        },
    };
    Ok(ArgOption { name, kind, scope, values })
}

impl Matrix {
    /// Builds the matrix that the tokens `tail` declare, for `runners`
    /// runners. It fails where two comma-joined values have different numbers
    /// of parts.
    pub fn build(tail: &Vec<String>, runners: usize) -> (r: Result<Matrix, ConfigError>)
        requires
            runners >= 1,
        ensures
            match r {
                Ok(matrix) => matrix_of(tail.deep_view(), runners as nat) == Ok::<
                    MatrixView,
                    ConfigError,
                >(matrix@) && matrix@.wf(),
                Err(e) => matrix_of(tail.deep_view(), runners as nat) == Err::<
                    MatrixView,
                    ConfigError,
                >(e),
            },
    {
        let ghost tokens = tail.deep_view();
        let mut options: Vec<ArgOption> = Vec::new();
        let mut size: usize = 0;
        if tail.len() > 0 && !starts_with_dash(tail[0].as_str()) {
            let all = copy_range(tail, 0, tail.len());
            assert(tokens.subrange(0, tail.len() as int) =~= tokens);
            options.push(
                ArgOption {
                    name: String::new(),
                    kind: OptionKind::MultiValued,
                    scope: None,
                    values: all,
                },
            );
        }
        assert(tail.len() > 0 ==> tokens[0] == tail[0]@);
        let ghost first = option_views(options@);
        assert(first + options_from(tokens, 0, runners as nat) =~= matrix_options(
            tokens,
            runners as nat,
        ));
        let mut at: usize = 0;
        proof {
            lemma_next_dashed_bounds(tokens, 0);
        }
        while at < tail.len()
            invariant
                runners >= 1,
                tokens == tail.deep_view(),
                at <= tail.len(),
                option_views(options@) + options_from(tokens, at as int, runners as nat)
                    == matrix_options(tokens, runners as nat),
                sizes_seen(tokens, at as int, size as nat),
                at <= next_dashed(tokens, 0) || at == tail.len() || is_dashed(tokens[at as int]),
                forall|i: int|
                    0 <= i < options.len() ==> {
                        &&& (#[trigger] options[i])@.wf()
                        &&& options[i].kind == OptionKind::Positional ==> options[i].values.len()
                            == size
                    },
            decreases tail.len() - at,
        {
            assert(tokens[at as int] == tail[at as int]@);
            if starts_with_dash(tail[at].as_str()) {
                let mut end: usize = at + 1;
                while end < tail.len() && !starts_with_dash(tail[end].as_str())
                    invariant
                        tokens == tail.deep_view(),
                        at < end <= tail.len(),
                        forall|k: int| at < k < end ==> !is_dashed(#[trigger] tokens[k]),
                        next_dashed(tokens, at + 1) == next_dashed(tokens, end as int),
                    decreases tail.len() - end,
                {
                    assert(tokens[end as int] == tail[end as int]@);
                    end += 1;
                }
                proof {
                    if end < tail.len() {
                        assert(tokens[end as int] == tail[end as int]@);
                    }
                    assert(next_dashed(tokens, at + 1) == end);
                }
                let ghost earlier = options@;
                match read_option(tail, at, end, runners, &mut size) {
                    Ok(option) => {
                        options.push(option);
                        proof {
                            assert(option_views(options@) =~= option_views(earlier).push(option@));
                            assert(option_views(options@) + options_from(
                                tokens,
                                end as int,
                                runners as nat,
                            ) =~= option_views(earlier) + options_from(
                                tokens,
                                at as int,
                                runners as nat,
                            ));
                        }
                    },
                    Err(e) => {
                        return Err(e);
                    },
                }
                at = end;
            } else {
                proof {
                    lemma_next_dashed_bounds(tokens, 0);
                    lemma_next_dashed_bounds(tokens, at + 1);
                }
                at += 1;
            }
        }
        let matrix = Matrix { options, positional_size: size };
        proof {
            assert(matrix@.options =~= option_views(matrix.options@));
            assert(options_from(tokens, tail.len() as int, runners as nat) =~= Seq::empty());
            assert(matrix@.options =~= matrix_options(tokens, runners as nat));
            assert(lists_agree(tokens));
            assert(list_size(tokens) == size);
        }
        Ok(matrix)
    }
}

/// The models of the options of a vector.
pub open spec fn option_views(options: Seq<ArgOption>) -> Seq<OptionView> {
    Seq::new(options.len(), |i: int| options[i]@)
}

/// At most one comma can end the index of a scoped name.
proof fn lemma_scope_end_unique(arg: Seq<char>, dashes: int, a: int, b: int)
    requires
        scope_ends_at(arg, dashes, a),
        scope_ends_at(arg, dashes, b),
    ensures
        a == b,
{
    if a < b {
        assert(arg.subrange(dashes, b)[a - dashes] == ',');
    } else if b < a {
        assert(arg.subrange(dashes, a)[b - dashes] == ',');
    }
}

/// Tells whether `arg` names an option of one command. If so, returns the
/// name without the index and the index; if not, the empty name and -1.
pub fn get_specific_arg(arg: String) -> (r: (String, i32))
    ensures
        match scoped_name(arg@) {
            Some((name, index)) => r.0@ == name && r.1 == index,
            None => r.0@ == Seq::<char>::empty() && r.1 == -1,
        },
{
    let chars = chars_of(arg.as_str());
    let n = chars.len();
    let dashes: usize = if n >= 2 && chars[0] == '-' && chars[1] == '-' {
        2
    } else if n >= 1 && chars[0] == '-' {
        1
    } else {
        0
    };
    if dashes == 0 {
        return (String::new(), -1);
    }
    let mut end: usize = dashes;
    while end < n && '0' <= chars[end] && chars[end] <= '9'
        invariant
            chars@ == arg@,
            n == chars.len(),
            dashes <= end <= n,
            all_digits(arg@.subrange(dashes as int, end as int)),
        decreases n - end,
    {
        proof {
            let grown = arg@.subrange(dashes as int, end + 1);
            assert forall|k: int| 0 <= k < grown.len() implies is_digit(#[trigger] grown[k]) by {
                if k < end - dashes {
                    assert(grown[k] == arg@.subrange(dashes as int, end as int)[k]);
                }
            }
        }
        end += 1;
    }
    if end == dashes || end == n || chars[end] != ',' {
        proof {
            if exists|comma: int| scope_ends_at(arg@, dashes as int, comma) {
                let comma = choose|comma: int| scope_ends_at(arg@, dashes as int, comma);
                if comma < end {
                    assert(arg@.subrange(dashes as int, end as int)[comma - dashes] == ',');
                } else if comma > end {
                    assert(arg@.subrange(dashes as int, comma)[end - dashes] == arg@[end as int]);
                }
            }
        }
        return (String::new(), -1);
    }
    proof {
        assert(scope_ends_at(arg@, dashes as int, end as int));
        let comma = choose|comma: int| scope_ends_at(arg@, dashes as int, comma);
        lemma_scope_end_unique(arg@, dashes as int, comma, end as int);
    }
    match read_number(&chars, dashes, end, 0x7fff_ffff) {
        Some(index) => {
            let mut name = substring(arg.as_str(), 0, dashes);
            name.append(arg.as_str().substring_char(end + 1, n));
            proof {
                assert(arg@.subrange(0, dashes as int) =~= arg@.take(dashes as int));
                assert(arg@.subrange(end + 1, n as int) =~= arg@.skip(end + 1));
            }
            (name, index as i32)
        },
        None => (String::new(), -1),
    }
}

/// Spreads `tokens[from..to]` over `runners` groups, token `k` of them going
/// to group `k % runners`, and joins each group with single spaces.
pub fn distribute(tokens: &Vec<String>, from: usize, to: usize, runners: usize) -> (r: Vec<String>)
    requires
        from <= to <= tokens.len(),
        runners >= 1,
    ensures
        r.deep_view() == distributed(
            tokens.deep_view().subrange(from as int, to as int),
            runners as nat,
        ),
{
    let ghost owned = tokens.deep_view().subrange(from as int, to as int);
    let ghost want = distributed(owned, runners as nat);
    let count = to - from;
    let groups: usize = if count < runners {
        count
    } else {
        runners
    };
    let mut out: Vec<String> = Vec::new();
    let mut group: usize = 0;
    while group < groups
        invariant
            from <= to <= tokens.len(),
            runners >= 1,
            count == to - from,
            groups <= runners,
            groups <= count,
            owned == tokens.deep_view().subrange(from as int, to as int),
            want == distributed(owned, runners as nat),
            want.len() == groups,
            group <= groups,
            out.len() == group,
            forall|g: int| 0 <= g < group ==> (#[trigger] out[g])@ == want[g],
        decreases groups - group,
    {
        let mut joined = String::new();
        let mut at: usize = group;
        let mut first = true;
        let ghost mut taken: Seq<Seq<char>> = Seq::empty();
        assert(taken + every_nth(owned, runners as nat, at as nat) =~= every_nth(
            owned,
            runners as nat,
            group as nat,
        ));
        while at < count
            invariant
                from <= to <= tokens.len(),
                runners >= 1,
                count == to - from,
                owned == tokens.deep_view().subrange(from as int, to as int),
                at <= count,
                first <==> taken.len() == 0,
                taken + every_nth(owned, runners as nat, at as nat) == every_nth(
                    owned,
                    runners as nat,
                    group as nat,
                ),
                joined@ == join(taken, seq![' ']),
            decreases count - at,
        {
            let token = &tokens[from + at];
            let ghost before = taken;
            let ghost rest = every_nth(owned, runners as nat, (at + runners) as nat);
            proof {
                assert(owned[at as int] == token@) by {
                    assert(tokens.deep_view()[from + at] == tokens[from + at]@);
                }
                reveal_strlit(" ");
                assert(" "@ =~= seq![' ']);
            }
            if !first {
                joined.append(" ");
            }
            joined.append(token.as_str());
            first = false;
            proof {
                taken = before.push(token@);
                assert(taken.drop_last() =~= before);
                assert(taken + rest =~= before + every_nth(owned, runners as nat, at as nat));
                if before.len() == 0 {
                    assert(joined@ =~= token@);
                } else {
                    assert(joined@ =~= join(before, seq![' ']) + seq![' '] + token@);
                }
            }
            if runners >= count - at {
                at = count;
                assert(rest =~= every_nth(owned, runners as nat, at as nat));
            } else {
                at += runners;
            }
        }
        proof {
            assert(taken + every_nth(owned, runners as nat, at as nat) =~= taken);
        }
        out.push(joined);
        group += 1;
    }
    assert(out.deep_view() =~= want);
    out
}

} // verus!
