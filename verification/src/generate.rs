//! The combinations of argument values that a command is run with.
//!
//! Of the matrix a command sees the options that are not written for another
//! command. Those with values that came as a list are combined in every way;
//! the positional ones are taken position for position, and each such row is
//! joined to each of the former. In ordered mode all options with values are
//! taken position for position. The filter and allow rules then drop
//! combinations, and what is left gets the option names, and the flags at the
//! end.
use crate::error::ConfigError;
use crate::matrix::{Matrix, MatrixView, OptionKind, OptionView};
use crate::product::{
    all_tuples, cross, cross_join, lemma_longest_common, lemma_tuple_count, lemma_tuples_sound,
    longest, ordered_combinations, tuple_count, tuples, zip_lists, zipped,
};
use crate::rules::{excluded, is_excluded, survivors};
use crate::sequences::{
    lemma_cloned_row, lemma_deep_view_concat, lemma_filter_keeps_all, lemma_filter_push,
    lemma_pushed_row,
};
use vstd::prelude::*;

verus! {

/// Whether command `command` sees the option.
pub open spec fn in_scope(option: OptionView, command: usize) -> bool {
    match option.scope {
        Some(index) => index == command,
        None => true,
    }
}

/// Whether the option's values are combined in every way with the others'.
pub open spec fn enters_product(option: OptionView, command: usize) -> bool {
    in_scope(option, command) && option.kind != OptionKind::Positional && option.values.len() > 0
}

/// Whether the option's values are taken position for position.
pub open spec fn enters_zip(option: OptionView, command: usize) -> bool {
    in_scope(option, command) && option.kind == OptionKind::Positional && option.values.len() > 0
}

/// Whether the option gives its name alone.
pub open spec fn is_bare(option: OptionView, command: usize) -> bool {
    in_scope(option, command) && option.kind != OptionKind::Positional && option.values.len() == 0
}

/// The options whose values are combined in every way, in matrix order.
pub open spec fn product_part(options: Seq<OptionView>, command: usize) -> Seq<OptionView> {
    options.filter(|option: OptionView| enters_product(option, command))
}

/// The options whose values are taken position for position, in matrix order.
pub open spec fn zip_part(options: Seq<OptionView>, command: usize) -> Seq<OptionView> {
    options.filter(|option: OptionView| enters_zip(option, command))
}

/// The flags, in matrix order.
pub open spec fn flag_part(options: Seq<OptionView>, command: usize) -> Seq<OptionView> {
    options.filter(|option: OptionView| is_bare(option, command))
}

/// The names of the options.
pub open spec fn names_of(options: Seq<OptionView>) -> Seq<Seq<char>> {
    Seq::new(options.len(), |i: int| options[i].name)
}

/// The value lists of the options.
pub open spec fn values_of(options: Seq<OptionView>) -> Seq<Seq<Seq<char>>> {
    Seq::new(options.len(), |i: int| options[i].values)
}

/// The rows of positional values: row `i` holds value `i` of every list, or
/// value 0 of a list that has no value `i`. There are as many rows as the
/// longest list has values, which in a well-formed matrix is the number of
/// values of every positional option; without a list there is one row, which
/// is empty.
pub open spec fn aligned(lists: Seq<Seq<Seq<char>>>) -> Seq<Seq<Seq<char>>> {
    if lists.len() == 0 {
        seq![Seq::empty()]
    } else {
        zipped(lists, longest(lists))
    }
}

/// Whether the lists can be taken position for position: those with more than
/// one value all have the same number of values.
pub open spec fn ordered_ok(lists: Seq<Seq<Seq<char>>>) -> bool {
    forall|a: int, b: int|
        0 <= a < lists.len() && 0 <= b < lists.len() && (#[trigger] lists[a]).len() != 1 && (
        #[trigger] lists[b]).len() != 1 ==> lists[a].len() == lists[b].len()
}

/// The number of rows in ordered mode: the number of values of a list that
/// has more than one, and 1 where every list has one value.
pub open spec fn ordered_len(lists: Seq<Seq<Seq<char>>>) -> nat {
    if exists|k: int| 0 <= k < lists.len() && (#[trigger] lists[k]).len() != 1 {
        lists[choose|k: int| 0 <= k < lists.len() && (#[trigger] lists[k]).len() != 1].len()
    } else {
        1
    }
}

/// The rows of values before any rule is applied: one value for each option
/// of `lists`, then one for each of `positional`.
pub open spec fn candidates(
    lists: Seq<Seq<Seq<char>>>,
    positional: Seq<Seq<Seq<char>>>,
    ordered: bool,
) -> Seq<Seq<Seq<char>>> {
    if ordered {
        zipped(lists + positional, ordered_len(lists + positional))
    } else {
        cross(tuples(lists), aligned(positional))
    }
}

/// A combination: each name with its value, then each flag with no value.
pub open spec fn combination(
    names: Seq<Seq<char>>,
    values: Seq<Seq<char>>,
    flags: Seq<Seq<char>>,
) -> Seq<(Seq<char>, Seq<char>)> {
    Seq::new(names.len(), |k: int| (names[k], values[k])) + Seq::new(
        flags.len(),
        |k: int| (flags[k], Seq::empty()),
    )
}

/// The rows of values as combinations.
pub open spec fn named(
    rows: Seq<Seq<Seq<char>>>,
    names: Seq<Seq<char>>,
    flags: Seq<Seq<char>>,
) -> Seq<Seq<(Seq<char>, Seq<char>)>> {
    Seq::new(rows.len(), |i: int| combination(names, rows[i], flags))
}

/// The combinations with which command `command` is run, in the order in
/// which they are run, or the reason why there are none.
pub open spec fn combinations_of(
    matrix: MatrixView,
    command: usize,
    ordered: bool,
    filters: Seq<Seq<Seq<char>>>,
    allows: Seq<Seq<Seq<char>>>,
) -> Result<Seq<Seq<(Seq<char>, Seq<char>)>>, ConfigError> {
    let lists = product_part(matrix.options, command);
    let positional = zip_part(matrix.options, command);
    let flags = flag_part(matrix.options, command);
    if ordered && !ordered_ok(values_of(lists) + values_of(positional)) {
        Err(ConfigError::OrderedMismatch)
    } else {
        Ok(
            named(
                survivors(candidates(values_of(lists), values_of(positional), ordered), filters, allows),
                names_of(lists) + names_of(positional),
                names_of(flags),
            ),
        )
    }
}

/// What a command sees of the matrix.
pub struct Selection {
    /// The names of the options whose values are combined in every way.
    pub names: Vec<String>,
    /// Their values.
    pub lists: Vec<Vec<String>>,
    /// The names of the positional options.
    pub aligned_names: Vec<String>,
    /// Their values.
    pub aligned_lists: Vec<Vec<String>>,
    /// The names of the flags.
    pub flags: Vec<String>,
}

/// Picks the options that command `command` sees, by the way in which they
/// enter the combinations.
pub fn select(matrix: &Matrix, command: usize) -> (r: Selection)
    ensures
        r.names.deep_view() == names_of(product_part(matrix@.options, command)),
        r.lists.deep_view() == values_of(product_part(matrix@.options, command)),
        r.aligned_names.deep_view() == names_of(zip_part(matrix@.options, command)),
        r.aligned_lists.deep_view() == values_of(zip_part(matrix@.options, command)),
        r.flags.deep_view() == names_of(flag_part(matrix@.options, command)),
        forall|k: int| 0 <= k < r.lists.len() ==> (#[trigger] r.lists[k]).len() > 0,
        forall|k: int| 0 <= k < r.aligned_lists.len() ==> (#[trigger] r.aligned_lists[k]).len() > 0,
{
    let ghost all = matrix@.options;
    let mut names: Vec<String> = Vec::new();
    let mut lists: Vec<Vec<String>> = Vec::new();
    let mut aligned_names: Vec<String> = Vec::new();
    let mut aligned_lists: Vec<Vec<String>> = Vec::new();
    let mut flags: Vec<String> = Vec::new();
    let mut at: usize = 0;
    proof {
        reveal(Seq::filter);
        assert(all.take(0) =~= Seq::empty());
        assert(names.deep_view() =~= names_of(product_part(all.take(0), command)));
        assert(lists.deep_view() =~= values_of(product_part(all.take(0), command)));
        assert(aligned_names.deep_view() =~= names_of(zip_part(all.take(0), command)));
        assert(aligned_lists.deep_view() =~= values_of(zip_part(all.take(0), command)));
        assert(flags.deep_view() =~= names_of(flag_part(all.take(0), command)));
    }
    while at < matrix.options.len()
        invariant
            all == matrix@.options,
            at <= matrix.options.len(),
            names.deep_view() == names_of(product_part(all.take(at as int), command)),
            lists.deep_view() == values_of(product_part(all.take(at as int), command)),
            aligned_names.deep_view() == names_of(zip_part(all.take(at as int), command)),
            aligned_lists.deep_view() == values_of(zip_part(all.take(at as int), command)),
            flags.deep_view() == names_of(flag_part(all.take(at as int), command)),
            forall|k: int| 0 <= k < lists.len() ==> (#[trigger] lists[k]).len() > 0,
            forall|k: int| 0 <= k < aligned_lists.len() ==> (#[trigger] aligned_lists[k]).len() > 0,
        decreases matrix.options.len() - at,
    {
        let option = &matrix.options[at];
        let ghost seen = all.take(at as int);
        proof {
            assert(all[at as int] == option@);
            assert(all.take(at + 1) =~= seen.push(option@));
            lemma_filter_push(seen, option@, |option: OptionView| enters_product(option, command));
            lemma_filter_push(seen, option@, |option: OptionView| enters_zip(option, command));
            lemma_filter_push(seen, option@, |option: OptionView| is_bare(option, command));
        }
        let visible = match option.scope {
            Some(index) => index == command,
            None => true,
        };
        if visible {
            let positional = match option.kind {
                OptionKind::Positional => true,
                _ => false,
            };
            let name = option.name.clone();
            if option.values.len() == 0 {
                if !positional {
                    let ghost before = flags;
                    flags.push(name);
                    proof {
                        lemma_pushed_row(before, flags, name);
                        assert(names_of(flag_part(seen, command)).push(option@.name) =~= names_of(
                            flag_part(seen, command).push(option@),
                        ));
                    }
                }
            } else {
                let values = option.values.clone();
                proof {
                    lemma_cloned_row(option.values, values);
                }
                if positional {
                    let ghost before = aligned_names;
                    let ghost lists_before = aligned_lists;
                    aligned_names.push(name);
                    aligned_lists.push(values);
                    proof {
                        lemma_pushed_row(before, aligned_names, name);
                        lemma_pushed_row(lists_before, aligned_lists, values);
                        assert(names_of(zip_part(seen, command)).push(option@.name) =~= names_of(
                            zip_part(seen, command).push(option@),
                        ));
                        assert(values_of(zip_part(seen, command)).push(option@.values)
                            =~= values_of(zip_part(seen, command).push(option@)));
                    }
                } else {
                    let ghost before = names;
                    let ghost lists_before = lists;
                    names.push(name);
                    lists.push(values);
                    proof {
                        lemma_pushed_row(before, names, name);
                        lemma_pushed_row(lists_before, lists, values);
                        assert(names_of(product_part(seen, command)).push(option@.name)
                            =~= names_of(product_part(seen, command).push(option@)));
                        assert(values_of(product_part(seen, command)).push(option@.values)
                            =~= values_of(product_part(seen, command).push(option@)));
                    }
                }
            }
        }
        at += 1;
    }
    assert(all.take(at as int) =~= all);
    Selection { names, lists, aligned_names, aligned_lists, flags }
}

/// The number of rows that the lists give in ordered mode, if they can be
/// taken position for position.
pub fn common_length(lists: &Vec<Vec<String>>) -> (r: Option<usize>)
    ensures
        r is Some <==> ordered_ok(lists.deep_view()),
        r matches Some(n) ==> n == ordered_len(lists.deep_view()),
{
    let ghost all = lists.deep_view();
    let mut found: Option<usize> = None;
    let mut at: usize = 0;
    while at < lists.len()
        invariant
            all == lists.deep_view(),
            at <= lists.len(),
            match found {
                Some(n) => n != 1 && (exists|k: int| 0 <= k < at && (#[trigger] all[k]).len() == n)
                    && forall|k: int| 0 <= k < at && (#[trigger] all[k]).len() != 1 ==> all[k].len() == n,
                None => forall|k: int| 0 <= k < at ==> (#[trigger] all[k]).len() == 1,
            },
        decreases lists.len() - at,
    {
        let n = lists[at].len();
        assert(all[at as int].len() == n) by {
            assert(all[at as int] == lists[at as int].deep_view());
        }
        if n != 1 {
            match found {
                Some(m) => {
                    if m != n {
                        proof {
                            let seen = choose|k: int| 0 <= k < at && (#[trigger] all[k]).len() == m;
                            assert(all[seen].len() != all[at as int].len());
                        }
                        return None;
                    }
                },
                None => {
                    found = Some(n);
                },
            }
        }
        at += 1;
    }
    match found {
        Some(n) => Some(n),
        None => Some(1),
    }
}

/// Gives the values of a row their names, and puts the flags at the end.
pub fn name_row(names: &Vec<String>, values: &Vec<String>, flags: &Vec<String>) -> (r: Vec<
    (String, String),
>)
    requires
        names.len() <= values.len(),
    ensures
        r.deep_view() == combination(names.deep_view(), values.deep_view(), flags.deep_view()),
{
    let ghost want = combination(names.deep_view(), values.deep_view(), flags.deep_view());
    let mut out: Vec<(String, String)> = Vec::new();
    let mut k: usize = 0;
    while k < names.len()
        invariant
            names.len() <= values.len(),
            want == combination(names.deep_view(), values.deep_view(), flags.deep_view()),
            k <= names.len(),
            out.len() == k,
            forall|m: int| 0 <= m < k ==> (#[trigger] out[m]).deep_view() == want[m],
        decreases names.len() - k,
    {
        proof {
            assert(names.deep_view()[k as int] == names[k as int]@);
            assert(values.deep_view()[k as int] == values[k as int]@);
        }
        out.push((names[k].clone(), values[k].clone()));
        k += 1;
    }
    let mut f: usize = 0;
    while f < flags.len()
        invariant
            want == combination(names.deep_view(), values.deep_view(), flags.deep_view()),
            f <= flags.len(),
            out.len() == names.len() + f,
            forall|m: int| 0 <= m < out.len() ==> (#[trigger] out[m]).deep_view() == want[m],
        decreases flags.len() - f,
    {
        proof {
            assert(flags.deep_view()[f as int] == flags[f as int]@);
        }
        out.push((flags[f].clone(), String::new()));
        f += 1;
    }
    assert(out.deep_view() =~= want);
    out
}

/// Every row of candidates holds one value for each option with values.
pub proof fn lemma_candidate_len(
    lists: Seq<Seq<Seq<char>>>,
    positional: Seq<Seq<Seq<char>>>,
    ordered: bool,
    n: int,
)
    requires
        0 <= n < candidates(lists, positional, ordered).len(),
    ensures
        candidates(lists, positional, ordered)[n].len() == lists.len() + positional.len(),
{
    if !ordered {
        let left = tuples(lists);
        let right = aligned(positional);
        let width = right.len() as int;
        assert(width > 0 && 0 <= n / width < left.len() && 0 <= n % width < width) by {
            crate::product::lemma_index_split(n, left.len() as int, width);
        }
        lemma_tuples_sound(lists, n / width);
    }
}

/// The combinations with which command `command` is run: see
/// [`combinations_of`]. In ordered mode there are none where two options with
/// more than one value have different numbers of values.
pub fn generate(
    matrix: &Matrix,
    command: usize,
    ordered: bool,
    filters: &Vec<Vec<String>>,
    allows: &Vec<Vec<String>>,
) -> (r: Result<Vec<Vec<(String, String)>>, ConfigError>)
    ensures
        match r {
            Ok(found) => combinations_of(
                matrix@,
                command,
                ordered,
                filters.deep_view(),
                allows.deep_view(),
            ) == Ok::<Seq<Seq<(Seq<char>, Seq<char>)>>, ConfigError>(found.deep_view()),
            Err(e) => combinations_of(
                matrix@,
                command,
                ordered,
                filters.deep_view(),
                allows.deep_view(),
            ) == Err::<Seq<Seq<(Seq<char>, Seq<char>)>>, ConfigError>(e),
        },
{
    let chosen = select(matrix, command);
    let ghost lists = chosen.lists.deep_view();
    let ghost positional = chosen.aligned_lists.deep_view();
    let ghost flags = chosen.flags.deep_view();
    let mut names = chosen.names.clone();
    let mut more_names = chosen.aligned_names.clone();
    proof {
        lemma_cloned_row(chosen.names, names);
        lemma_cloned_row(chosen.aligned_names, more_names);
        lemma_deep_view_concat(names, more_names);
    }
    names.append(&mut more_names);
    let ghost all_names = names.deep_view();
    let rows = if ordered {
        let mut all = chosen.lists.clone();
        let mut more = chosen.aligned_lists.clone();
        proof {
            lemma_cloned_rows(chosen.lists, all);
            lemma_cloned_rows(chosen.aligned_lists, more);
            lemma_deep_view_concat(all, more);
        }
        all.append(&mut more);
        match common_length(&all) {
            Some(n) => {
                let given = all.as_slice();
                proof {
                    assert(given.deep_view() =~= all.deep_view());
                    assert forall|k: int| 0 <= k < given.len() implies (#[trigger] given[k]).len()
                        > 0 by {
                        assert(all.deep_view()[k] == all[k].deep_view());
                        if k < lists.len() {
                            assert((lists + positional)[k] == chosen.lists.deep_view()[k]);
                            assert(chosen.lists.deep_view()[k] == chosen.lists[k].deep_view());
                        } else {
                            assert((lists + positional)[k] == chosen.aligned_lists.deep_view()[k
                                - lists.len()]);
                            assert(chosen.aligned_lists.deep_view()[k - lists.len()]
                                == chosen.aligned_lists[k - lists.len()].deep_view());
                        }
                    }
                }
                zip_lists(given, n)
            },
            None => {
                return Err(ConfigError::OrderedMismatch);
            },
        }
    } else {
        let given = chosen.lists.as_slice();
        assert(given.deep_view() =~= lists);
        let base = all_tuples(given);
        let side = if chosen.aligned_lists.len() == 0 {
            let mut one: Vec<Vec<String>> = Vec::new();
            let empty: Vec<String> = Vec::new();
            assert(empty.deep_view() =~= Seq::empty());
            one.push(empty);
            assert(one.deep_view() =~= seq![Seq::empty()]);
            one
        } else {
            let given = chosen.aligned_lists.as_slice();
            assert(given.deep_view() =~= positional);
            ordered_combinations(given)
        };
        cross_join(&base, &side)
    };
    let ghost all_rows = rows.deep_view();
    assert(all_rows == candidates(lists, positional, ordered));
    let mut out: Vec<Vec<(String, String)>> = Vec::new();
    let mut at: usize = 0;
    proof {
        reveal(Seq::filter);
        assert(all_rows.take(0) =~= Seq::empty());
        assert(out.deep_view() =~= named(
            survivors(all_rows.take(0), filters.deep_view(), allows.deep_view()),
            all_names,
            flags,
        ));
    }
    while at < rows.len()
        invariant
            at <= rows.len(),
            all_rows == rows.deep_view(),
            all_rows == candidates(lists, positional, ordered),
            all_names == names.deep_view(),
            flags == chosen.flags.deep_view(),
            names.len() == lists.len() + positional.len(),
            out.deep_view() == named(
                survivors(all_rows.take(at as int), filters.deep_view(), allows.deep_view()),
                all_names,
                flags,
            ),
        decreases rows.len() - at,
    {
        let row = &rows[at];
        let ghost seen = all_rows.take(at as int);
        let ghost kept = survivors(seen, filters.deep_view(), allows.deep_view());
        proof {
            assert(all_rows[at as int] == row.deep_view());
            assert(all_rows.take(at + 1) =~= seen.push(row.deep_view()));
            lemma_filter_push(
                seen,
                row.deep_view(),
                |values: Seq<Seq<char>>| !excluded(filters.deep_view(), allows.deep_view(), values),
            );
            lemma_candidate_len(lists, positional, ordered, at as int);
        }
        if !is_excluded(row, filters, allows) {
            let combination = name_row(&names, row, &chosen.flags);
            let ghost before = out;
            out.push(combination);
            proof {
                lemma_pushed_row(before, out, combination);
                assert(named(kept, all_names, flags).push(combination.deep_view()) =~= named(
                    kept.push(row.deep_view()),
                    all_names,
                    flags,
                ));
            }
        }
        at += 1;
    }
    assert(all_rows.take(at as int) =~= all_rows);
    Ok(out)
}

/// Without rules every candidate is kept.
pub proof fn lemma_no_rules(rows: Seq<Seq<Seq<char>>>)
    ensures
        survivors(rows, Seq::empty(), Seq::empty()) == rows,
{
    lemma_filter_keeps_all(
        rows,
        |values: Seq<Seq<char>>| !excluded(Seq::empty(), Seq::empty(), values),
    );
}

/// In product mode there are as many candidates as the product of the
/// numbers of values of the options that are combined in every way, times
/// the number of positional rows.
pub proof fn lemma_product_rows(lists: Seq<Seq<Seq<char>>>, positional: Seq<Seq<Seq<char>>>)
    ensures
        candidates(lists, positional, false).len() == tuple_count(lists) * aligned(
            positional,
        ).len(),
        positional.len() == 0 ==> candidates(lists, positional, false).len() == tuple_count(lists),
        positional.len() > 0 ==> aligned(positional).len() == longest(positional),
{
    lemma_tuple_count(lists);
    if positional.len() == 0 {
        assert(tuple_count(lists) * 1 == tuple_count(lists)) by (nonlinear_arith);
    }
}

/// In a well-formed matrix the positional options that a command sees give as
/// many rows as each of them has values.
pub proof fn lemma_positional_rows(matrix: MatrixView, command: usize)
    requires
        matrix.wf(),
        zip_part(matrix.options, command).len() > 0,
    ensures
        aligned(values_of(zip_part(matrix.options, command))).len() == matrix.positional_size,
{
    let chosen = zip_part(matrix.options, command);
    let lists = values_of(chosen);
    let sees = |option: OptionView| enters_zip(option, command);
    assert forall|k: int| 0 <= k < lists.len() implies (#[trigger] lists[k]).len()
        == matrix.positional_size by {
        matrix.options.lemma_filter_pred(sees, k);
        matrix.options.lemma_filter_contains_rev(sees, chosen[k]);
        let at = choose|at: int| 0 <= at < matrix.options.len() && matrix.options[at] == chosen[k];
        assert(matrix.options[at].wf());
    }
    assert(lists[0].len() == matrix.positional_size);
    lemma_longest_common(lists, matrix.positional_size);
}

/// Without positional options in sight and without rules, product mode runs a
/// command with as many combinations as the product of the numbers of values
/// of its options that have values.
pub proof fn lemma_product_mode_count(matrix: MatrixView, command: usize)
    requires
        zip_part(matrix.options, command).len() == 0,
    ensures
        combinations_of(matrix, command, false, Seq::empty(), Seq::empty()) matches Ok(found)
            && found.len() == tuple_count(values_of(product_part(matrix.options, command))),
{
    let lists = values_of(product_part(matrix.options, command));
    let positional = values_of(zip_part(matrix.options, command));
    lemma_product_rows(lists, positional);
    lemma_no_rules(candidates(lists, positional, false));
}

/// Lists of which each has either one value or `rows` values can be taken
/// position for position. That gives `rows` rows, and row `i` holds value `i`
/// of a list with `rows` values and the one value of a list with one.
pub proof fn lemma_ordered_rows(lists: Seq<Seq<Seq<char>>>, rows: nat)
    requires
        forall|k: int|
            0 <= k < lists.len() ==> (#[trigger] lists[k]).len() == 1 || lists[k].len() == rows,
        rows == 1 || exists|k: int| 0 <= k < lists.len() && (#[trigger] lists[k]).len() == rows,
    ensures
        ordered_ok(lists),
        ordered_len(lists) == rows,
        candidates(lists, Seq::empty(), true).len() == rows,
        forall|i: int, k: int|
            0 <= i < rows && 0 <= k < lists.len() ==> (#[trigger] candidates(
                lists,
                Seq::empty(),
                true,
            )[i][k]) == if lists[k].len() == 1 {
                lists[k][0]
            } else {
                lists[k][i]
            },
{
    assert(lists + Seq::<Seq<Seq<char>>>::empty() =~= lists);
}

/// Where every option with values that a command sees has either one value
/// or `rows` values, ordered mode without rules runs the command with `rows`
/// combinations.
pub proof fn lemma_ordered_mode_count(matrix: MatrixView, command: usize, rows: nat)
    requires
        ({
            let lists = values_of(product_part(matrix.options, command)) + values_of(
                zip_part(matrix.options, command),
            );
            &&& forall|k: int|
                0 <= k < lists.len() ==> (#[trigger] lists[k]).len() == 1 || lists[k].len()
                    == rows
            &&& rows == 1 || exists|k: int| 0 <= k < lists.len() && (#[trigger] lists[k]).len() == rows
        }),
    ensures
        combinations_of(matrix, command, true, Seq::empty(), Seq::empty()) matches Ok(found)
            && found.len() == rows,
{
    let lists = values_of(product_part(matrix.options, command));
    let positional = values_of(zip_part(matrix.options, command));
    lemma_ordered_rows(lists + positional, rows);
    assert((lists + positional) + Seq::<Seq<Seq<char>>>::empty() =~= lists + positional);
    lemma_no_rules(candidates(lists, positional, true));
}

/// Every combination ends with the flags that the command sees, each without
/// a value, whatever the mode and the rules.
pub proof fn lemma_flags_in_every_combination(
    matrix: MatrixView,
    command: usize,
    ordered: bool,
    filters: Seq<Seq<Seq<char>>>,
    allows: Seq<Seq<Seq<char>>>,
    i: int,
    f: int,
)
    requires
        combinations_of(matrix, command, ordered, filters, allows) is Ok,
        0 <= i < combinations_of(matrix, command, ordered, filters, allows)->Ok_0.len(),
        0 <= f < flag_part(matrix.options, command).len(),
    ensures
        ({
            let found = combinations_of(matrix, command, ordered, filters, allows)->Ok_0;
            let named_options = product_part(matrix.options, command).len() + zip_part(
                matrix.options,
                command,
            ).len();
            &&& found[i].len() == named_options + flag_part(matrix.options, command).len()
            &&& found[i][named_options + f] == (
                flag_part(matrix.options, command)[f].name,
                Seq::<char>::empty(),
            )
        }),
{
}

/// A clone of a vector of vectors has the deep view of the vector cloned.
proof fn lemma_cloned_rows(src: Vec<Vec<String>>, dst: Vec<Vec<String>>)
    requires
        dst.len() == src.len(),
        forall|k: int| 0 <= k < src.len() ==> cloned::<Vec<String>>(#[trigger] src[k], dst[k]),
    ensures
        dst.deep_view() == src.deep_view(),
{
    assert forall|k: int| 0 <= k < src.len() implies dst.deep_view()[k] == src.deep_view()[k] by {
        assert(cloned::<Vec<String>>(src[k], dst[k]));
        if src[k] != dst[k] {
            lemma_cloned_row(src[k], dst[k]);
        }
    }
    assert(dst.deep_view() =~= src.deep_view());
}

} // verus!
