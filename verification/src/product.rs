//! Cartesian products and position-wise zips of lists of values.
//!
//! The functions are generic over the item type. How many rows a result has
//! and how long each row is holds for every item type. Which items the rows
//! hold is stated over the items' deep views, for every item type whose
//! `clone` returns a value with the deep view of the value cloned
//! ([`clone_is_faithful`](crate::sequences::clone_is_faithful)).
use vstd::arithmetic::div_mod::lemma_fundamental_div_mod_converse;
use crate::sequences::{clone_is_faithful, lemma_cloned_row, lemma_pushed_row};
use vstd::prelude::*;

verus! {

/// Every row of `acc`, in order, extended by every item of `items`, in order:
/// row `i` with item `j` stands at index `i * items.len() + j`.
pub open spec fn extend_rows<V>(acc: Seq<Seq<V>>, items: Seq<V>) -> Seq<Seq<V>> {
    Seq::new(
        acc.len() * items.len(),
        |n: int| acc[n / (items.len() as int)].push(items[n % (items.len() as int)]),
    )
}

/// All tuples that take their `k`-th component from `lists[k]`, in
/// lexicographic order of the positions chosen (the first list varies
/// slowest). Of no lists there is exactly one tuple, the empty one.
pub open spec fn tuples<V>(lists: Seq<Seq<V>>) -> Seq<Seq<V>>
    decreases lists.len(),
{
    if lists.len() == 0 {
        seq![Seq::empty()]
    } else {
        extend_rows(tuples(lists.drop_last()), lists.last())
    }
}

/// What [`cartesian_product`] returns: the tuples over `lists`, but nothing at
/// all where there is no list.
pub open spec fn product<V>(lists: Seq<Seq<V>>) -> Seq<Seq<V>> {
    if lists.len() == 0 {
        Seq::empty()
    } else {
        tuples(lists)
    }
}

/// Every row of `left`, in order, followed by every row of `right`, in order:
/// row `i` with row `j` stands at index `i * right.len() + j`.
pub open spec fn cross<V>(left: Seq<Seq<V>>, right: Seq<Seq<V>>) -> Seq<Seq<V>> {
    Seq::new(
        left.len() * right.len(),
        |n: int| left[n / (right.len() as int)] + right[n % (right.len() as int)],
    )
}

/// The product of the lengths of `lists`.
pub open spec fn tuple_count<V>(lists: Seq<Seq<V>>) -> nat
    decreases lists.len(),
{
    if lists.len() == 0 {
        1
    } else {
        tuple_count(lists.drop_last()) * lists.last().len()
    }
}

/// The length of the longest of `lists`, 0 where there is none.
pub open spec fn longest<V>(lists: Seq<Seq<V>>) -> nat
    decreases lists.len(),
{
    if lists.len() == 0 {
        0
    } else {
        let before = longest(lists.drop_last());
        if lists.last().len() > before {
            lists.last().len()
        } else {
            before
        }
    }
}

/// The first `n` position-wise combinations of `lists`: combination `i` takes
/// item `i` of every list that has one, and item 0 of a list that is shorter.
pub open spec fn zipped<V>(lists: Seq<Seq<V>>, n: nat) -> Seq<Seq<V>> {
    Seq::new(
        n,
        |i: int|
            Seq::new(
                lists.len(),
                |k: int|
                    if i < lists[k].len() {
                        lists[k][i]
                    } else {
                        lists[k][0]
                    },
            ),
    )
}

proof fn lemma_row_position(i: int, j: int, width: int)
    requires
        0 <= i,
        0 <= j < width,
    ensures
        (i * width + j) / width == i,
        (i * width + j) % width == j,
{
    lemma_fundamental_div_mod_converse(i * width + j, width, i, j);
}

/// Extends every row of `a` by every item of `b`.
pub fn partial_cartesian<T: Clone + DeepView>(a: Vec<Vec<T>>, b: &[T]) -> (r: Vec<Vec<T>>)
    ensures
        r.len() == a.len() * b.len(),
        forall|n: int| 0 <= n < r.len() ==> (#[trigger] r[n]).len() == a[n / (b.len() as int)].len() + 1,
        clone_is_faithful::<T>() ==> r.deep_view() == extend_rows(a.deep_view(), b.deep_view()),
{
    let ghost want = extend_rows(a.deep_view(), b.deep_view());
    let mut out: Vec<Vec<T>> = Vec::new();
    let mut i: usize = 0;
    while i < a.len()
        invariant
            want == extend_rows(a.deep_view(), b.deep_view()),
            i <= a.len(),
            out.len() == i * b.len(),
            out.len() <= want.len(),
            forall|n: int|
                0 <= n < out.len() ==> (#[trigger] out[n]).len() == a[n / (b.len() as int)].len() + 1,
            clone_is_faithful::<T>() ==> forall|n: int|
                0 <= n < out.len() ==> (#[trigger] out[n]).deep_view() == want[n],
        decreases a.len() - i,
    {
        let mut j: usize = 0;
        while j < b.len()
            invariant
                want == extend_rows(a.deep_view(), b.deep_view()),
                i < a.len(),
                j <= b.len(),
                out.len() == i * b.len() + j,
                out.len() <= want.len(),
                forall|n: int|
                    0 <= n < out.len() ==> (#[trigger] out[n]).len() == a[n / (b.len() as int)].len()
                        + 1,
                clone_is_faithful::<T>() ==> forall|n: int|
                    0 <= n < out.len() ==> (#[trigger] out[n]).deep_view() == want[n],
            decreases b.len() - j,
        {
            let mut row = a[i].clone();
            let item = b[j].clone();
            let ghost copy = row;
            row.push(item);
            proof {
                assert(cloned::<T>(b[j as int], item));
                lemma_pushed_row(copy, row, item);
                lemma_row_position(i as int, j as int, b.len() as int);
                assert((i * b.len() + j) < a.len() * b.len()) by (nonlinear_arith)
                    requires
                        i < a.len(),
                        j < b.len(),
                ;
                if clone_is_faithful::<T>() {
                    lemma_cloned_row(a[i as int], copy);
                    assert(row.deep_view() =~= a[i as int].deep_view().push(
                        b[j as int].deep_view(),
                    ));
                }
                assert(a.deep_view()[i as int] == a[i as int].deep_view());
                assert(b.deep_view()[j as int] == b[j as int].deep_view());
            }
            out.push(row);
            j += 1;
        }
        assert(i * b.len() + b.len() == (i + 1) * b.len()) by (nonlinear_arith);
        assert((i + 1) * b.len() <= a.len() * b.len()) by (nonlinear_arith)
            requires
                i < a.len(),
        ;
        i += 1;
    }
    assert(clone_is_faithful::<T>() ==> out.deep_view() =~= want);
    out
}

/// Joins every row of `left` with every row of `right`.
pub fn cross_join<T: Clone + DeepView>(left: &Vec<Vec<T>>, right: &Vec<Vec<T>>) -> (r: Vec<Vec<T>>)
    ensures
        r.len() == left.len() * right.len(),
        forall|n: int|
            0 <= n < r.len() ==> (#[trigger] r[n]).len() == left[n / (right.len() as int)].len()
                + right[n % (right.len() as int)].len(),
        clone_is_faithful::<T>() ==> r.deep_view() == cross(left.deep_view(), right.deep_view()),
{
    let ghost want = cross(left.deep_view(), right.deep_view());
    let mut out: Vec<Vec<T>> = Vec::new();
    let mut i: usize = 0;
    while i < left.len()
        invariant
            want == cross(left.deep_view(), right.deep_view()),
            i <= left.len(),
            out.len() == i * right.len(),
            out.len() <= want.len(),
            forall|n: int|
                0 <= n < out.len() ==> (#[trigger] out[n]).len() == left[n / (right.len() as int)].len()
                    + right[n % (right.len() as int)].len(),
            clone_is_faithful::<T>() ==> forall|n: int|
                0 <= n < out.len() ==> (#[trigger] out[n]).deep_view() == want[n],
        decreases left.len() - i,
    {
        let mut j: usize = 0;
        while j < right.len()
            invariant
                want == cross(left.deep_view(), right.deep_view()),
                i < left.len(),
                j <= right.len(),
                out.len() == i * right.len() + j,
                out.len() <= want.len(),
                forall|n: int|
                    0 <= n < out.len() ==> (#[trigger] out[n]).len() == left[n / (
                    right.len() as int)].len() + right[n % (right.len() as int)].len(),
                clone_is_faithful::<T>() ==> forall|n: int|
                    0 <= n < out.len() ==> (#[trigger] out[n]).deep_view() == want[n],
            decreases right.len() - j,
        {
            let mut row = left[i].clone();
            proof {
                if clone_is_faithful::<T>() {
                    lemma_cloned_row(left[i as int], row);
                    assert(row.deep_view() =~= left[i as int].deep_view()
                        + right[j as int].deep_view().take(0));
                }
            }
            let tail = &right[j];
            let mut k: usize = 0;
            while k < tail.len()
                invariant
                    k <= tail.len(),
                    row.len() == left[i as int].len() + k,
                    clone_is_faithful::<T>() ==> row.deep_view() == left[i as int].deep_view()
                        + tail.deep_view().take(k as int),
                decreases tail.len() - k,
            {
                let item = tail[k].clone();
                let ghost before = row;
                row.push(item);
                proof {
                    assert(cloned::<T>(tail[k as int], item));
                    lemma_pushed_row(before, row, item);
                    assert(tail.deep_view()[k as int] == tail[k as int].deep_view());
                    if clone_is_faithful::<T>() {
                        assert(row.deep_view() =~= left[i as int].deep_view()
                            + tail.deep_view().take(k + 1));
                    }
                }
                k += 1;
            }
            proof {
                assert(tail.deep_view().take(tail.len() as int) =~= tail.deep_view());
                lemma_row_position(i as int, j as int, right.len() as int);
                assert((i * right.len() + j) < left.len() * right.len()) by (nonlinear_arith)
                    requires
                        i < left.len(),
                        j < right.len(),
                ;
                assert(left.deep_view()[i as int] == left[i as int].deep_view());
                assert(right.deep_view()[j as int] == right[j as int].deep_view());
            }
            out.push(row);
            j += 1;
        }
        assert(i * right.len() + right.len() == (i + 1) * right.len()) by (nonlinear_arith);
        assert((i + 1) * right.len() <= left.len() * right.len()) by (nonlinear_arith)
            requires
                i < left.len(),
        ;
        i += 1;
    }
    assert(clone_is_faithful::<T>() ==> out.deep_view() =~= want);
    out
}

/// Every way of taking one item from each list, the first list varying
/// slowest. Of no lists there is one way, which takes nothing.
pub fn all_tuples<T: Clone + DeepView>(lists: &[Vec<T>]) -> (r: Vec<Vec<T>>)
    ensures
        r.len() == tuple_count(lists.deep_view()),
        forall|n: int| 0 <= n < r.len() ==> (#[trigger] r[n]).len() == lists.len(),
        clone_is_faithful::<T>() ==> r.deep_view() == tuples(lists.deep_view()),
{
    let mut acc: Vec<Vec<T>> = Vec::new();
    let empty: Vec<T> = Vec::new();
    assert(empty.deep_view() =~= Seq::empty());
    acc.push(empty);
    assert(acc.deep_view() =~= seq![Seq::empty()]);
    let mut k: usize = 0;
    while k < lists.len()
        invariant
            k <= lists.len(),
            acc.len() == tuple_count(lists.deep_view().take(k as int)),
            forall|n: int| 0 <= n < acc.len() ==> (#[trigger] acc[n]).len() == k,
            clone_is_faithful::<T>() ==> acc.deep_view() == tuples(lists.deep_view().take(k as int)),
        decreases lists.len() - k,
    {
        let ghost rows = acc.len() as int;
        let ghost width = lists[k as int].len() as int;
        proof {
            let upto = lists.deep_view().take(k + 1);
            assert(upto.drop_last() =~= lists.deep_view().take(k as int));
            assert(upto.last() == lists[k as int].deep_view());
        }
        acc = partial_cartesian(acc, lists[k].as_slice());
        proof {
            assert forall|n: int| 0 <= n < acc.len() implies (#[trigger] acc[n]).len() == k + 1 by {
                lemma_index_split(n, rows, width);
            }
        }
        k += 1;
    }
    assert(lists.deep_view().take(lists.len() as int) =~= lists.deep_view());
    acc
}

/// The Cartesian product of `lists`: every way of taking one item from each
/// list, the first list varying slowest. Of no lists the product is empty.
pub fn cartesian_product<T: Clone + DeepView>(lists: &[Vec<T>]) -> (r: Vec<Vec<T>>)
    ensures
        r.len() == if lists.len() == 0 {
            0
        } else {
            tuple_count(lists.deep_view())
        },
        forall|n: int| 0 <= n < r.len() ==> (#[trigger] r[n]).len() == lists.len(),
        clone_is_faithful::<T>() ==> r.deep_view() == product(lists.deep_view()),
{
    if lists.len() == 0 {
        let none: Vec<Vec<T>> = Vec::new();
        assert(none.deep_view() =~= Seq::empty());
        none
    } else {
        all_tuples(lists)
    }
}

/// The length of the longest of `lists`, 0 where there is none.
pub fn longest_length<T: DeepView>(lists: &[Vec<T>]) -> (r: usize)
    ensures
        r == longest(lists.deep_view()),
{
    let mut best: usize = 0;
    let mut k: usize = 0;
    assert(lists.deep_view().take(0) =~= Seq::empty());
    while k < lists.len()
        invariant
            k <= lists.len(),
            best == longest(lists.deep_view().take(k as int)),
        decreases lists.len() - k,
    {
        proof {
            let upto = lists.deep_view().take(k + 1);
            assert(upto.drop_last() =~= lists.deep_view().take(k as int));
            assert(upto.last() == lists[k as int].deep_view());
        }
        if lists[k].len() > best {
            best = lists[k].len();
        }
        k += 1;
    }
    assert(lists.deep_view().take(lists.len() as int) =~= lists.deep_view());
    best
}

/// Combines the items that stand at the same position: as many combinations as
/// the longest list has items, the `i`-th taking item `i` of every list, or
/// item 0 of a list that has no item `i`. So a list of one item gives that
/// item to every combination.
pub fn ordered_combinations<T: Clone + DeepView>(lists: &[Vec<T>]) -> (r: Vec<Vec<T>>)
    requires
        forall|k: int| 0 <= k < lists.len() ==> (#[trigger] lists[k]).len() > 0,
    ensures
        r.len() == longest(lists.deep_view()),
        forall|n: int| 0 <= n < r.len() ==> (#[trigger] r[n]).len() == lists.len(),
        clone_is_faithful::<T>() ==> r.deep_view() == zipped(
            lists.deep_view(),
            longest(lists.deep_view()),
        ),
{
    zip_lists(lists, longest_length(lists))
}

/// The first `n` position-wise combinations of `lists` (see [`zipped`]).
pub fn zip_lists<T: Clone + DeepView>(lists: &[Vec<T>], n: usize) -> (r: Vec<Vec<T>>)
    requires
        n > 0 ==> forall|k: int| 0 <= k < lists.len() ==> (#[trigger] lists[k]).len() > 0,
    ensures
        r.len() == n,
        forall|m: int| 0 <= m < r.len() ==> (#[trigger] r[m]).len() == lists.len(),
        clone_is_faithful::<T>() ==> r.deep_view() == zipped(lists.deep_view(), n as nat),
{
    let ghost want = zipped(lists.deep_view(), n as nat);
    let mut out: Vec<Vec<T>> = Vec::new();
    let mut i: usize = 0;
    while i < n
        invariant
            want == zipped(lists.deep_view(), n as nat),
            n > 0 ==> forall|k: int| 0 <= k < lists.len() ==> (#[trigger] lists[k]).len() > 0,
            i <= n,
            out.len() == i,
            forall|m: int| 0 <= m < i ==> (#[trigger] out[m]).len() == lists.len(),
            clone_is_faithful::<T>() ==> forall|m: int|
                0 <= m < i ==> (#[trigger] out[m]).deep_view() == want[m],
        decreases n - i,
    {
        let mut row: Vec<T> = Vec::new();
        let mut k: usize = 0;
        while k < lists.len()
            invariant
                want == zipped(lists.deep_view(), n as nat),
                forall|k: int| 0 <= k < lists.len() ==> (#[trigger] lists[k]).len() > 0,
                i < n,
                k <= lists.len(),
                row.len() == k,
                clone_is_faithful::<T>() ==> forall|m: int|
                    0 <= m < k ==> (#[trigger] row[m]).deep_view() == want[i as int][m],
            decreases lists.len() - k,
        {
            let list = &lists[k];
            let at: usize = if i < list.len() { i } else { 0 };
            let item = list[at].clone();
            proof {
                assert(cloned::<T>(list[at as int], item));
                assert(lists.deep_view()[k as int] == list.deep_view());
                assert(list.deep_view()[at as int] == list[at as int].deep_view());
            }
            row.push(item);
            k += 1;
        }
        assert(clone_is_faithful::<T>() ==> row.deep_view() =~= want[i as int]);
        out.push(row);
        i += 1;
    }
    assert(clone_is_faithful::<T>() ==> out.deep_view() =~= want);
    out
}

/// No list is longer than the longest, and where there is a list, one has
/// that length.
pub proof fn lemma_longest_bounds<V>(lists: Seq<Seq<V>>)
    ensures
        forall|k: int| 0 <= k < lists.len() ==> (#[trigger] lists[k]).len() <= longest(lists),
        lists.len() > 0 ==> exists|k: int|
            0 <= k < lists.len() && (#[trigger] lists[k]).len() == longest(lists),
    decreases lists.len(),
{
    if lists.len() > 0 {
        let init = lists.drop_last();
        lemma_longest_bounds(init);
        assert forall|k: int| 0 <= k < lists.len() implies (#[trigger] lists[k]).len() <= longest(
            lists,
        ) by {
            if k < init.len() {
                assert(init[k] == lists[k]);
            }
        }
        if lists.last().len() > longest(init) || init.len() == 0 {
            assert(lists[lists.len() - 1].len() == longest(lists));
        } else {
            let k = choose|k: int| 0 <= k < init.len() && (#[trigger] init[k]).len() == longest(init);
            assert(lists[k] == init[k]);
            assert(lists[k].len() == longest(lists));
        }
    }
}

/// Where every list has either one item or `n` items, and some list has `n`,
/// the longest has `n`: such lists give `n` position-wise combinations.
pub proof fn lemma_longest_common<V>(lists: Seq<Seq<V>>, n: nat)
    requires
        n >= 1,
        forall|k: int| 0 <= k < lists.len() ==> (#[trigger] lists[k]).len() == 1 || lists[k].len() == n,
        exists|k: int| 0 <= k < lists.len() && (#[trigger] lists[k]).len() == n,
    ensures
        longest(lists) == n,
        zipped(lists, longest(lists)).len() == n,
        forall|i: int, k: int|
            0 <= i < n && 0 <= k < lists.len() ==> (#[trigger] zipped(lists, longest(lists))[i][k])
                == if lists[k].len() == 1 {
                lists[k][0]
            } else {
                lists[k][i]
            },
{
    lemma_longest_bounds(lists);
    let some = choose|k: int| 0 <= k < lists.len() && (#[trigger] lists[k]).len() == n;
    let top = choose|k: int| 0 <= k < lists.len() && (#[trigger] lists[k]).len() == longest(lists);
    assert(lists[some].len() <= longest(lists));
    assert(lists[top].len() == 1 || lists[top].len() == n);
}

/// Over lists of one item each there is one tuple: the items in order.
pub proof fn lemma_tuples_of_singles<V>(lists: Seq<Seq<V>>)
    requires
        forall|k: int| 0 <= k < lists.len() ==> (#[trigger] lists[k]).len() == 1,
    ensures
        tuples(lists) == seq![Seq::new(lists.len(), |k: int| lists[k][0])],
    decreases lists.len(),
{
    if lists.len() > 0 {
        let init = lists.drop_last();
        assert forall|k: int| 0 <= k < init.len() implies (#[trigger] init[k]).len() == 1 by {
            assert(init[k] == lists[k]);
        }
        lemma_tuples_of_singles(init);
        let one = Seq::new(init.len(), |k: int| init[k][0]);
        assert(lists[lists.len() - 1].len() == 1);
        assert(tuples(lists).len() == 1) by (nonlinear_arith)
            requires
                tuples(lists).len() == tuples(init).len() * lists.last().len(),
                tuples(init).len() == 1,
                lists.last().len() == 1,
        ;
        assert(tuples(lists)[0] =~= one.push(lists.last()[0]));
        assert(one.push(lists.last()[0]) =~= Seq::new(lists.len(), |k: int| lists[k][0]));
    } else {
        assert(tuples(lists)[0] =~= Seq::new(lists.len(), |k: int| lists[k][0]));
    }
    assert(tuples(lists)[0] == Seq::new(lists.len(), |k: int| lists[k][0]));
    assert(tuples(lists) =~= seq![Seq::new(lists.len(), |k: int| lists[k][0])]);
}

/// There are as many tuples over `lists` as the product of the lists' lengths.
pub proof fn lemma_tuple_count<V>(lists: Seq<Seq<V>>)
    ensures
        tuples(lists).len() == tuple_count(lists),
    decreases lists.len(),
{
    if lists.len() > 0 {
        lemma_tuple_count(lists.drop_last());
    }
}

/// Every tuple over `lists` has one component for each list, taken from that
/// list.
pub proof fn lemma_tuples_sound<V>(lists: Seq<Seq<V>>, n: int)
    requires
        0 <= n < tuples(lists).len(),
    ensures
        tuples(lists)[n].len() == lists.len(),
        forall|k: int| 0 <= k < lists.len() ==> (#[trigger] lists[k]).contains(tuples(lists)[n][k]),
    decreases lists.len(),
{
    if lists.len() > 0 {
        let head = tuples(lists.drop_last());
        let width = lists.last().len() as int;
        assert(width > 0 && 0 <= n / width < head.len() && 0 <= n % width < width) by {
            lemma_index_split(n, head.len() as int, width);
        }
        lemma_tuples_sound(lists.drop_last(), n / width);
        let t = tuples(lists)[n];
        assert(t == head[n / width].push(lists.last()[n % width]));
        assert forall|k: int| 0 <= k < lists.len() implies (#[trigger] lists[k]).contains(t[k]) by {
            if k < lists.len() - 1 {
                assert(lists.drop_last()[k] == lists[k]);
                assert(lists.drop_last()[k].contains(head[n / width][k]));
            } else {
                assert(t[k] == lists.last()[n % width]);
            }
        }
    }
}

/// Every way of taking one item from each list is among the tuples.
pub proof fn lemma_tuples_complete<V>(lists: Seq<Seq<V>>, t: Seq<V>)
    requires
        t.len() == lists.len(),
        forall|k: int| 0 <= k < lists.len() ==> (#[trigger] lists[k]).contains(t[k]),
    ensures
        tuples(lists).contains(t),
    decreases lists.len(),
{
    if lists.len() == 0 {
        assert(t =~= Seq::empty());
        assert(tuples(lists)[0] == t);
    } else {
        let init = lists.drop_last();
        assert forall|k: int| 0 <= k < init.len() implies (#[trigger] init[k]).contains(
            t.drop_last()[k],
        ) by {
            assert(lists[k].contains(t[k]));
        }
        lemma_tuples_complete(init, t.drop_last());
        let head = tuples(init);
        let i = choose|i: int| 0 <= i < head.len() && head[i] == t.drop_last();
        assert(lists[lists.len() - 1].contains(t[lists.len() - 1]));
        let j = choose|j: int| 0 <= j < lists.last().len() && lists.last()[j] == t.last();
        let width = lists.last().len() as int;
        lemma_row_position(i, j, width);
        assert(i * width + j < head.len() * width) by (nonlinear_arith)
            requires
                0 <= i < head.len(),
                0 <= j < width,
        ;
        assert(0 <= i * width + j) by (nonlinear_arith)
            requires
                0 <= i,
                0 <= j,
                0 <= width,
        ;
        assert(tuples(lists)[i * width + j] =~= t);
    }
}

/// An index below `rows * width` splits into a row below `rows` and a column
/// below `width`.
pub proof fn lemma_index_split(n: int, rows: int, width: int)
    requires
        0 <= n < rows * width,
        0 <= rows,
        0 <= width,
    ensures
        width > 0,
        0 <= n / width < rows,
        0 <= n % width < width,
{
    assert(width > 0) by (nonlinear_arith)
        requires
            0 <= n < rows * width,
            0 <= width,
    ;
    vstd::arithmetic::div_mod::lemma_fundamental_div_mod(n, width);
    vstd::arithmetic::div_mod::lemma_mod_bound(n, width);
    assert(0 <= n / width < rows) by (nonlinear_arith)
        requires
            0 <= n < rows * width,
            width > 0,
            n == width * (n / width) + n % width,
            0 <= n % width < width,
    ;
}

} // verus!
