use vstd::prelude::*;
use vstd::arithmetic::div_mod::{lemma_multiply_divide_lt, lemma_mod_pos_bound, lemma_div_pos_is_pos};
use crate::scan::markers;
use crate::combine::{combinations, value_lists};
use crate::render::{render, substitute_from, replace_range, without_marker, lemma_markers_placed, lemma_value_written_in};
use crate::template::expansion;

verus! {

/// The product of the lists' lengths.
pub open spec fn product_of_lengths(lists: Seq<Seq<Seq<u8>>>) -> nat
    decreases lists.len(),
{
    if lists.len() == 0 {
        1
    } else {
        lists[0].len() * product_of_lengths(lists.drop_first())
    }
}

/// There are as many combinations as the product of the lists' lengths.
pub proof fn lemma_combination_count(lists: Seq<Seq<Seq<u8>>>)
    ensures
        combinations(lists).len() == product_of_lengths(lists),
    decreases lists.len(),
{
    if lists.len() > 0 {
        lemma_combination_count(lists.drop_first());
    }
}

/// Each combination picks, for each list, one of that list's values.
pub proof fn lemma_combination_shape(lists: Seq<Seq<Seq<u8>>>, k: int)
    requires
        0 <= k < combinations(lists).len(),
    ensures
        combinations(lists)[k].len() == lists.len(),
        forall|i: int| 0 <= i < lists.len() ==> lists[i].contains(#[trigger] combinations(lists)[k][i]),
    decreases lists.len(),
{
    if lists.len() > 0 {
        let rest = combinations(lists.drop_first());
        let n = rest.len() as int;
        let l0 = lists[0].len() as int;
        assert(n > 0) by {
            if n == 0 {
                assert(l0 * n == 0) by (nonlinear_arith) requires n == 0;
            }
        }
        lemma_multiply_divide_lt(k, n, l0);
        assert(n * l0 == l0 * n) by (nonlinear_arith);
        lemma_div_pos_is_pos(k, n);
        lemma_mod_pos_bound(k, n);
        lemma_combination_shape(lists.drop_first(), k % n);
        let c = combinations(lists)[k];
        assert(c == seq![lists[0][k / n]] + rest[k % n]);
        assert forall|i: int| 0 <= i < lists.len() implies lists[i].contains(#[trigger] c[i]) by {
            if i == 0 {
                assert(lists[0][k / n] == c[0]);
            } else {
                assert(c[i] == rest[k % n][i - 1]);
                assert(lists.drop_first()[i - 1] == lists[i]);
            }
        }
    }
}

/// A template without markers gives exactly one output, equal to the
/// template.
pub proof fn lemma_no_markers_one_output(text: Seq<u8>)
    requires
        markers(text).len() == 0,
    ensures
        expansion(text).len() == 1,
        expansion(text)[0] == text,
{
    let ms = markers(text);
    assert(value_lists(ms) =~= Seq::<Seq<Seq<u8>>>::empty());
    assert(combinations(value_lists(ms)) == seq![Seq::<Seq<u8>>::empty()]);
    assert(substitute_from(text, ms, Seq::empty(), 0) == text);
}

/// A template gives as many outputs as the product of its markers' value
/// counts.
pub proof fn lemma_output_count(text: Seq<u8>)
    ensures
        expansion(text).len() == product_of_lengths(value_lists(markers(text))),
{
    lemma_combination_count(value_lists(markers(text)));
}

/// Where a marker declares a single value, every combination gives that
/// marker that value.
pub proof fn lemma_single_value_everywhere(lists: Seq<Seq<Seq<u8>>>, i: int, v: Seq<u8>, k: int)
    requires
        0 <= i < lists.len(),
        lists[i] == seq![v],
        0 <= k < combinations(lists).len(),
    ensures
        combinations(lists)[k][i] == v,
{
    lemma_combination_shape(lists, k);
    assert(lists[i].contains(combinations(lists)[k][i]));
}

/// Where marker `i` of a template declares the single value `v`, every
/// output is what the template with `v` written in place of that marker
/// gives, with the other markers taking their values as before.
pub proof fn lemma_single_value_round_trip(text: Seq<u8>, i: int, v: Seq<u8>, k: int)
    requires
        0 <= i < markers(text).len(),
        markers(text)[i].values == seq![v],
        0 <= k < expansion(text).len(),
    ensures
        ({
            let ms = markers(text);
            let c = combinations(value_lists(ms))[k];
            &&& c[i] == v
            &&& expansion(text)[k] == render(
                replace_range(text, ms[i].start, ms[i].end, v),
                without_marker(ms, i, v.len() - (ms[i].end - ms[i].start)),
                c.remove(i),
            )
        }),
{
    let ms = markers(text);
    let lists = value_lists(ms);
    lemma_single_value_everywhere(lists, i, v, k);
    lemma_combination_shape(lists, k);
    lemma_markers_placed(text);
    lemma_value_written_in(text, ms, combinations(lists)[k], i);
}

} // verus!
