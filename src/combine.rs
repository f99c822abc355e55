use vstd::prelude::*;
use vstd::arithmetic::div_mod::lemma_fundamental_div_mod_converse;
use crate::scan::{views_of, markers_of, EachBlock, Marker};

verus! {

/// The value lists of a sequence of markers.
pub open spec fn value_lists(ms: Seq<Marker>) -> Seq<Seq<Seq<u8>>> {
    ms.map_values(|m: Marker| m.values)
}

/// Every way to pick one value from each list, in odometer order: position
/// `k` holds value `k / n` of the first list followed by combination `k % n`
/// of the other lists, `n` being how many of those there are. So the first
/// list varies slowest and the last one fastest; with no lists there is one
/// combination, the empty one.
pub open spec fn combinations(lists: Seq<Seq<Seq<u8>>>) -> Seq<Seq<Seq<u8>>>
    decreases lists.len(),
{
    if lists.len() == 0 {
        seq![Seq::empty()]
    } else {
        let rest = combinations(lists.drop_first());
        let n = rest.len() as int;
        Seq::new(lists[0].len() * rest.len(), |k: int| seq![lists[0][k / n]] + rest[k % n])
    }
}

/// The views of a sequence of combinations.
pub open spec fn combination_views(v: Seq<Vec<Vec<u8>>>) -> Seq<Seq<Seq<u8>>> {
    v.map_values(|c: Vec<Vec<u8>>| views_of(c@))
}

fn combinations_from(blocks: &[EachBlock], i: usize) -> (r: Vec<Vec<Vec<u8>>>)
    requires
        i <= blocks@.len(),
    ensures
        combination_views(r@) == combinations(value_lists(markers_of(blocks@)).skip(i as int)),
    decreases blocks@.len() - i,
{
    let ghost lists = value_lists(markers_of(blocks@)).skip(i as int);
    if i == blocks.len() {
        let mut r: Vec<Vec<Vec<u8>>> = Vec::new();
        r.push(Vec::new());
        proof {
            assert(lists.len() == 0);
            assert(views_of(r@[0]@) =~= Seq::<Seq<u8>>::empty());
            assert(combination_views(r@) =~= seq![Seq::<Seq<u8>>::empty()]);
        }
        return r;
    }
    let rest = combinations_from(blocks, i + 1);
    let ghost rest_v = combination_views(rest@);
    let ghost all = combinations(lists);
    let first = &blocks[i].values;
    proof {
        assert(lists.drop_first() =~= value_lists(markers_of(blocks@)).skip(i + 1));
        assert(lists[0] == views_of(first@));
    }
    let n = rest.len();
    let mut result: Vec<Vec<Vec<u8>>> = Vec::new();
    let mut vi: usize = 0;
    while vi < first.len()
        invariant
            0 <= vi <= first@.len(),
            lists.len() > 0,
            lists[0] == views_of(first@),
            rest_v == combinations(lists.drop_first()),
            rest_v == combination_views(rest@),
            n == rest@.len(),
            all == combinations(lists),
            combination_views(result@) == all.take(vi * n),
            vi * n <= all.len(),
        decreases first@.len() - vi,
    {
        let mut j: usize = 0;
        while j < n
            invariant
                0 <= vi < first@.len(),
                0 <= j <= n,
                lists.len() > 0,
                lists[0] == views_of(first@),
                rest_v == combinations(lists.drop_first()),
                rest_v == combination_views(rest@),
                n == rest@.len(),
                all == combinations(lists),
                all.len() == first@.len() * n,
                combination_views(result@) == all.take(vi * n + j),
            decreases n - j,
        {
            let mut c: Vec<Vec<u8>> = Vec::new();
            c.push(first[vi].clone());
            let tail = &rest[j];
            let mut m: usize = 0;
            while m < tail.len()
                invariant
                    0 <= m <= tail@.len(),
                    vi < first@.len(),
                    c@.len() == m + 1,
                    c@[0]@ == first@[vi as int]@,
                    forall|x: int| 1 <= x <= m ==> #[trigger] c@[x]@ == tail@[x - 1]@,
                decreases tail@.len() - m,
            {
                c.push(tail[m].clone());
                m = m + 1;
            }
            let ghost k = vi * n + j;
            proof {
                assert(views_of(c@) =~= seq![views_of(first@)[vi as int]] + views_of(tail@));
                lemma_fundamental_div_mod_converse(k as int, n as int, vi as int, j as int);
                assert(vi * n + j < first@.len() * n) by (nonlinear_arith)
                    requires j < n, vi < first@.len();
                assert(all[k] == seq![lists[0][vi as int]] + rest_v[j as int]);
            }
            let ghost old_result = result@;
            result.push(c);
            proof {
                assert(combination_views(result@) =~= combination_views(old_result).push(views_of(c@)));
                assert(combination_views(result@) =~= all.take(vi * n + j + 1));
            }
            j = j + 1;
        }
        proof {
            assert(vi * n + n == (vi + 1) * n) by (nonlinear_arith);
            assert((vi + 1) * n <= first@.len() * n) by (nonlinear_arith)
                requires vi + 1 <= first@.len();
        }
        vi = vi + 1;
    }
    proof {
        assert(all.take(vi * n) =~= all);
    }
    result
}

/// Every combination of the blocks' values, in odometer order.
pub fn generate_combinations(blocks: &[EachBlock]) -> (r: Vec<Vec<Vec<u8>>>)
    ensures
        combination_views(r@) == combinations(value_lists(markers_of(blocks@))),
{
    let r = combinations_from(blocks, 0);
    proof {
        assert(value_lists(markers_of(blocks@)).skip(0) =~= value_lists(markers_of(blocks@)));
    }
    r
}

} // verus!
