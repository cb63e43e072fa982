//! What holds of merging tables and of adding up contributions.

use crate::table::{amount_at, fits, merged, names, recorded, share, tallied, Additive};
use vstd::prelude::*;

verus! {

/// Merging the empty table in changes nothing.
pub proof fn lemma_merge_empty<T: Additive>(a: Map<Seq<char>, T::Amount>)
    ensures
        merged::<T>(a, Map::empty()) == a,
{
    let m = merged::<T>(a, Map::empty());
    assert forall|k: Seq<char>| #[trigger] m.contains_key(k) implies m[k] == a[k] by {
        T::lemma_zero_is_neutral(a[k]);
    }
    assert(m =~= a);
}

/// Merging does not depend on which table is merged into which.
pub proof fn lemma_merge_commutative<T: Additive>(
    a: Map<Seq<char>, T::Amount>,
    b: Map<Seq<char>, T::Amount>,
)
    ensures
        merged::<T>(a, b) == merged::<T>(b, a),
{
    let ab = merged::<T>(a, b);
    assert forall|k: Seq<char>| #[trigger] ab.contains_key(k) implies ab[k] == merged::<T>(
        b,
        a,
    )[k] by {
        T::lemma_sum_commutative(amount_at::<T>(a, k), amount_at::<T>(b, k));
    }
    assert(ab =~= merged::<T>(b, a));
}

/// Merging does not depend on how the tables are grouped.
pub proof fn lemma_merge_associative<T: Additive>(
    a: Map<Seq<char>, T::Amount>,
    b: Map<Seq<char>, T::Amount>,
    c: Map<Seq<char>, T::Amount>,
)
    ensures
        merged::<T>(merged::<T>(a, b), c) == merged::<T>(a, merged::<T>(b, c)),
{
    let left = merged::<T>(merged::<T>(a, b), c);
    let right = merged::<T>(a, merged::<T>(b, c));
    assert forall|k: Seq<char>| #[trigger] left.contains_key(k) implies left[k] == right[k] by {
        let x = amount_at::<T>(a, k);
        let y = amount_at::<T>(b, k);
        let z = amount_at::<T>(c, k);
        T::lemma_sum_associative(x, y, z);
        T::lemma_zero_is_neutral(x);
        T::lemma_zero_is_neutral(z);
        T::lemma_zero_is_neutral(T::zero());
        T::lemma_sum_commutative(T::zero(), z);
        T::lemma_sum_commutative(T::zero(), y);
        T::lemma_zero_is_neutral(y);
    }
    assert(left =~= right);
}

/// The step of `merged_all`: merging one more table in.
pub open spec fn merge_step<T: Additive>() -> spec_fn(
    Map<Seq<char>, T::Amount>,
    Map<Seq<char>, T::Amount>,
) -> Map<Seq<char>, T::Amount> {
    |so_far: Map<Seq<char>, T::Amount>, next: Map<Seq<char>, T::Amount>|
        merged::<T>(so_far, next)
}

/// The tables of a list, merged one after the other into the empty table.
pub open spec fn merged_all<T: Additive>(tables: Seq<Map<Seq<char>, T::Amount>>) -> Map<
    Seq<char>,
    T::Amount,
> {
    tables.fold_left(Map::empty(), merge_step::<T>())
}

/// Folding tables together gives the same table in whatever order they are
/// taken: two lists that hold the same tables, each as often in one as in
/// the other, merge to the same table.
pub proof fn lemma_merge_order_irrelevant<T: Additive>(
    first: Seq<Map<Seq<char>, T::Amount>>,
    second: Seq<Map<Seq<char>, T::Amount>>,
)
    requires
        first.to_multiset() == second.to_multiset(),
    ensures
        merged_all::<T>(first) == merged_all::<T>(second),
{
    let step = merge_step::<T>();
    assert forall|x: Map<Seq<char>, T::Amount>, y: Map<Seq<char>, T::Amount>, v: Map<
        Seq<char>,
        T::Amount,
    >| #[trigger] step(step(v, x), y) == step(step(v, y), x) by {
        lemma_merge_associative::<T>(v, x, y);
        lemma_merge_associative::<T>(v, y, x);
        lemma_merge_commutative::<T>(x, y);
    }
    vstd::seq_lib::lemma_fold_left_permutation(first, second, step, Map::empty());
}

/// What fits into a table fits into the empty one, and merged into the
/// empty one it is what it was.
pub proof fn lemma_merge_into_empty<T: Additive>(
    a: Map<Seq<char>, T::Amount>,
    b: Map<Seq<char>, T::Amount>,
)
    ensures
        merged::<T>(Map::empty(), b) == b,
        fits::<T>(a, b) ==> fits::<T>(Map::empty(), b),
{
    let empty = Map::<Seq<char>, T::Amount>::empty();
    lemma_merge_empty::<T>(b);
    lemma_merge_commutative::<T>(b, empty);
    if fits::<T>(a, b) {
        assert forall|k: Seq<char>| #[trigger] b.contains_key(k) implies T::representable(
            T::sum(amount_at::<T>(empty, k), b[k]),
        ) by {
            T::lemma_sum_commutative(amount_at::<T>(a, k), b[k]);
            T::lemma_parts_representable(b[k], amount_at::<T>(a, k));
            T::lemma_sum_commutative(T::zero(), b[k]);
            T::lemma_zero_is_neutral(b[k]);
        }
    }
}

/// Adding one amount under a key is merging the table of that single
/// contribution.
pub proof fn lemma_recorded_is_merge<T: Additive>(
    table: Map<Seq<char>, T::Amount>,
    key: Seq<char>,
    amount: T::Amount,
)
    ensures
        recorded::<T>(table, key, amount) == merged::<T>(
            table,
            tallied::<T>(seq![(key, amount)]),
        ),
        tallied::<T>(seq![(key, amount)]) == Map::<Seq<char>, T::Amount>::empty().insert(
            key,
            amount,
        ),
{
    let items = seq![(key, amount)];
    let single = Map::<Seq<char>, T::Amount>::empty().insert(key, amount);
    assert(items.drop_last() =~= Seq::empty());
    assert(tallied::<T>(items.drop_last()) == Map::<Seq<char>, T::Amount>::empty());
    T::lemma_zero_is_neutral(amount);
    T::lemma_sum_commutative(T::zero(), amount);
    assert(tallied::<T>(items) =~= single);
    let m = merged::<T>(table, single);
    assert forall|k: Seq<char>| #[trigger] m.contains_key(k) implies m[k] == recorded::<T>(
        table,
        key,
        amount,
    )[k] by {
        if k != key {
            T::lemma_zero_is_neutral(table[k]);
        }
    }
    assert(m =~= recorded::<T>(table, key, amount));
}

/// The table of two lists, one after the other, is the merge of their
/// tables.
pub proof fn lemma_tallied_concat<T: Additive>(
    first: Seq<(Seq<char>, T::Amount)>,
    second: Seq<(Seq<char>, T::Amount)>,
)
    ensures
        tallied::<T>(first + second) == merged::<T>(tallied::<T>(first), tallied::<T>(second)),
    decreases second.len(),
{
    if second.len() == 0 {
        assert(first + second =~= first);
        lemma_merge_empty::<T>(tallied::<T>(first));
    } else {
        let whole = first + second;
        let (key, amount) = second.last();
        assert(whole.drop_last() =~= first + second.drop_last());
        assert(whole.last() == second.last());
        lemma_tallied_concat::<T>(first, second.drop_last());
        let a = tallied::<T>(first);
        let b = tallied::<T>(second.drop_last());
        let one = tallied::<T>(seq![(key, amount)]);
        lemma_recorded_is_merge::<T>(merged::<T>(a, b), key, amount);
        lemma_recorded_is_merge::<T>(b, key, amount);
        lemma_merge_associative::<T>(a, b, one);
    }
}

/// Merging `b` and then `c` into `a` stays in range exactly when merging
/// both at once does.
pub proof fn lemma_fits_in_steps<T: Additive>(
    a: Map<Seq<char>, T::Amount>,
    b: Map<Seq<char>, T::Amount>,
    c: Map<Seq<char>, T::Amount>,
)
    ensures
        fits::<T>(a, merged::<T>(b, c)) <==> fits::<T>(a, b) && fits::<T>(merged::<T>(a, b), c),
{
    let bc = merged::<T>(b, c);
    let ab = merged::<T>(a, b);
    assert forall|k: Seq<char>|
        #![trigger bc.contains_key(k)]
        #![trigger b.contains_key(k)]
        #![trigger c.contains_key(k)]
        {
            &&& T::sum(amount_at::<T>(a, k), amount_at::<T>(bc, k)) == T::sum(
                amount_at::<T>(ab, k),
                amount_at::<T>(c, k),
            )
            &&& !c.contains_key(k) ==> amount_at::<T>(bc, k) == amount_at::<T>(b, k)
        } by {
        let x = amount_at::<T>(a, k);
        let y = amount_at::<T>(b, k);
        let z = amount_at::<T>(c, k);
        T::lemma_sum_associative(x, y, z);
        T::lemma_zero_is_neutral(T::zero());
        T::lemma_zero_is_neutral(y);
    }
    if fits::<T>(a, bc) {
        assert forall|k: Seq<char>| #[trigger] b.contains_key(k) implies T::representable(
            T::sum(amount_at::<T>(a, k), b[k]),
        ) by {
            assert(bc.contains_key(k));
            T::lemma_sum_associative(amount_at::<T>(a, k), b[k], amount_at::<T>(c, k));
            T::lemma_parts_representable(
                T::sum(amount_at::<T>(a, k), b[k]),
                amount_at::<T>(c, k),
            );
        }
        assert forall|k: Seq<char>| #[trigger] c.contains_key(k) implies T::representable(
            T::sum(amount_at::<T>(ab, k), c[k]),
        ) by {
            assert(bc.contains_key(k));
        }
    }
    if fits::<T>(a, b) && fits::<T>(ab, c) {
        assert forall|k: Seq<char>| #[trigger] bc.contains_key(k) implies T::representable(
            T::sum(amount_at::<T>(a, k), bc[k]),
        ) by {
            if c.contains_key(k) {
            } else {
                assert(b.contains_key(k));
            }
        }
    }
}

/// Taking in `done` and then `next` is taking in the two lists as one, and
/// stays in range under the same condition.
pub proof fn lemma_tallied_in_steps<T: Additive>(
    a: Map<Seq<char>, T::Amount>,
    done: Seq<(Seq<char>, T::Amount)>,
    next: Seq<(Seq<char>, T::Amount)>,
)
    ensures
        merged::<T>(merged::<T>(a, tallied::<T>(done)), tallied::<T>(next)) == merged::<T>(
            a,
            tallied::<T>(done + next),
        ),
        fits::<T>(a, tallied::<T>(done + next)) <==> fits::<T>(a, tallied::<T>(done)) && fits::<T>(
            merged::<T>(a, tallied::<T>(done)),
            tallied::<T>(next),
        ),
{
    lemma_tallied_concat::<T>(done, next);
    lemma_merge_associative::<T>(a, tallied::<T>(done), tallied::<T>(next));
    lemma_fits_in_steps::<T>(a, tallied::<T>(done), tallied::<T>(next));
}

/// The table of a list of contributions holds the keys that the list
/// names, each with the sum of its amounts.
pub proof fn lemma_tallied_holds_shares<T: Additive>(
    items: Seq<(Seq<char>, T::Amount)>,
    key: Seq<char>,
)
    ensures
        tallied::<T>(items).contains_key(key) <==> names::<T>(items, key),
        amount_at::<T>(tallied::<T>(items), key) == share::<T>(items, key),
    decreases items.len(),
{
    if items.len() > 0 {
        let before = items.drop_last();
        lemma_tallied_holds_shares::<T>(before, key);
        if names::<T>(before, key) {
            let i = choose|i: int| 0 <= i < before.len() && (#[trigger] before[i]).0 == key;
            assert(items[i].0 == key);
        }
        if items.last().0 == key {
            assert(items[items.len() - 1].0 == key);
        }
        if names::<T>(items, key) {
            let i = choose|i: int| 0 <= i < items.len() && (#[trigger] items[i]).0 == key;
            if i < before.len() {
                assert(before[i].0 == key);
            }
        }
    }
}

/// The share of a key in two lists, one after the other, is the sum of its
/// shares in the two.
pub proof fn lemma_share_concat<T: Additive>(
    first: Seq<(Seq<char>, T::Amount)>,
    second: Seq<(Seq<char>, T::Amount)>,
    key: Seq<char>,
)
    ensures
        share::<T>(first + second, key) == T::sum(share::<T>(first, key), share::<T>(second, key)),
    decreases second.len(),
{
    if second.len() == 0 {
        assert(first + second =~= first);
        T::lemma_zero_is_neutral(share::<T>(first, key));
    } else {
        let whole = first + second;
        assert(whole.drop_last() =~= first + second.drop_last());
        assert(whole.last() == second.last());
        lemma_share_concat::<T>(first, second.drop_last(), key);
        T::lemma_sum_associative(
            share::<T>(first, key),
            share::<T>(second.drop_last(), key),
            second.last().1,
        );
    }
}

/// The step of `tallied`, as a function: taking one more contribution in.
pub open spec fn record_step<T: Additive>() -> spec_fn(
    Map<Seq<char>, T::Amount>,
    (Seq<char>, T::Amount),
) -> Map<Seq<char>, T::Amount> {
    |so_far: Map<Seq<char>, T::Amount>, next: (Seq<char>, T::Amount)|
        recorded::<T>(so_far, next.0, next.1)
}

/// The table of a list of contributions does not depend on their order:
/// two lists that hold the same contributions, each as often in one as in
/// the other, add up to the same table.
pub proof fn lemma_tallied_order_irrelevant<T: Additive>(
    first: Seq<(Seq<char>, T::Amount)>,
    second: Seq<(Seq<char>, T::Amount)>,
)
    requires
        first.to_multiset() == second.to_multiset(),
    ensures
        tallied::<T>(first) == tallied::<T>(second),
{
    let step = record_step::<T>();
    assert forall|x: (Seq<char>, T::Amount), y: (Seq<char>, T::Amount), v: Map<
        Seq<char>,
        T::Amount,
    >| #[trigger] step(step(v, x), y) == step(step(v, y), x) by {
        let a = tallied::<T>(seq![x]);
        let b = tallied::<T>(seq![y]);
        lemma_recorded_is_merge::<T>(v, x.0, x.1);
        lemma_recorded_is_merge::<T>(v, y.0, y.1);
        lemma_recorded_is_merge::<T>(merged::<T>(v, a), y.0, y.1);
        lemma_recorded_is_merge::<T>(merged::<T>(v, b), x.0, x.1);
        lemma_merge_associative::<T>(v, a, b);
        lemma_merge_associative::<T>(v, b, a);
        lemma_merge_commutative::<T>(a, b);
    }
    vstd::seq_lib::lemma_fold_left_permutation(first, second, step, Map::empty());
    lemma_tallied_is_fold::<T>(first);
    lemma_tallied_is_fold::<T>(second);
}

proof fn lemma_tallied_is_fold<T: Additive>(items: Seq<(Seq<char>, T::Amount)>)
    ensures
        tallied::<T>(items) == items.fold_left(Map::empty(), record_step::<T>()),
    decreases items.len(),
{
    if items.len() > 0 {
        lemma_tallied_is_fold::<T>(items.drop_last());
    }
}

} // verus!
