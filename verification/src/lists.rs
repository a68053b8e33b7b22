//! Facts about lists that the proofs of this library rest on: what joining,
//! filtering and mapping keep.

use vstd::prelude::*;
use vstd::seq_lib::{group_to_multiset_ensures, lemma_no_dup_in_concat};

verus! {

/// What holds of every member of every part holds of every member of the
/// parts joined.
pub proof fn lemma_flatten_all<A>(parts: Seq<Seq<A>>, holds: spec_fn(A) -> bool)
    requires
        forall|i: int, j: int|
            0 <= i < parts.len() && 0 <= j < parts[i].len() ==> holds(#[trigger] parts[i][j]),
    ensures
        forall|k: int| 0 <= k < parts.flatten().len() ==> holds(#[trigger] parts.flatten()[k]),
    decreases parts.len(),
{
    if parts.len() > 0 {
        let rest = parts.drop_last();
        assert(parts =~= rest.push(parts.last()));
        rest.lemma_flatten_push(parts.last());
        assert forall|i: int, j: int|
            0 <= i < rest.len() && 0 <= j < rest[i].len() implies holds(#[trigger] rest[i][j]) by {
            assert(rest[i][j] == parts[i][j]);
        }
        lemma_flatten_all(rest, holds);
        assert forall|k: int| 0 <= k < parts.flatten().len() implies holds(
            #[trigger] parts.flatten()[k],
        ) by {
            if k >= rest.flatten().len() {
                assert(parts.flatten()[k] == parts[parts.len() - 1][k - rest.flatten().len()]);
            } else {
                assert(parts.flatten()[k] == rest.flatten()[k]);
            }
        }
    }
}

/// What one part holds, the parts joined hold.
pub proof fn lemma_flatten_contains<A>(parts: Seq<Seq<A>>, i: int, x: A)
    requires
        0 <= i < parts.len(),
        parts[i].contains(x),
    ensures
        parts.flatten().contains(x),
    decreases parts.len(),
{
    let rest = parts.drop_last();
    assert(parts =~= rest.push(parts.last()));
    rest.lemma_flatten_push(parts.last());
    if i == parts.len() - 1 {
        let j = choose|j: int| 0 <= j < parts[i].len() && parts[i][j] == x;
        assert(parts.flatten()[rest.flatten().len() + j] == x);
    } else {
        lemma_flatten_contains(rest, i, x);
        let k = choose|k: int| 0 <= k < rest.flatten().len() && rest.flatten()[k] == x;
        assert(parts.flatten()[k] == x);
    }
}

/// Parts that hold nothing twice and have nothing in common hold nothing
/// twice when they are joined.
pub proof fn lemma_flatten_distinct<A>(parts: Seq<Seq<A>>)
    requires
        forall|i: int| 0 <= i < parts.len() ==> (#[trigger] parts[i]).no_duplicates(),
        forall|i: int, j: int, a: int, b: int|
            0 <= i < j < parts.len() && 0 <= a < parts[i].len() && 0 <= b < parts[j].len()
                ==> #[trigger] parts[i][a] != #[trigger] parts[j][b],
    ensures
        parts.flatten().no_duplicates(),
    decreases parts.len(),
{
    if parts.len() > 0 {
        let rest = parts.drop_last();
        let last = parts.last();
        assert(parts =~= rest.push(last));
        rest.lemma_flatten_push(last);
        assert forall|i: int| 0 <= i < rest.len() implies (#[trigger] rest[i]).no_duplicates() by {
            assert(rest[i] == parts[i]);
        }
        assert forall|i: int, j: int, a: int, b: int|
            0 <= i < j < rest.len() && 0 <= a < rest[i].len() && 0 <= b < rest[j].len()
                implies #[trigger] rest[i][a] != #[trigger] rest[j][b] by {
            assert(rest[i][a] == parts[i][a] && rest[j][b] == parts[j][b]);
        }
        lemma_flatten_distinct(rest);
        let not_in_last = |x: A| !last.contains(x);
        assert forall|i: int, a: int|
            0 <= i < rest.len() && 0 <= a < rest[i].len() implies not_in_last(
            #[trigger] rest[i][a],
        ) by {
            if last.contains(rest[i][a]) {
                let b = choose|b: int| 0 <= b < last.len() && last[b] == rest[i][a];
                assert(parts[i][a] != parts[parts.len() - 1][b]);
            }
        }
        lemma_flatten_all(rest, not_in_last);
        let joined = rest.flatten();
        assert(parts[parts.len() - 1].no_duplicates());
        assert forall|i: int, j: int| 0 <= i < joined.len() && 0 <= j < last.len() implies joined[i]
            != last[j] by {
            assert(not_in_last(joined[i]));
        }
        lemma_no_dup_in_concat(joined, last);
    }
}

/// A filter lets nothing through twice that came once.
pub proof fn lemma_filter_distinct<A>(s: Seq<A>, test: spec_fn(A) -> bool)
    requires
        s.no_duplicates(),
    ensures
        s.filter(test).no_duplicates(),
    decreases s.len(),
{
    reveal(Seq::filter);
    if s.len() > 0 {
        let rest = s.drop_last();
        lemma_filter_distinct(rest, test);
        let out = s.filter(test);
        let inner = rest.filter(test);
        assert forall|i: int, j: int|
            0 <= i < out.len() && 0 <= j < out.len() && i != j implies out[i] != out[j] by {
            if i < inner.len() && j < inner.len() {
                assert(out[i] == inner[i] && out[j] == inner[j]);
            } else {
                let k = if i < inner.len() {
                    i
                } else {
                    j
                };
                assert(inner.contains(inner[k]));
                rest.lemma_filter_contains_rev(test, inner[k]);
                let m = choose|m: int| 0 <= m < rest.len() && rest[m] == inner[k];
                assert(s[m] == inner[k]);
                assert(s[s.len() - 1] == s.last());
            }
        }
    }
}

/// A filter keeps the order of what it lets through: where no member stands
/// before one of lesser measure, none does afterwards.
pub proof fn lemma_filter_keeps_order<A>(
    s: Seq<A>,
    test: spec_fn(A) -> bool,
    measure: spec_fn(A) -> nat,
)
    requires
        forall|i: int, j: int|
            0 <= i < j < s.len() ==> measure(#[trigger] s[i]) <= measure(#[trigger] s[j]),
    ensures
        forall|i: int, j: int|
            0 <= i < j < s.filter(test).len() ==> measure(#[trigger] s.filter(test)[i])
                <= measure(#[trigger] s.filter(test)[j]),
    decreases s.len(),
{
    reveal(Seq::filter);
    if s.len() > 0 {
        let rest = s.drop_last();
        assert forall|i: int, j: int| 0 <= i < j < rest.len() implies measure(
            #[trigger] rest[i],
        ) <= measure(#[trigger] rest[j]) by {
            assert(rest[i] == s[i] && rest[j] == s[j]);
        }
        lemma_filter_keeps_order(rest, test, measure);
        let out = s.filter(test);
        assert forall|i: int, j: int| 0 <= i < j < out.len() implies measure(#[trigger] out[i])
            <= measure(#[trigger] out[j]) by {
            if j == rest.filter(test).len() {
                assert(out[j] == s.last());
                assert(out[i] == rest.filter(test)[i]);
                assert(rest.filter(test).contains(out[i]));
                rest.lemma_filter_contains_rev(test, out[i]);
                let m = choose|m: int| 0 <= m < rest.len() && rest[m] == out[i];
                assert(s[m] == out[i]);
                assert(s[s.len() - 1] == s.last());
            } else {
                assert(out[i] == rest.filter(test)[i]);
                assert(out[j] == rest.filter(test)[j]);
            }
        }
    }
}

/// Two lists with the same members, each as often, still have the same
/// members after a function is applied to each member.
pub proof fn lemma_map_keeps_members<A, B>(a: Seq<A>, b: Seq<A>, f: spec_fn(A) -> B)
    requires
        a.to_multiset() == b.to_multiset(),
    ensures
        a.map_values(f).to_multiset() == b.map_values(f).to_multiset(),
    decreases a.len(),
{
    broadcast use group_to_multiset_ensures;
    broadcast use vstd::multiset::group_multiset_axioms;

    vstd::seq_lib::to_multiset_len(a);
    vstd::seq_lib::to_multiset_len(b);
    if a.len() == 0 {
        assert(a.map_values(f) =~= b.map_values(f));
    } else {
        let x = a.last();
        let a1 = a.drop_last();
        assert(a =~= a1.push(x));
        assert(a.contains(x));
        assert(b.to_multiset().count(x) > 0);
        assert(b.contains(x));
        let j = choose|j: int| 0 <= j < b.len() && b[j] == x;
        let b1 = b.remove(j);
        assert(a1.to_multiset() =~= a.to_multiset().remove(x));
        assert(b1.to_multiset() =~= b.to_multiset().remove(x));
        lemma_map_keeps_members(a1, b1, f);
        let fa = a.map_values(f);
        let fb = b.map_values(f);
        assert(fa =~= a1.map_values(f).push(f(x)));
        assert(fb.remove(j) =~= b1.map_values(f));
        assert(fb[j] == f(x));
        assert(fb.contains(f(x)));
        assert(fb.remove(j).to_multiset() =~= fb.to_multiset().remove(f(x)));
        assert(fb.to_multiset() =~= b1.map_values(f).to_multiset().insert(f(x)));
        assert(fa.to_multiset() =~= fb.to_multiset());
    }
}

} // verus!
