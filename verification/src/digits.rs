//! Groups of nine digits: what it means to be in range, to be free of
//! duplicates and to be a permutation of 1 to 9, and how the three relate.

use vstd::prelude::*;
use vstd::seq_lib::{group_to_multiset_ensures, seq_to_set_is_finite};
use vstd::set_lib::{lemma_len_subset, lemma_subset_equality};

verus! {

/// Whether every value of `s` is one of the digits 1 to 9.
pub open spec fn all_in_range(s: Seq<u8>) -> bool {
    forall|i: int| 0 <= i < s.len() ==> 1 <= #[trigger] s[i] <= 9
}

/// The digits 1 to 9 in ascending order.
pub open spec fn digits() -> Seq<u8> {
    seq![1u8, 2u8, 3u8, 4u8, 5u8, 6u8, 7u8, 8u8, 9u8]
}

/// Whether `group` is a rearrangement of the digits 1 to 9.
pub open spec fn is_permutation_of_digits(group: Seq<u8>) -> bool {
    group.to_multiset() == digits().to_multiset()
}

/// The set of the digits 1 to 9.
pub open spec fn digit_set() -> Set<u8> {
    Set::new(|d: u8| 1 <= d <= 9)
}

/// There are nine digits.
pub proof fn lemma_digit_set_len()
    ensures
        digit_set().finite(),
        digit_set().len() == 9,
{
    let listed: Set<u8> = set![1u8, 2u8, 3u8, 4u8, 5u8, 6u8, 7u8, 8u8, 9u8];
    assert(listed =~= digit_set());
}

/// Nine in-range values without duplicates leave no digit out.
pub proof fn lemma_distinct_digits_cover(group: Seq<u8>)
    requires
        group.len() == 9,
        all_in_range(group),
        group.no_duplicates(),
    ensures
        forall|d: u8| 1 <= d <= 9 ==> group.contains(d),
{
    // Nine different values taken from a set of nine are the whole set.
    lemma_digit_set_len();
    seq_to_set_is_finite(group);
    group.unique_seq_to_set();
    assert(group.to_set().subset_of(digit_set()));
    lemma_subset_equality(group.to_set(), digit_set());
    assert forall|d: u8| 1 <= d <= 9 implies group.contains(d) by {
        assert(group.to_set().contains(d));
    }
}

/// Nine values among which every digit occurs are in range and free of
/// duplicates.
pub proof fn lemma_covering_digits_distinct(group: Seq<u8>)
    requires
        group.len() == 9,
        forall|d: u8| 1 <= d <= 9 ==> group.contains(d),
    ensures
        all_in_range(group),
        group.no_duplicates(),
{
    // The values include the nine digits, and nine values cannot be more
    // than nine different ones: they are the digits, each once.
    lemma_digit_set_len();
    seq_to_set_is_finite(group);
    assert(digit_set().subset_of(group.to_set()));
    lemma_len_subset(digit_set(), group.to_set());
    group.lemma_cardinality_of_set();
    group.lemma_no_dup_set_cardinality();
    lemma_subset_equality(digit_set(), group.to_set());
    assert forall|i: int| 0 <= i < group.len() implies 1 <= #[trigger] group[i] <= 9 by {
        assert(group.to_set().contains(group[i]));
    }
}

/// A group is a permutation of the digits 1 to 9 exactly when it has nine
/// values, all of them in range and no two of them equal.
pub proof fn lemma_permutation_iff_distinct_digits(group: Seq<u8>)
    ensures
        is_permutation_of_digits(group) <==> (group.len() == 9 && all_in_range(group)
            && group.no_duplicates()),
{
    broadcast use group_to_multiset_ensures;

    let d = digits();
    assert(d.no_duplicates());
    assert forall|x: u8| d.contains(x) <==> 1 <= x <= 9 by {
        if 1 <= x <= 9 {
            assert(d[x - 1] == x);
        }
    }
    d.lemma_multiset_has_no_duplicates();
    if is_permutation_of_digits(group) {
        assert(group.len() == group.to_multiset().len());
        assert forall|i: int| 0 <= i < group.len() implies 1 <= #[trigger] group[i] <= 9 by {
            assert(group.contains(group[i]));
            assert(d.to_multiset().count(group[i]) > 0);
        }
        group.lemma_multiset_has_no_duplicates_conv();
    }
    if group.len() == 9 && all_in_range(group) && group.no_duplicates() {
        lemma_distinct_digits_cover(group);
        group.lemma_multiset_has_no_duplicates();
        assert forall|x: u8| group.to_multiset().count(x) == d.to_multiset().count(x) by {
            if 1 <= x <= 9 {
                assert(group.contains(x) && d.contains(x));
            } else {
                assert(!group.contains(x) && !d.contains(x));
            }
        }
        assert(group.to_multiset() =~= d.to_multiset());
    }
}

/// Rearranging a sequence keeps each of its values: what is in range stays
/// in range.
proof fn lemma_in_range_of_rearrangement(a: Seq<u8>, b: Seq<u8>)
    requires
        a.to_multiset() == b.to_multiset(),
        all_in_range(a),
    ensures
        all_in_range(b),
{
    broadcast use group_to_multiset_ensures;

    assert forall|i: int| 0 <= i < b.len() implies 1 <= #[trigger] b[i] <= 9 by {
        assert(b.contains(b[i]));
        assert(a.to_multiset().count(b[i]) > 0);
        assert(a.contains(b[i]));
    }
}

/// Rearranging a group changes neither whether its values are in range nor
/// whether it is free of duplicates: the order in which a group is handed
/// to the uniqueness check has no bearing on the answer.
pub proof fn lemma_no_duplicates_of_rearrangement(a: Seq<u8>, b: Seq<u8>)
    requires
        a.to_multiset() == b.to_multiset(),
    ensures
        all_in_range(a) == all_in_range(b),
        a.no_duplicates() == b.no_duplicates(),
{
    if all_in_range(a) {
        lemma_in_range_of_rearrangement(a, b);
    }
    if all_in_range(b) {
        lemma_in_range_of_rearrangement(b, a);
    }
    if a.no_duplicates() {
        a.lemma_multiset_has_no_duplicates();
        b.lemma_multiset_has_no_duplicates_conv();
    }
    if b.no_duplicates() {
        b.lemma_multiset_has_no_duplicates();
        a.lemma_multiset_has_no_duplicates_conv();
    }
}

} // verus!
