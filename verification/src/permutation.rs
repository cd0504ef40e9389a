//! Random arrangements of `1..=n` and the counting of their inversions.

use rand::seq::SliceRandom;
use vstd::prelude::*;
use vstd::std_specs::cmp::PartialOrdIs;
use vstd::std_specs::cmp::PartialOrdSpec;

verus! {

/// The longest list whose number of index pairs still fits in a `u32`.
pub const MAX_COUNTED_LEN: usize = 92682;

/// Whether the comparison operators of the element type are known to follow its order.
pub open spec fn has_order<T: PartialOrd>() -> bool {
    T::obeys_partial_cmp_spec()
}

/// Whether `a` is strictly greater than `b` in the order of the element type.
pub open spec fn greater<T: PartialOrd>(a: T, b: T) -> bool {
    a.is_gt(&b)
}

/// The inversions among the first `bound` elements: the index pairs, lower
/// index first, whose elements stand in descending order.
pub open spec fn inversion_pairs<T: PartialOrd>(s: Seq<T>, bound: int) -> Set<(int, int)> {
    Set::new(|p: (int, int)| 0 <= p.0 < p.1 < bound && greater(s[p.0], s[p.1]))
}

/// The inversion count of `s`: the number of index pairs `i < j` with `s[i] > s[j]`.
pub open spec fn inversion_count<T: PartialOrd>(s: Seq<T>) -> nat {
    inversion_pairs(s, s.len() as int).len()
}

/// The number of positions `k < j` whose element is greater than the element at `i`.
pub open spec fn greater_before<T: PartialOrd>(s: Seq<T>, i: int, j: int) -> int
    decreases j,
{
    if j <= 0 {
        0
    } else {
        greater_before(s, i, j - 1) + if greater(s[j - 1], s[i]) {
            1int
        } else {
            0int
        }
    }
}

/// The number of pairs `(k, i)` with `k < i < bound` and `s[k] > s[i]`, summed
/// up element by element.
pub open spec fn inversions_upto<T: PartialOrd>(s: Seq<T>, bound: int) -> int
    decreases bound,
{
    if bound <= 0 {
        0
    } else {
        inversions_upto(s, bound - 1) + greater_before(s, bound - 1, bound - 1)
    }
}

/// `s` with its first two elements exchanged.
pub open spec fn swap_first_two<T>(s: Seq<T>) -> Seq<T>
    recommends
        s.len() >= 2,
{
    s.update(0, s[1]).update(1, s[0])
}

/// The list `1, 2, .., n`.
pub open spec fn ascending(n: nat) -> Seq<u32> {
    Seq::new(n, |k: int| (k + 1) as u32)
}

/// Whether `s` holds each of `1..=n` exactly once, in some order.
pub open spec fn is_arrangement(s: Seq<u32>, n: nat) -> bool {
    &&& s.len() == n
    &&& s.no_duplicates()
    &&& forall|k: int| 0 <= k < s.len() ==> 1 <= #[trigger] s[k] <= n
    &&& forall|v: u32| 1 <= v <= n ==> s.contains(v)
}

/// Looking at more of the earlier elements never lowers the count.
pub proof fn lemma_greater_before_grows<T: PartialOrd>(s: Seq<T>, i: int, j: int, k: int)
    requires
        j <= k,
    ensures
        0 <= greater_before(s, i, j) <= greater_before(s, i, k),
    decreases k,
{
    if k > 0 {
        if j < k {
            lemma_greater_before_grows(s, i, j, k - 1);
        } else {
            lemma_greater_before_grows(s, i, j - 1, k - 1);
        }
    }
}

/// A longer prefix never has fewer inversions.
pub proof fn lemma_inversions_grow<T: PartialOrd>(s: Seq<T>, a: int, b: int)
    requires
        a <= b,
    ensures
        0 <= inversions_upto(s, a) <= inversions_upto(s, b),
    decreases b,
{
    if b > 0 {
        lemma_greater_before_grows(s, b - 1, 0, b - 1);
        if a < b {
            lemma_inversions_grow(s, a, b - 1);
        } else {
            lemma_inversions_grow(s, a - 1, b - 1);
        }
    }
}

/// The inversions that the element at `i` forms with the first `j` elements.
pub open spec fn inversion_pairs_at<T: PartialOrd>(s: Seq<T>, i: int, j: int) -> Set<(int, int)> {
    Set::new(|p: (int, int)| p.1 == i && 0 <= p.0 < j && greater(s[p.0], s[i]))
}

/// `greater_before` is the number of inversions that one element forms with
/// the elements looked at.
pub proof fn lemma_greater_before_counts_pairs<T: PartialOrd>(s: Seq<T>, i: int, j: int)
    ensures
        inversion_pairs_at(s, i, j).finite(),
        greater_before(s, i, j) == inversion_pairs_at(s, i, j).len(),
    decreases j,
{
    if j <= 0 {
        assert(inversion_pairs_at(s, i, j) =~= Set::empty());
    } else {
        lemma_greater_before_counts_pairs(s, i, j - 1);
        let earlier = inversion_pairs_at(s, i, j - 1);
        if greater(s[j - 1], s[i]) {
            assert(inversion_pairs_at(s, i, j) =~= earlier.insert((j - 1, i)));
        } else {
            assert(inversion_pairs_at(s, i, j) =~= earlier);
        }
    }
}

/// Summing up element by element counts the inversions: over the whole list
/// the sum is the inversion count.
pub proof fn lemma_inversions_count_pairs<T: PartialOrd>(s: Seq<T>, bound: int)
    ensures
        inversion_pairs(s, bound).finite(),
        inversions_upto(s, bound) == inversion_pairs(s, bound).len(),
        bound == s.len() ==> inversions_upto(s, bound) == inversion_count(s),
    decreases bound,
{
    if bound <= 0 {
        assert(inversion_pairs(s, bound) =~= Set::empty());
    } else {
        lemma_inversions_count_pairs(s, bound - 1);
        lemma_greater_before_counts_pairs(s, bound - 1, bound - 1);
        let earlier = inversion_pairs(s, bound - 1);
        let last = inversion_pairs_at(s, bound - 1, bound - 1);
        assert(inversion_pairs(s, bound) =~= earlier + last);
        assert(earlier.disjoint(last));
        vstd::set_lib::lemma_set_disjoint_lens(earlier, last);
    }
}

/// Whether the inversions of `s` can be counted in a `u32`: the list is
/// short enough whatever the comparisons answer, or the comparisons follow
/// the order of the element type and the count itself fits.
pub open spec fn countable<T: PartialOrd>(s: Seq<T>) -> bool {
    s.len() <= MAX_COUNTED_LEN || (has_order::<T>() && inversion_count(s) <= u32::MAX)
}

/// Counts the inversions of `list`: the index pairs `i < j` with `list[i] > list[j]`.
pub fn reverse_number<T: Ord>(list: &Vec<T>) -> (count: u32)
    requires
        countable(list@),
    ensures
        has_order::<T>() ==> count == inversion_count(list@),
        2 * count <= list@.len() * (list@.len() - 1),
{
    let n = list.len();
    let mut reverse_counter: u32 = 0;
    let mut i: usize = 0;
    while i < n
        invariant
            i <= n,
            n == list@.len(),
            countable(list@),
            has_order::<T>() ==> reverse_counter == inversions_upto(list@, i as int),
            2 * reverse_counter <= i * (i - 1),
        decreases n - i,
    {
        let mut j: usize = 0;
        while j < i
            invariant
                j <= i,
                i < n,
                n == list@.len(),
                countable(list@),
                has_order::<T>() ==> reverse_counter == inversions_upto(list@, i as int)
                    + greater_before(list@, i as int, j as int),
                2 * reverse_counter <= i * (i - 1) + 2 * j,
            decreases i - j,
        {
            if list[j] > list[i] {
                proof {
                    if n <= MAX_COUNTED_LEN {
                        assert(i * (i - 1) <= 92681 * 92680) by (nonlinear_arith)
                            requires
                                0 <= i <= 92681,
                        ;
                    } else {
                        lemma_inversions_count_pairs(list@, n as int);
                        lemma_greater_before_grows(list@, i as int, j + 1, i as int);
                        lemma_inversions_grow(list@, i + 1, n as int);
                    }
                }
                reverse_counter += 1;
            }
            j += 1;
        }
        proof {
            assert(i * (i - 1) + 2 * i == (i + 1) * ((i + 1) - 1)) by (nonlinear_arith);
        }
        i += 1;
    }
    proof {
        lemma_inversions_count_pairs(list@, n as int);
    }
    reverse_counter
}

/// Rearranges `list` in place with the thread's random generator.
///
/// Calls `rand::seq::SliceRandom::shuffle` on the list's slice with the
/// generator that `rand::thread_rng` hands out. It is taken on trust that the
/// shuffle only exchanges elements: the list holds the same values afterwards,
/// each as often as before. Nothing is claimed of their order, which differs
/// from call to call. The generator is seeded by the system when a thread
/// first asks for it, and `rand` panics if the system cannot provide the seed.
#[verifier::external_body]
fn shuffle(list: &mut Vec<u32>)
    ensures
        final(list)@.to_multiset() == old(list)@.to_multiset(),
{
    let mut rng = rand::thread_rng();
    list.as_mut_slice().shuffle(&mut rng);
}

/// A list with the same elements as `1, 2, .., n` holds each of them exactly once.
pub proof fn lemma_rearranged_ascending(s: Seq<u32>, n: nat)
    requires
        n <= u32::MAX,
        s.to_multiset() == ascending(n).to_multiset(),
    ensures
        is_arrangement(s, n),
{
    let a = ascending(n);
    a.to_multiset_ensures();
    s.to_multiset_ensures();
    assert(a.no_duplicates());
    a.lemma_multiset_has_no_duplicates();
    s.lemma_multiset_has_no_duplicates_conv();
    assert forall|k: int| 0 <= k < s.len() implies 1 <= #[trigger] s[k] <= n by {
        assert(s.contains(s[k]));
        assert(s.to_multiset().count(s[k]) > 0);
        assert(a.to_multiset().count(s[k]) > 0);
        assert(a.contains(s[k]));
        let w = choose|w: int| 0 <= w < a.len() && a[w] == s[k];
        assert(a[w] == w + 1);
    }
    assert forall|v: u32| 1 <= v <= n implies s.contains(v) by {
        assert(a[v - 1] == v);
        assert(a.contains(v));
        assert(a.to_multiset().count(v) > 0);
        assert(s.to_multiset().count(v) > 0);
    }
}

/// Returns the integers `1..=nsize` in a random order.
///
/// Whatever order the random generator picks, each of `1..=nsize` stands in
/// the list exactly once.
pub fn generate_shuffled_list(nsize: u32) -> (list: Vec<u32>)
    ensures
        list@.to_multiset() == ascending(nsize as nat).to_multiset(),
        is_arrangement(list@, nsize as nat),
{
    let mut list: Vec<u32> = Vec::new();
    let mut k: u32 = 0;
    while k < nsize
        invariant
            k <= nsize,
            list@ =~= ascending(k as nat),
        decreases nsize - k,
    {
        k += 1;
        list.push(k);
    }
    shuffle(&mut list);
    proof {
        lemma_rearranged_ascending(list@, nsize as nat);
    }
    list
}

/// Elements before position 2 are counted alike before and after the first
/// two elements are exchanged, for every later element.
proof fn lemma_swap_keeps_later_rows<T: PartialOrd>(s: Seq<T>, i: int, j: int)
    requires
        2 <= j <= i < s.len(),
    ensures
        greater_before(swap_first_two(s), i, j) == greater_before(s, i, j),
    decreases j,
{
    let t = swap_first_two(s);
    if j == 2 {
        reveal_with_fuel(greater_before, 3);
        assert(t[0] == s[1] && t[1] == s[0] && t[i] == s[i]);
    } else {
        lemma_swap_keeps_later_rows(s, i, j - 1);
        assert(t[j - 1] == s[j - 1] && t[i] == s[i]);
    }
}

/// What exchanging the first two elements adds to the number of inversions.
pub open spec fn swap_delta<T: PartialOrd>(s: Seq<T>) -> int {
    (if greater(s[1], s[0]) { 1int } else { 0int }) - (if greater(s[0], s[1]) { 1int } else { 0int })
}

proof fn lemma_swap_shifts_prefix<T: PartialOrd>(s: Seq<T>, bound: int)
    requires
        2 <= bound <= s.len(),
    ensures
        inversions_upto(swap_first_two(s), bound) == inversions_upto(s, bound) + swap_delta(s),
    decreases bound,
{
    let t = swap_first_two(s);
    if bound == 2 {
        reveal_with_fuel(inversions_upto, 3);
        reveal_with_fuel(greater_before, 2);
        assert(t[0] == s[1] && t[1] == s[0]);
    } else {
        lemma_swap_shifts_prefix(s, bound - 1);
        lemma_swap_keeps_later_rows(s, bound - 1, bound - 1);
    }
}

/// Exchanging the first two elements of a list changes its inversion count
/// by exactly one, up or down, where one of the two is greater than the other.
pub proof fn lemma_swap_first_two_flips_parity<T: PartialOrd>(s: Seq<T>)
    requires
        s.len() >= 2,
        greater(s[0], s[1]) != greater(s[1], s[0]),
    ensures
        inversion_count(swap_first_two(s)) == inversion_count(s) + swap_delta(s),
        swap_delta(s) == 1 || swap_delta(s) == -1,
        inversion_count(swap_first_two(s)) % 2 != inversion_count(s) % 2,
{
    lemma_swap_shifts_prefix(s, s.len() as int);
    lemma_inversions_count_pairs(s, s.len() as int);
    lemma_inversions_count_pairs(swap_first_two(s), s.len() as int);
}

proof fn lemma_rows_agree<T: PartialOrd, U: PartialOrd>(s: Seq<T>, t: Seq<U>, i: int, j: int)
    requires
        s.len() == t.len(),
        0 <= j <= i < s.len(),
        forall|a: int, b: int|
            0 <= a < s.len() && 0 <= b < s.len() ==> greater(s[a], s[b]) == greater(
                #[trigger] t[a],
                #[trigger] t[b],
            ),
    ensures
        greater_before(s, i, j) == greater_before(t, i, j),
    decreases j,
{
    if j > 0 {
        lemma_rows_agree(s, t, i, j - 1);
        assert(greater(s[j - 1], s[i]) == greater(t[j - 1], t[i]));
    }
}

proof fn lemma_prefixes_agree<T: PartialOrd, U: PartialOrd>(s: Seq<T>, t: Seq<U>, bound: int)
    requires
        s.len() == t.len(),
        0 <= bound <= s.len(),
        forall|a: int, b: int|
            0 <= a < s.len() && 0 <= b < s.len() ==> greater(s[a], s[b]) == greater(
                #[trigger] t[a],
                #[trigger] t[b],
            ),
    ensures
        inversions_upto(s, bound) == inversions_upto(t, bound),
    decreases bound,
{
    if bound > 0 {
        lemma_prefixes_agree(s, t, bound - 1);
        lemma_rows_agree(s, t, bound - 1, bound - 1);
    }
}

/// The inversion count depends only on how the elements compare with each
/// other: two lists whose elements compare alike, position by position, have
/// the same count.
pub proof fn lemma_inversion_count_by_order<T: PartialOrd, U: PartialOrd>(s: Seq<T>, t: Seq<U>)
    requires
        s.len() == t.len(),
        forall|a: int, b: int|
            0 <= a < s.len() && 0 <= b < s.len() ==> greater(s[a], s[b]) == greater(
                #[trigger] t[a],
                #[trigger] t[b],
            ),
    ensures
        inversion_count(s) == inversion_count(t),
{
    lemma_prefixes_agree(s, t, s.len() as int);
    lemma_inversions_count_pairs(s, s.len() as int);
    lemma_inversions_count_pairs(t, t.len() as int);
}

/// Exchanging the first two elements of an arrangement leaves an arrangement.
pub proof fn lemma_swap_keeps_arrangement(s: Seq<u32>, n: nat)
    requires
        is_arrangement(s, n),
        n >= 2,
    ensures
        is_arrangement(swap_first_two(s), n),
{
    let t = swap_first_two(s);
    assert forall|v: u32| 1 <= v <= n implies t.contains(v) by {
        assert(s.contains(v));
        let k = choose|k: int| 0 <= k < s.len() && s[k] == v;
        let moved = if k == 0 { 1 } else if k == 1 { 0 } else { k };
        assert(t[moved] == v);
    }
}

/// Makes the inversion count of `list` even: where it is odd, the first two
/// elements are exchanged, and else the list is left as it is.
pub fn make_even(list: &mut Vec<u32>)
    requires
        old(list)@.len() >= 2,
        countable(old(list)@),
    ensures
        final(list)@ == (if inversion_count(old(list)@) % 2 == 1 {
            swap_first_two(old(list)@)
        } else {
            old(list)@
        }),
        old(list)@[0] != old(list)@[1] ==> inversion_count(final(list)@) % 2 == 0,
{
    if reverse_number(list) % 2 == 1 {
        let temp = list[0];
        list[0] = list[1];
        list[1] = temp;
        proof {
            assert(list@ =~= swap_first_two(old(list)@));
            if old(list)@[0] != old(list)@[1] {
                lemma_swap_first_two_flips_parity(old(list)@);
            }
        }
    }
}

} // verus!
