//! Longest increasing subsequences.
use fxhash::FxHashSet;
use vstd::prelude::*;

verus! {

/// The indices in `s` pick an increasing subsequence out of `xs`.
pub open spec fn increasing(xs: Seq<usize>, s: Set<usize>) -> bool {
    &&& s.finite()
    &&& forall|i: usize| #[trigger] s.contains(i) ==> i < xs.len()
    &&& forall|i: usize, j: usize|
        #![trigger s.contains(i), s.contains(j)]
        s.contains(i) && s.contains(j) && i < j ==> xs[i as int] < xs[j as int]
}

/// The indices in `s` pick an increasing subsequence out of `xs`, and no
/// increasing subsequence is longer. Of those that are as long, none stays
/// below it.
#[verifier::opaque]
pub open spec fn longest_increasing(xs: Seq<usize>, s: Set<usize>) -> bool {
    &&& increasing(xs, s)
    &&& forall|r: Set<usize>| #[trigger] increasing(xs, r) ==> r.len() <= s.len()
    &&& forall|r: Set<usize>, i: usize|
        #![trigger increasing(xs, r), s.contains(i)]
        increasing(xs, r) && r.len() == s.len() && s.contains(i) ==> exists|j: usize|
            #[trigger] r.contains(j) && xs[i as int] <= xs[j as int]
}

/// The indices that `longest_increasing_subsequence::lis_with` picks out of `xs`.
pub uninterp spec fn lis_of(xs: Seq<usize>) -> Set<usize>;

/// The indices of the longest increasing subsequence that is made use of.
///
/// They are those of `lis_of`. What is proved of them rests on this
/// definition alone: were they not a longest increasing subsequence, there
/// would be none.
pub open spec fn picked(xs: Seq<usize>) -> Set<usize> {
    if longest_increasing(xs, lis_of(xs)) {
        lis_of(xs)
    } else {
        Set::empty()
    }
}

/// What is picked is increasing.
pub proof fn lemma_picked_increasing(xs: Seq<usize>)
    ensures
        increasing(xs, picked(xs)),
{
    reveal(longest_increasing);
}

pub proof fn lemma_longest(xs: Seq<usize>, s: Set<usize>, r: Set<usize>)
    requires
        longest_increasing(xs, s),
        increasing(xs, r),
    ensures
        increasing(xs, s),
        r.len() <= s.len(),
{
    reveal(longest_increasing);
}

/// Where an increasing subsequence is as long as a longest one, it has an item
/// that is not less than the given one of the longest one.
pub proof fn lemma_least_end(xs: Seq<usize>, s: Set<usize>, r: Set<usize>, i: usize) -> (j: usize)
    requires
        longest_increasing(xs, s),
        increasing(xs, r),
        r.len() == s.len(),
        s.contains(i),
    ensures
        r.contains(j),
        xs[i as int] <= xs[j as int],
{
    reveal(longest_increasing);
    choose|j: usize| #[trigger] r.contains(j) && xs[i as int] <= xs[j as int]
}

/// The order in which a subsequence has to increase.
fn precedes(a: &usize, b: &usize) -> (r: bool)
    ensures
        r == (*a < *b),
{
    *a < *b
}

/// `longest_increasing_subsequence::lis_with`, with `<` for its order and
/// scratch space that is as long as `items` and starts with zero: it puts into
/// `out_seq` the indices of a longest increasing subsequence of `items`. Which
/// one, where there are several, depends on `items` alone. It is one whose last
/// item is least, since the function keeps for every length the least item in
/// which an increasing subsequence of that length can end.
#[verifier::external_body]
pub(crate) fn lis_with(
    items: &[usize],
    out_seq: &mut FxHashSet<usize>,
    predecessors: &mut [usize],
    starts: &mut [usize],
)
    requires
        old(out_seq)@ == Set::<usize>::empty(),
        old(predecessors)@.len() == items@.len(),
        old(starts)@.len() == items@.len(),
        items@.len() > 0 ==> old(starts)@[0] == 0,
    ensures
        final(out_seq)@ == lis_of(items@),
        longest_increasing(items@, final(out_seq)@),
{
    longest_increasing_subsequence::lis_with(
        items,
        out_seq,
        |a: &usize, b: &usize| precedes(a, b),
        predecessors,
        starts,
    );
}

/// The indices of a longest increasing subsequence of `items`.
pub fn longest_increasing_subsequence_of(items: &Vec<usize>) -> (r: FxHashSet<usize>)
    ensures
        r@ == lis_of(items@),
        r@ == picked(items@),
        longest_increasing(items@, r@),
{
    let mut lis: FxHashSet<usize> = FxHashSet::default();
    lis.reserve(items.len());
    let mut predecessors: Vec<usize> = vec![0; items.len()];
    let mut starts: Vec<usize> = vec![0; items.len()];
    lis_with(
        items.as_slice(),
        &mut lis,
        predecessors.as_mut_slice(),
        starts.as_mut_slice(),
    );
    lis
}

} // verus!
