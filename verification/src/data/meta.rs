//! Feature and instance metadata carried alongside the feature matrix.

use vstd::prelude::*;

verus! {

/// How a feature column is treated during split finding.
#[derive(Clone, Copy, Debug, PartialEq, Eq, Structural)]
pub enum FeatureType {
    /// Ordered numerical feature; splits are `x < threshold`.
    Numerical,
    /// Unordered categorical feature; splits partition category sets.
    Categorical,
}

impl Default for FeatureType {
    fn default() -> (r: Self)
        ensures
            r == FeatureType::Numerical,
    {
        FeatureType::Numerical
    }
}

/// Ranking group layout: group `g` spans rows
/// `group_ptr[g]..group_ptr[g + 1]`.
#[derive(Clone, Debug)]
pub struct GroupInfo {
    /// Prefix-sum group boundaries over the row index.
    pub group_ptr: Vec<usize>,
}

/// The sum of the first `n` sizes.
pub open spec fn sum_of(sizes: Seq<usize>, n: int) -> int
    decreases n,
{
    if n <= 0 { 0 } else { sum_of(sizes, n - 1) + sizes[n - 1] }
}

/// Prefix sums never fall.
pub proof fn sum_of_is_monotone(sizes: Seq<usize>, a: int, b: int)
    requires
        a <= b,
    ensures
        sum_of(sizes, a) <= sum_of(sizes, b),
    decreases b - a,
{
    if a < b {
        sum_of_is_monotone(sizes, a, b - 1);
    }
}

/// The number of groups that a list of boundaries describes.
pub open spec fn groups_in(ptr: Seq<usize>) -> int {
    if ptr.len() == 0 { 0 } else { ptr.len() - 1 }
}

impl Default for GroupInfo {
    fn default() -> (r: Self)
        ensures
            r.group_ptr@ == Seq::<usize>::empty(),
    {
        GroupInfo { group_ptr: Vec::new() }
    }
}

impl GroupInfo {
    /// Whether the boundaries are those of consecutive groups from row zero.
    pub open spec fn well_formed(&self) -> bool {
        &&& self.group_ptr.len() > 0
        &&& self.group_ptr[0] == 0
        &&& forall|a: int, b: int|
            0 <= a <= b < self.group_ptr.len() ==> self.group_ptr[a] <= self.group_ptr[b]
    }

    /// The layout of groups with the given sizes.
    pub fn from_sizes(sizes: &[usize]) -> (r: Self)
        requires
            sum_of(sizes@, sizes.len() as int) <= usize::MAX,
        ensures
            r.well_formed(),
            r.group_ptr.len() == sizes.len() + 1,
            forall|g: int| 0 <= g <= sizes.len() ==> #[trigger] r.group_ptr[g] == sum_of(sizes@, g),
    {
        let mut group_ptr: Vec<usize> = Vec::new();
        group_ptr.push(0);
        let mut acc: usize = 0;
        let mut i: usize = 0;
        while i < sizes.len()
            invariant
                sum_of(sizes@, sizes.len() as int) <= usize::MAX,
                i <= sizes.len(),
                acc == sum_of(sizes@, i as int),
                group_ptr.len() == i + 1,
                forall|g: int| 0 <= g <= i ==> #[trigger] group_ptr[g] == sum_of(sizes@, g),
            decreases sizes.len() - i,
        {
            proof {
                sum_of_is_monotone(sizes@, i + 1, sizes.len() as int);
            }
            acc = acc + sizes[i];
            group_ptr.push(acc);
            i = i + 1;
        }
        proof {
            assert forall|a: int, b: int| 0 <= a <= b < group_ptr.len() implies group_ptr[a]
                <= group_ptr[b] by {
                sum_of_is_monotone(sizes@, a, b);
            }
        }
        GroupInfo { group_ptr }
    }

    /// Number of groups.
    pub fn num_groups(&self) -> (r: usize)
        ensures
            r == groups_in(self.group_ptr@),
    {
        if self.group_ptr.len() == 0 { 0 } else { self.group_ptr.len() - 1 }
    }

    /// The total number of rows spanned by all groups.
    pub fn num_rows(&self) -> (r: usize)
        ensures
            r == (if self.group_ptr.len() == 0 { 0 } else { self.group_ptr@.last() as int }),
    {
        let n: usize = self.group_ptr.len();
        if n == 0 { 0 } else { self.group_ptr[n - 1] }
    }

    /// The `(start, end)` row ranges, one per group.
    pub fn iter_ranges(&self) -> (r: Vec<(usize, usize)>)
        ensures
            r.len() == groups_in(self.group_ptr@),
            forall|g: int|
                0 <= g < r.len() ==> #[trigger] r[g] == (self.group_ptr[g], self.group_ptr[g + 1]),
    {
        let mut out: Vec<(usize, usize)> = Vec::new();
        let n: usize = self.num_groups();
        let mut g: usize = 0;
        while g < n
            invariant
                n == groups_in(self.group_ptr@),
                g <= n,
                out.len() == g,
                forall|k: int|
                    0 <= k < g ==> #[trigger] out[k] == (self.group_ptr[k], self.group_ptr[k + 1]),
            decreases n - g,
        {
            out.push((self.group_ptr[g], self.group_ptr[g + 1]));
            g = g + 1;
        }
        out
    }
}

/// The groups of given sizes tile the rows: each range has its size, the
/// first starts at row zero, each next one starts where the one before ends,
/// and the last ends at the number of rows.
pub proof fn groups_tile_the_rows(sizes: Seq<usize>, g: int)
    requires
        0 <= g < sizes.len(),
    ensures
        sum_of(sizes, 0) == 0,
        sum_of(sizes, g + 1) == sum_of(sizes, g) + sizes[g],
        sum_of(sizes, g + 1) <= sum_of(sizes, sizes.len() as int),
{
    sum_of_is_monotone(sizes, g + 1, sizes.len() as int);
}

} // verus!
