//! Exact greedy tree construction.
//!
//! For each node every boundary between two values of a feature is weighed,
//! with missing values on either side. Growth is level by level: a whole level
//! is scanned per feature.

use vstd::prelude::*;

use crate::arith::{Calc, Op};
use crate::config::TrainingParams;
use crate::data::dmatrix::{paired, DMatrix};
use crate::data::laws::rows_of_a_column;
use crate::data::meta::FeatureType;
use crate::data::quantile::{places, sortable, values_of};
use crate::number::{Single, Wide, HALF_S};
use crate::objective::pair::GradPair;
use crate::sort::{argsort, stable_order, stable_order_is_unique};
use crate::tree::builder::growth::{
    arranged, boundary, categorical, copies, eval_boundary, eval_categorical, no_split,
    nothing_is_not_found, target_of, valid, Best, BestSplit, Growth, Grown, Target,
};
use crate::tree::builder::laws::{
    at_level, depth_bounds_every_walk, levels_add_one_to_the_depth, rows_stand_at_their_leaves,
    settling_keeps_the_shape, training_rows_follow_the_tree,
};
use crate::tree::constraints::MonotoneConstraints;
use crate::tree::gain::{calc_weight, no_stats, weight, GradStats, RegParams};
use crate::tree::interaction::{allowed, groups_view, InteractionConstraints};
use crate::tree::regtree::{next_node, settles, Node, RegTree};
use crate::tree::sampler::{after_draw_at, draw_at, ColumnSampler, Sampling};

verus! {

/// Value-sorted columns of a [`DMatrix`], built once and reused for every
/// tree. Missing entries are left out.
#[derive(Clone, Debug)]
pub struct SortedColumns {
    n_rows: usize,
    n_cols: usize,
    rows: Vec<Vec<u32>>,
    vals: Vec<Vec<Single>>,
}

/// The positions of a column's pairs in ascending order of their values.
pub open spec fn value_order(pairs: Seq<(u32, Single)>) -> Seq<usize> {
    choose|o: Seq<usize>| stable_order(places(values_of(pairs)), o)
}

/// A column's pairs in ascending order of their values.
pub open spec fn by_value(pairs: Seq<(u32, Single)>) -> Seq<(u32, Single)> {
    arranged(pairs, value_order(pairs))
}

impl SortedColumns {
    /// Number of rows.
    pub closed spec fn height(&self) -> int {
        self.n_rows as int
    }

    /// Number of columns.
    pub closed spec fn width(&self) -> int {
        self.n_cols as int
    }

    /// The pairs of column `c`; none beyond the last column.
    pub closed spec fn pairs(&self, c: int) -> Seq<(u32, Single)> {
        if 0 <= c < self.n_cols {
            paired(self.rows[c]@, self.vals[c]@)
        } else {
            Seq::empty()
        }
    }

    /// There are no pairs beyond the last column.
    pub proof fn no_pairs_beyond(&self, c: int)
        ensures
            !(0 <= c < self.width()) ==> self.pairs(c).len() == 0,
    {
    }

    /// Every column pairs rows of the matrix with values.
    pub closed spec fn well_formed(&self) -> bool {
        &&& self.rows.len() == self.n_cols
        &&& self.vals.len() == self.n_cols
        &&& forall|c: int|
            0 <= c < self.n_cols ==> #[trigger] self.rows[c].len() == self.vals[c].len()
        &&& forall|c: int, k: int|
            0 <= c < self.n_cols && 0 <= k < self.rows[c].len() ==> #[trigger] self.rows[c][k]
                < self.n_rows
    }

    /// The rows of a column are rows of the matrix.
    pub proof fn rows_exist(&self, c: int, k: int)
        requires
            self.well_formed(),
            0 <= c < self.width(),
            0 <= k < self.pairs(c).len(),
        ensures
            self.pairs(c)[k].0 < self.height(),
    {
        assert(self.rows[c][k] < self.n_rows);
    }

    /// The value-sorted columns of a dataset.
    pub fn from_dmatrix(data: &DMatrix) -> (r: Self)
        requires
            data.well_formed(),
            data.readable(),
            data.height() <= 0x1_0000_0000,
            forall|f: int|
                0 <= f < data.width() ==> sortable(
                    values_of(#[trigger] data.column_prefix(f, data.height())),
                ),
        ensures
            r.well_formed(),
            r.height() == data.height(),
            r.width() == data.width(),
            forall|c: int|
                0 <= c < data.width() ==> #[trigger] r.pairs(c) == by_value(
                    data.column_prefix(c, data.height()),
                ),
    {
        let csc = data.to_csc();
        let n_cols: usize = csc.n_cols();
        let mut rows: Vec<Vec<u32>> = Vec::new();
        let mut vals: Vec<Vec<Single>> = Vec::new();
        let mut c: usize = 0;
        while c < n_cols
            invariant
                data.height() <= 0x1_0000_0000,
                csc.well_formed(),
                csc.width() == data.width(),
                n_cols == data.width(),
                forall|d: int|
                    0 <= d < data.width() ==> #[trigger] csc.pairs(d) == data.column_prefix(
                        d,
                        data.height(),
                    ),
                c <= n_cols,
                rows.len() == c,
                vals.len() == c,
                forall|d: int| 0 <= d < c ==> #[trigger] rows[d].len() == vals[d].len(),
                forall|d: int, k: int|
                    0 <= d < c && 0 <= k < rows[d].len() ==> #[trigger] rows[d][k]
                        < data.height(),
                forall|d: int|
                    0 <= d < c ==> paired(#[trigger] rows[d]@, vals[d]@) == by_value(
                        data.column_prefix(d, data.height()),
                    ),
            decreases n_cols - c,
        {
            let (crows, cvals) = csc.column(c);
            let ghost pairs = data.column_prefix(c as int, data.height());
            assert(csc.pairs(c as int) == pairs);
            let n: usize = crows.len();
            let mut keys: Vec<i64> = Vec::new();
            let mut i: usize = 0;
            while i < n
                invariant
                    n == cvals.len(),
                    i <= n,
                    keys.len() == i,
                    forall|k: int| 0 <= k < i ==> #[trigger] keys[k] == cvals[k].place(),
                decreases n - i,
            {
                keys.push(cvals[i].key());
                i = i + 1;
            }
            assert(pairs.len() == n);
            assert forall|k: int| 0 <= k < n implies #[trigger] pairs[k] == (crows[k], cvals[k]) by {
                assert(paired(crows@, cvals@)[k] == (crows[k], cvals[k]));
            }
            assert(keys@ =~= places(values_of(pairs)));
            let order = argsort(keys.as_slice());
            proof {
                stable_order_is_unique(keys@, value_order(pairs), order@);
                rows_of_a_column(data, c as int, data.height());
            }
            let mut srows: Vec<u32> = Vec::new();
            let mut svals: Vec<Single> = Vec::new();
            let mut k: usize = 0;
            while k < n
                invariant
                    n == crows.len(),
                    n == cvals.len(),
                    order.len() == n,
                    forall|a: int| 0 <= a < order.len() ==> 0 <= #[trigger] order[a] < n,
                    pairs.len() == n,
                    forall|j: int| 0 <= j < n ==> #[trigger] pairs[j] == (crows[j], cvals[j]),
                    forall|j: int| 0 <= j < n ==> (#[trigger] pairs[j]).0 < data.height(),
                    k <= n,
                    srows.len() == k,
                    svals.len() == k,
                    forall|j: int|
                        0 <= j < k ==> (#[trigger] srows[j], svals[j]) == pairs[order[j] as int],
                    forall|j: int| 0 <= j < k ==> #[trigger] srows[j] < data.height(),
                decreases n - k,
            {
                let o: usize = order[k];
                assert(pairs[o as int] == (crows[o as int], cvals[o as int]));
                srows.push(crows[o]);
                svals.push(cvals[o]);
                k = k + 1;
            }
            assert(paired(srows@, svals@) =~= by_value(pairs));
            rows.push(srows);
            vals.push(svals);
            c = c + 1;
        }
        SortedColumns { n_rows: csc.n_rows(), n_cols, rows, vals }
    }

    /// Number of rows in the source matrix.
    pub fn n_rows(&self) -> (r: usize)
        ensures
            r == self.height(),
    {
        self.n_rows
    }

    /// Number of columns.
    pub fn n_cols(&self) -> (r: usize)
        ensures
            r == self.width(),
    {
        self.n_cols
    }

    /// The rows and the values of a column, side by side.
    pub fn column(&self, f: usize) -> (r: (&[u32], &[Single]))
        requires
            self.well_formed(),
            f < self.width(),
        ensures
            r.0.len() == r.1.len(),
            self.pairs(f as int) == paired(r.0@, r.1@),
    {
        assert(self.rows[f as int].len() == self.vals[f as int].len());
        (self.rows[f].as_slice(), self.vals[f].as_slice())
    }
}

/// A pass over one column: its pairs, the node that every row stands at, and
/// the gradients of every row.
#[verifier::ext_equal]
pub struct Pass {
    /// The column's pairs in ascending order of their values.
    pub col: Seq<(u32, Single)>,
    /// The node of every row, if it takes part.
    pub node_of: Seq<Option<usize>>,
    /// The gradients of every row.
    pub gp: Seq<GradPair>,
}

/// What a pass knows of one node.
#[verifier::ext_equal]
pub struct Scan {
    /// The best split so far.
    pub best: Best,
    /// Statistics of the node's entries so far.
    pub acc: GradStats,
    /// The node's last value.
    pub last: Single,
    /// Whether the node has had an entry.
    pub has: bool,
}

impl Pass {
    /// Whether entry `j` belongs to node `nid`.
    pub open spec fn belongs(self, j: int, nid: int) -> bool {
        self.node_of[self.col[j].0 as int] matches Some(x) && x == nid
    }

    /// Statistics of the node's entries among the first `n`.
    pub open spec fn present<F: Fn(Op, u64, u64) -> u64>(
        self,
        nid: int,
        n: int,
        calc: &Calc<F>,
    ) -> GradStats
        decreases n,
    {
        if n <= 0 {
            no_stats()
        } else {
            let so_far = self.present(nid, n - 1, calc);
            if self.belongs(n - 1, nid) {
                so_far.joined(self.gp[self.col[n - 1].0 as int].stats(calc), calc)
            } else {
                so_far
            }
        }
    }

    /// Statistics of the node's entries of the column.
    pub open spec fn total<F: Fn(Op, u64, u64) -> u64>(self, nid: int, calc: &Calc<F>) -> GradStats {
        self.present(nid, self.col.len() as int, calc)
    }

    /// What the pass knows of a node after `n` entries: wherever the node's
    /// value changes, the boundary halfway between the two values is weighed.
    pub open spec fn scan<F: Fn(Op, u64, u64) -> u64>(
        self,
        nid: int,
        best: Best,
        target: Target,
        dir: i8,
        f: u32,
        n: int,
        reg: RegParams,
        calc: &Calc<F>,
    ) -> Scan
        decreases n,
    {
        if n <= 0 {
            Scan { best, acc: no_stats(), last: Single { bits: 0 }, has: false }
        } else {
            let so_far = self.scan(nid, best, target, dir, f, n - 1, reg, calc);
            if self.belongs(n - 1, nid) {
                let (row, val) = self.col[n - 1];
                Scan {
                    best: if so_far.has && !val.same(so_far.last) {
                        boundary(
                            so_far.best,
                            target,
                            dir,
                            self.total(nid, calc),
                            so_far.acc,
                            f,
                            calc.times_s(
                                Single { bits: HALF_S },
                                calc.plus_s(so_far.last, val),
                            ),
                            0,
                            reg,
                            calc,
                        )
                    } else {
                        so_far.best
                    },
                    acc: so_far.acc.joined(self.gp[row as int].stats(calc), calc),
                    last: val,
                    has: true,
                }
            } else {
                so_far
            }
        }
    }

    /// The categories of the node's entries among the first `n`, in the order
    /// of their first appearance, and their statistics.
    pub open spec fn table<F: Fn(Op, u64, u64) -> u64>(
        self,
        nid: int,
        n: int,
        calc: &Calc<F>,
    ) -> (Seq<u32>, Seq<GradStats>)
        decreases n,
    {
        if n <= 0 {
            (Seq::empty(), Seq::empty())
        } else {
            let (cats, stats) = self.table(nid, n - 1, calc);
            if self.belongs(n - 1, nid) {
                let (row, val) = self.col[n - 1];
                let c = val.count(u32::MAX as int) as u32;
                let g = self.gp[row as int].stats(calc);
                let i = place_of(cats, c, 0);
                if i < cats.len() {
                    (cats, stats.update(i, stats[i].joined(g, calc)))
                } else {
                    (cats.push(c), stats.push(no_stats().joined(g, calc)))
                }
            } else {
                (cats, stats)
            }
        }
    }

    /// The rows and nodes of the pass exist.
    pub open spec fn fits(self) -> bool {
        &&& self.gp.len() == self.node_of.len()
        &&& forall|j: int|
            0 <= j < self.col.len() ==> (#[trigger] self.col[j]).0 < self.node_of.len()
    }
}

/// The first place from `k` on at which a category is listed, or the length.
pub open spec fn place_of(cats: Seq<u32>, c: u32, k: int) -> int
    decreases cats.len() - k,
{
    if k >= cats.len() {
        cats.len() as int
    } else if cats[k] == c {
        k
    } else {
        place_of(cats, c, k + 1)
    }
}

fn find_category(cats: &Vec<u32>, c: u32) -> (r: usize)
    ensures
        r == place_of(cats@, c, 0),
        r <= cats.len(),
{
    let mut k: usize = 0;
    while k < cats.len()
        invariant
            k <= cats.len(),
            place_of(cats@, c, 0) == place_of(cats@, c, k as int),
        decreases cats.len() - k,
    {
        if cats[k] == c {
            return k;
        }
        k = k + 1;
    }
    k
}

/// Whether the slots of a level are those of its active nodes.
pub open spec fn slots_match(slot_of: Seq<Option<usize>>, active: Seq<usize>) -> bool {
    &&& forall|s: int|
        0 <= s < active.len() ==> (#[trigger] active[s]) < slot_of.len() && slot_of[active[s] as int]
            == Some(s as usize)
    &&& forall|nid: int|
        0 <= nid < slot_of.len() ==> (#[trigger] slot_of[nid] matches Some(s) ==> s < active.len()
            && active[s as int] == nid)
}

/// Whether the nodes that rows stand at have slots or none.
pub open spec fn nodes_exist(node_of: Seq<Option<usize>>, n: int) -> bool {
    forall|r: int|
        0 <= r < node_of.len() ==> (#[trigger] node_of[r] matches Some(nid) ==> nid < n)
}

fn slot_of_row(node_of: &Vec<Option<usize>>, slot_of: &Vec<Option<usize>>, r: usize) -> (s: Option<
    usize,
>)
    requires
        r < node_of.len(),
        nodes_exist(node_of@, slot_of.len() as int),
    ensures
        s == match node_of[r as int] {
            Some(nid) => slot_of[nid as int],
            None => None,
        },
{
    match node_of[r] {
        Some(nid) => {
            assert(node_of@[r as int] == Some(nid));
            slot_of[nid]
        },
        None => None,
    }
}

/// Weigh every boundary of a numeric column for every active node.
fn scan_numeric<F: Fn(Op, u64, u64) -> u64>(
    rows: &[u32],
    vals: &[Single],
    node_of: &Vec<Option<usize>>,
    slot_of: &Vec<Option<usize>>,
    gpair: &[GradPair],
    active: &Vec<usize>,
    targets: &Vec<Target>,
    best: &mut Vec<BestSplit>,
    dir: i8,
    f: u32,
    reg: &RegParams,
    calc: &Calc<F>,
)
    requires
        rows.len() == vals.len(),
        (Pass { col: paired(rows@, vals@), node_of: node_of@, gp: gpair@ }).fits(),
        nodes_exist(node_of@, slot_of.len() as int),
        slots_match(slot_of@, active@),
        targets.len() == active.len(),
        old(best).len() == active.len(),
    ensures
        final(best).len() == active.len(),
        forall|s: int|
            0 <= s < active.len() ==> (#[trigger] final(best)[s])@ == (Pass {
                col: paired(rows@, vals@),
                node_of: node_of@,
                gp: gpair@,
            }).scan(
                active[s] as int,
                old(best)[s]@,
                targets[s],
                dir,
                f,
                rows.len() as int,
                *reg,
                calc,
            ).best,
{
    let ghost pass = Pass { col: paired(rows@, vals@), node_of: node_of@, gp: gpair@ };
    let ghost was = best@;
    let k: usize = active.len();
    let n: usize = rows.len();
    let mut present: Vec<GradStats> = vec![GradStats::default(); k];
    let mut j: usize = 0;
    while j < n
        invariant
            n == rows.len(),
            n == vals.len(),
            pass == (Pass { col: paired(rows@, vals@), node_of: node_of@, gp: gpair@ }),
            pass.fits(),
            nodes_exist(node_of@, slot_of.len() as int),
            slots_match(slot_of@, active@),
            k == active.len(),
            present.len() == k,
            j <= n,
            forall|s: int|
                0 <= s < k ==> #[trigger] present[s] == pass.present(
                    active[s] as int,
                    j as int,
                    calc,
                ),
        decreases n - j,
    {
        assert(pass.col[j as int] == (rows[j as int], vals[j as int]));
        let r: usize = rows[j] as usize;
        let ghost before = present@;
        match slot_of_row(node_of, slot_of, r) {
            Some(s) => {
                assert(slot_of@[node_of@[r as int].unwrap() as int] == Some(s));
                let mut sum = present[s];
                sum.add(gpair[r].to_stats(calc), calc);
                present.set(s, sum);
                assert forall|t: int| 0 <= t < k implies #[trigger] present[t] == pass.present(
                    active[t] as int,
                    j + 1,
                    calc,
                ) by {
                    assert(before[t] == pass.present(active[t] as int, j as int, calc));
                    assert(slot_of@[active@[t] as int] == Some(t as usize));
                    assert(pass.belongs(j as int, active[t] as int) == (t == s));
                }
            },
            None => {
                assert forall|t: int| 0 <= t < k implies #[trigger] present[t] == pass.present(
                    active[t] as int,
                    j + 1,
                    calc,
                ) by {
                    assert(slot_of@[active@[t] as int] == Some(t as usize));
                    assert(!pass.belongs(j as int, active[t] as int));
                }
            },
        }
        j = j + 1;
    }
    let mut acc: Vec<GradStats> = vec![GradStats::default(); k];
    let mut last: Vec<Single> = vec![Single::zero(); k];
    let mut has: Vec<bool> = vec![false; k];
    let mut j: usize = 0;
    while j < n
        invariant
            n == rows.len(),
            n == vals.len(),
            pass == (Pass { col: paired(rows@, vals@), node_of: node_of@, gp: gpair@ }),
            pass.fits(),
            nodes_exist(node_of@, slot_of.len() as int),
            slots_match(slot_of@, active@),
            k == active.len(),
            targets.len() == k,
            best.len() == k,
            present.len() == k,
            acc.len() == k,
            last.len() == k,
            has.len() == k,
            j <= n,
            forall|s: int|
                0 <= s < k ==> #[trigger] present[s] == pass.total(active[s] as int, calc),
            forall|s: int|
                0 <= s < k ==> (Scan {
                    best: (#[trigger] best[s])@,
                    acc: acc[s],
                    last: last[s],
                    has: has[s],
                }) == pass.scan(
                    active[s] as int,
                    was[s]@,
                    targets[s],
                    dir,
                    f,
                    j as int,
                    *reg,
                    calc,
                ),
        decreases n - j,
    {
        assert(pass.col[j as int] == (rows[j as int], vals[j as int]));
        let r: usize = rows[j] as usize;
        let val = vals[j];
        let ghost was_best = best@;
        match slot_of_row(node_of, slot_of, r) {
            Some(s) => {
                assert(slot_of@[node_of@[r as int].unwrap() as int] == Some(s));
                assert((Scan {
                    best: best[s as int]@,
                    acc: acc[s as int],
                    last: last[s as int],
                    has: has[s as int],
                }) == pass.scan(
                    active[s as int] as int,
                    was[s as int]@,
                    targets[s as int],
                    dir,
                    f,
                    j as int,
                    *reg,
                    calc,
                ));
                if has[s] && !val.is_same(last[s]) {
                    let threshold = calc.mul_s(
                        Single { bits: HALF_S },
                        calc.add_s(last[s], val),
                    );
                    eval_boundary(
                        &mut best[s],
                        &targets[s],
                        dir,
                        present[s],
                        acc[s],
                        f,
                        threshold,
                        0,
                        reg,
                        calc,
                    );
                }
                let mut sum = acc[s];
                sum.add(gpair[r].to_stats(calc), calc);
                acc.set(s, sum);
                last.set(s, val);
                has.set(s, true);
                assert forall|t: int| 0 <= t < k implies (Scan {
                    best: (#[trigger] best[t])@,
                    acc: acc[t],
                    last: last[t],
                    has: has[t],
                }) == pass.scan(
                    active[t] as int,
                    was[t]@,
                    targets[t],
                    dir,
                    f,
                    j + 1,
                    *reg,
                    calc,
                ) by {
                    assert(slot_of@[active@[t] as int] == Some(t as usize));
                    assert(pass.belongs(j as int, active[t] as int) == (t == s));
                    if t != s {
                        assert(best[t] == was_best[t]);
                    }
                }
            },
            None => {
                assert forall|t: int| 0 <= t < k implies (Scan {
                    best: (#[trigger] best[t])@,
                    acc: acc[t],
                    last: last[t],
                    has: has[t],
                }) == pass.scan(
                    active[t] as int,
                    was[t]@,
                    targets[t],
                    dir,
                    f,
                    j + 1,
                    *reg,
                    calc,
                ) by {
                    assert(slot_of@[active@[t] as int] == Some(t as usize));
                    assert(!pass.belongs(j as int, active[t] as int));
                }
            },
        }
        j = j + 1;
    }
}

/// Weigh the categories of a column for every active node.
fn scan_categorical<F: Fn(Op, u64, u64) -> u64>(
    rows: &[u32],
    vals: &[Single],
    node_of: &Vec<Option<usize>>,
    slot_of: &Vec<Option<usize>>,
    gpair: &[GradPair],
    active: &Vec<usize>,
    targets: &Vec<Target>,
    best: &mut Vec<BestSplit>,
    dir: i8,
    f: u32,
    reg: &RegParams,
    calc: &Calc<F>,
)
    requires
        rows.len() == vals.len(),
        (Pass { col: paired(rows@, vals@), node_of: node_of@, gp: gpair@ }).fits(),
        nodes_exist(node_of@, slot_of.len() as int),
        slots_match(slot_of@, active@),
        targets.len() == active.len(),
        old(best).len() == active.len(),
    ensures
        final(best).len() == active.len(),
        forall|s: int|
            0 <= s < active.len() ==> {
                let table = (Pass {
                    col: paired(rows@, vals@),
                    node_of: node_of@,
                    gp: gpair@,
                }).table(active[s] as int, rows.len() as int, calc);
                (#[trigger] final(best)[s])@ == categorical(
                    old(best)[s]@,
                    targets[s],
                    dir,
                    f,
                    table.0,
                    table.1,
                    *reg,
                    calc,
                )
            },
{
    let ghost pass = Pass { col: paired(rows@, vals@), node_of: node_of@, gp: gpair@ };
    let ghost was = best@;
    let k: usize = active.len();
    let n: usize = rows.len();
    let mut cats: Vec<Vec<u32>> = Vec::new();
    let mut stats: Vec<Vec<GradStats>> = Vec::new();
    let mut i: usize = 0;
    while i < k
        invariant
            i <= k,
            cats.len() == i,
            stats.len() == i,
            forall|s: int| 0 <= s < i ==> (#[trigger] cats[s])@ == Seq::<u32>::empty(),
            forall|s: int| 0 <= s < i ==> (#[trigger] stats[s])@ == Seq::<GradStats>::empty(),
        decreases k - i,
    {
        cats.push(Vec::new());
        stats.push(Vec::new());
        i = i + 1;
    }
    let mut j: usize = 0;
    while j < n
        invariant
            n == rows.len(),
            n == vals.len(),
            pass == (Pass { col: paired(rows@, vals@), node_of: node_of@, gp: gpair@ }),
            pass.fits(),
            nodes_exist(node_of@, slot_of.len() as int),
            slots_match(slot_of@, active@),
            k == active.len(),
            cats.len() == k,
            stats.len() == k,
            j <= n,
            forall|s: int|
                0 <= s < k ==> (#[trigger] cats[s])@.len() == stats[s]@.len() && (
                    cats[s]@,
                    stats[s]@,
                ) == pass.table(active[s] as int, j as int, calc),
        decreases n - j,
    {
        assert(pass.col[j as int] == (rows[j as int], vals[j as int]));
        let r: usize = rows[j] as usize;
        let ghost was_cats = cats@;
        let ghost was_stats = stats@;
        match slot_of_row(node_of, slot_of, r) {
            Some(s) => {
                assert(slot_of@[node_of@[r as int].unwrap() as int] == Some(s));
                assert(was_cats[s as int]@.len() == was_stats[s as int]@.len());
                let c: u32 = vals[j].to_u32();
                let g = gpair[r].to_stats(calc);
                let p: usize = find_category(&cats[s], c);
                if p < cats[s].len() {
                    let mut sum = stats[s][p];
                    sum.add(g, calc);
                    stats[s].set(p, sum);
                } else {
                    cats[s].push(c);
                    let mut sum = GradStats::default();
                    sum.add(g, calc);
                    stats[s].push(sum);
                }
                assert forall|t: int| 0 <= t < k implies (#[trigger] cats[t])@.len()
                    == stats[t]@.len() && (cats[t]@, stats[t]@) == pass.table(
                    active[t] as int,
                    j + 1,
                    calc,
                ) by {
                    assert(slot_of@[active@[t] as int] == Some(t as usize));
                    assert(pass.belongs(j as int, active[t] as int) == (t == s));
                    assert(was_cats[t]@.len() == was_stats[t]@.len());
                    if t != s {
                        assert(cats[t] == was_cats[t]);
                        assert(stats[t] == was_stats[t]);
                    }
                }
            },
            None => {
                assert forall|t: int| 0 <= t < k implies (#[trigger] cats[t])@.len()
                    == stats[t]@.len() && (cats[t]@, stats[t]@) == pass.table(
                    active[t] as int,
                    j + 1,
                    calc,
                ) by {
                    assert(slot_of@[active@[t] as int] == Some(t as usize));
                    assert(!pass.belongs(j as int, active[t] as int));
                }
            },
        }
        j = j + 1;
    }
    let mut s: usize = 0;
    while s < k
        invariant
            n == rows.len(),
            k == active.len(),
            targets.len() == k,
            best.len() == k,
            cats.len() == k,
            stats.len() == k,
            s <= k,
            forall|t: int|
                0 <= t < k ==> (#[trigger] cats[t])@.len() == stats[t]@.len() && (
                    cats[t]@,
                    stats[t]@,
                ) == pass.table(active[t] as int, n as int, calc),
            forall|t: int| s <= t < k ==> #[trigger] best[t] == was[t],
            forall|t: int|
                0 <= t < s ==> {
                    let table = pass.table(active[t] as int, n as int, calc);
                    (#[trigger] best[t])@ == categorical(
                        was[t]@,
                        targets[t],
                        dir,
                        f,
                        table.0,
                        table.1,
                        *reg,
                        calc,
                    )
                },
        decreases k - s,
    {
        assert(cats[s as int]@.len() == stats[s as int]@.len());
        assert(best[s as int] == was[s as int]);
        eval_categorical(&mut best[s], &targets[s], dir, f, &cats[s], &stats[s], reg, calc);
        s = s + 1;
    }
}

/// What a tree is grown from and under which rules.
#[verifier::ext_equal]
pub struct Setting {
    /// The value-sorted columns.
    pub cols: SortedColumns,
    /// The type of every feature.
    pub types: Seq<FeatureType>,
    /// The gradients of every row.
    pub gp: Seq<GradPair>,
    /// The directions of features.
    pub cons: MonotoneConstraints,
    /// The regularization.
    pub reg: RegParams,
    /// The loss reduction that a split must exceed.
    pub gamma: Wide,
    /// The groups of features that may interact.
    pub groups: Seq<Seq<u32>>,
}

/// The best split of a node after weighing those of the first `n` of the given
/// features that are allowed below the features of its path.
pub open spec fn level_best<F: Fn(Op, u64, u64) -> u64>(
    st: Setting,
    node_of: Seq<Option<usize>>,
    fs: Seq<u32>,
    nid: int,
    path: Seq<u32>,
    target: Target,
    n: int,
    calc: &Calc<F>,
) -> Best
    decreases n,
{
    if n <= 0 {
        no_split()
    } else {
        let so_far = level_best(st, node_of, fs, nid, path, target, n - 1, calc);
        let f = fs[n - 1];
        let dir = st.cons.direction(f as int);
        let pass = Pass { col: st.cols.pairs(f as int), node_of, gp: st.gp };
        let all = pass.col.len() as int;
        if !allowed(st.groups, path, f) {
            so_far
        } else if st.types[f as int] == FeatureType::Categorical {
            let table = pass.table(nid, all, calc);
            categorical(so_far, target, dir, f, table.0, table.1, st.reg, calc)
        } else {
            pass.scan(nid, so_far, target, dir, f, all, st.reg, calc).best
        }
    }
}

/// The weights of the leaves that a split makes.
pub open spec fn new_weights<F: Fn(Op, u64, u64) -> u64>(
    st: Setting,
    b: Best,
    calc: &Calc<F>,
) -> (Single, Single) {
    if st.cons.active() {
        (calc.narrowed(b.w_left), calc.narrowed(b.w_right))
    } else {
        (
            calc.narrowed(weight(b.left, st.reg, calc)),
            calc.narrowed(weight(b.right, st.reg, calc)),
        )
    }
}

/// Whether a node is split.
pub open spec fn is_taken(st: Setting, g: Grown, b: Best) -> bool {
    b.is_valid(st.gamma, st.reg) && g.has_room(b)
}

/// The tree after the first `n` active nodes are split where they should be,
/// and the nodes that are active next.
pub open spec fn applied<F: Fn(Op, u64, u64) -> u64>(
    st: Setting,
    g: Grown,
    active: Seq<usize>,
    bests: Seq<Best>,
    n: int,
    calc: &Calc<F>,
) -> (Grown, Seq<usize>)
    decreases n,
{
    if n <= 0 {
        (g, Seq::empty())
    } else {
        let (so_far, next) = applied(st, g, active, bests, n - 1, calc);
        let b = bests[n - 1];
        if is_taken(st, so_far, b) {
            let (lw, rw) = new_weights(st, b, calc);
            (
                so_far.after_split(
                    active[n - 1] as int,
                    b,
                    st.cons.direction(b.feature as int),
                    lw,
                    rw,
                    calc,
                ),
                next.push(so_far.nodes.len() as usize).push((so_far.nodes.len() + 1) as usize),
            )
        } else {
            (so_far, next)
        }
    }
}

/// Where a row goes on from the node it stands at.
pub open spec fn moved_on(
    nodes: Seq<Node>,
    cats: Seq<u32>,
    at: Option<usize>,
    row: spec_fn(u32) -> Option<Single>,
) -> Option<usize> {
    match at {
        Some(nid) => if nodes[nid as int].leafy() {
            at
        } else {
            Some(next_node(nodes, cats, nid as int, row(nodes[nid as int].split_feature)) as usize)
        },
        None => None,
    }
}

/// The values of a row of a matrix.
pub open spec fn row_of(data: &DMatrix, r: int) -> spec_fn(u32) -> Option<Single> {
    |f: u32| data.cell(r, f as int)
}

/// The state of growth between two levels.
#[verifier::ext_equal]
pub struct Stage {
    /// The tree.
    pub g: Grown,
    /// The node of every row that takes part.
    pub node_of: Seq<Option<usize>>,
    /// The nodes that may be split.
    pub active: Seq<usize>,
    /// The column sampler.
    pub sampling: Sampling,
}

/// The best split of every active node.
pub open spec fn stage_bests<F: Fn(Op, u64, u64) -> u64>(
    st: Setting,
    stage: Stage,
    calc: &Calc<F>,
) -> Seq<Best> {
    let fs = draw_at(stage.sampling, calc);
    Seq::new(
        stage.active.len(),
        |s: int|
            level_best(
                st,
                stage.node_of,
                fs,
                stage.active[s] as int,
                stage.g.paths[stage.active[s] as int],
                target_of(
                    stage.g.stats[stage.active[s] as int],
                    stage.g.bounds[stage.active[s] as int],
                    st.cons.active(),
                    st.reg,
                    calc,
                ),
                fs.len() as int,
                calc,
            ),
    )
}

/// The state after one more level.
pub open spec fn next_stage<F: Fn(Op, u64, u64) -> u64>(
    st: Setting,
    data: &DMatrix,
    stage: Stage,
    calc: &Calc<F>,
) -> Stage {
    let (g, next) = applied(
        st,
        stage.g,
        stage.active,
        stage_bests(st, stage, calc),
        stage.active.len() as int,
        calc,
    );
    Stage {
        g,
        node_of: Seq::new(
            stage.node_of.len(),
            |r: int| moved_on(g.nodes, g.cats, stage.node_of[r], row_of(data, r)),
        ),
        active: next,
        sampling: after_draw_at(stage.sampling, calc),
    }
}

/// The state after at most `levels` more levels.
pub open spec fn last_stage<F: Fn(Op, u64, u64) -> u64>(
    st: Setting,
    data: &DMatrix,
    stage: Stage,
    levels: nat,
    calc: &Calc<F>,
) -> Stage
    decreases levels,
{
    if levels == 0 || stage.active.len() == 0 {
        stage
    } else {
        last_stage(st, data, next_stage(st, data, stage, calc), (levels - 1) as nat, calc)
    }
}

/// Statistics of the first `n` of the given rows together.
pub open spec fn rows_stats<F: Fn(Op, u64, u64) -> u64>(
    gp: Seq<GradPair>,
    rows: Seq<u32>,
    n: int,
    calc: &Calc<F>,
) -> GradStats
    decreases n,
{
    if n <= 0 {
        no_stats()
    } else {
        rows_stats(gp, rows, n - 1, calc).joined(gp[rows[n - 1] as int].stats(calc), calc)
    }
}

/// The state before the first level.
pub open spec fn first_stage<F: Fn(Op, u64, u64) -> u64>(
    gp: Seq<GradPair>,
    rows: Seq<u32>,
    n_rows: int,
    sampling: Sampling,
    calc: &Calc<F>,
) -> Stage {
    Stage {
        g: crate::tree::builder::growth::root_growth(
            rows_stats(gp, rows, rows.len() as int, calc),
            calc,
        ),
        node_of: Seq::new(
            n_rows as nat,
            |r: int| if rows.contains(r as u32) { Some(0usize) } else { None },
        ),
        active: seq![0usize],
        sampling,
    }
}

/// The greatest number of levels.
pub open spec fn level_limit(max_depth: usize) -> nat {
    if max_depth == 0 { usize::MAX as nat } else { max_depth as nat }
}

proof fn scan_keeps_features<F: Fn(Op, u64, u64) -> u64>(
    pass: Pass,
    nid: int,
    best: Best,
    target: Target,
    dir: i8,
    f: u32,
    n: int,
    reg: RegParams,
    calc: &Calc<F>,
)
    ensures
        pass.scan(nid, best, target, dir, f, n, reg, calc).best == best || pass.scan(
            nid,
            best,
            target,
            dir,
            f,
            n,
            reg,
            calc,
        ).best.feature == f,
    decreases n,
{
    if n > 0 {
        scan_keeps_features(pass, nid, best, target, dir, f, n - 1, reg, calc);
    }
}

proof fn sweep_keeps_features<F: Fn(Op, u64, u64) -> u64>(
    best: Best,
    target: Target,
    dir: i8,
    f: u32,
    cats: Seq<u32>,
    stats: Seq<GradStats>,
    n: int,
    reg: RegParams,
    calc: &Calc<F>,
)
    ensures
        ({
            let after = crate::tree::builder::growth::sweep(
                best,
                target,
                dir,
                f,
                cats,
                stats,
                n,
                reg,
                calc,
            );
            after == best || after.feature == f
        }),
    decreases n,
{
    if n > 0 {
        sweep_keeps_features(best, target, dir, f, cats, stats, n - 1, reg, calc);
    }
}

/// A node's best split is by one of the given features that its path allows.
pub proof fn best_feature_is_allowed<F: Fn(Op, u64, u64) -> u64>(
    st: Setting,
    node_of: Seq<Option<usize>>,
    fs: Seq<u32>,
    nid: int,
    path: Seq<u32>,
    target: Target,
    n: int,
    calc: &Calc<F>,
)
    requires
        0 <= n <= fs.len(),
    ensures
        ({
            let b = level_best(st, node_of, fs, nid, path, target, n, calc);
            b == no_split() || (fs.contains(b.feature) && allowed(st.groups, path, b.feature))
        }),
    decreases n,
{
    if n > 0 {
        best_feature_is_allowed(st, node_of, fs, nid, path, target, n - 1, calc);
        let so_far = level_best(st, node_of, fs, nid, path, target, n - 1, calc);
        let f = fs[n - 1];
        let dir = st.cons.direction(f as int);
        let pass = Pass { col: st.cols.pairs(f as int), node_of, gp: st.gp };
        let all = pass.col.len() as int;
        scan_keeps_features(pass, nid, so_far, target, dir, f, all, st.reg, calc);
        let table = pass.table(nid, all, calc);
        let order = crate::tree::builder::growth::ratio_order(table.1, st.reg, calc);
        sweep_keeps_features(
            so_far,
            target,
            dir,
            f,
            arranged(table.0, order),
            arranged(table.1, order),
            table.0.len() - 1,
            st.reg,
            calc,
        );
    }
}

/// Whether every split is on a feature that exists.
pub open spec fn features_exist(nodes: Seq<Node>, width: int) -> bool {
    forall|i: int|
        0 <= i < nodes.len() && !(#[trigger] nodes[i]).leafy() ==> nodes[i].split_feature < width
}

/// Whether every split is on one of the given features.
pub open spec fn splits_among(nodes: Seq<Node>, pool: Seq<u32>) -> bool {
    forall|i: int|
        0 <= i < nodes.len() && !(#[trigger] nodes[i]).leafy() ==> pool.contains(
            nodes[i].split_feature,
        )
}

/// Whether the active nodes are different leaves of the tree.
pub open spec fn active_leaves(nodes: Seq<Node>, active: Seq<usize>) -> bool {
    &&& active.no_duplicates()
    &&& forall|s: int|
        0 <= s < active.len() ==> (#[trigger] active[s]) < nodes.len()
            && nodes[active[s] as int].leafy()
}

/// The exact greedy tree builder.
pub struct ExactTreeBuilder<'a> {
    params: &'a TrainingParams,
    reg: RegParams,
    cons: MonotoneConstraints,
    inter: InteractionConstraints,
}

impl<'a> ExactTreeBuilder<'a> {
    /// The configuration.
    pub closed spec fn config(&self) -> &'a TrainingParams {
        self.params
    }

    /// The directions of features.
    pub closed spec fn constraints(&self) -> MonotoneConstraints {
        self.cons
    }

    /// The groups of features that may interact.
    pub closed spec fn interactions(&self) -> Seq<Seq<u32>> {
        self.inter.groups()
    }

    /// The regularization.
    pub closed spec fn regularization(&self) -> RegParams {
        self.reg
    }

    /// What a tree is grown from and under which rules.
    pub open spec fn setting(
        &self,
        cols: &SortedColumns,
        data: &DMatrix,
        gp: Seq<GradPair>,
    ) -> Setting {
        Setting {
            cols: *cols,
            types: data.types(),
            gp,
            cons: self.constraints(),
            reg: self.regularization(),
            gamma: self.config().gamma,
            groups: self.interactions(),
        }
    }

    /// A builder for a training configuration.
    pub fn new(params: &'a TrainingParams) -> (r: Self)
        ensures
            r.config() == params,
            r.regularization() == RegParams::of(params),
            r.interactions() == groups_view(params.interaction_constraints@),
            r.constraints().directions() == Seq::new(
                params.monotone_constraints.len() as nat,
                |i: int|
                    crate::tree::constraints::sign_of(params.monotone_constraints@[i]),
            ),
    {
        ExactTreeBuilder {
            params,
            reg: RegParams::from_params(params),
            cons: MonotoneConstraints::from_params(params.monotone_constraints.as_slice()),
            inter: InteractionConstraints::from_params(&params.interaction_constraints),
        }
    }

    /// The best split of every active node.
    fn find_splits<F: Fn(Op, u64, u64) -> u64>(
        &self,
        cols: &SortedColumns,
        types: &[FeatureType],
        gpair: &[GradPair],
        node_of: &Vec<Option<usize>>,
        growth: &Growth,
        active: &Vec<usize>,
        fs: &Vec<u32>,
        st: Ghost<Setting>,
        calc: &Calc<F>,
    ) -> (r: Vec<BestSplit>)
        requires
            growth@.well_formed(),
            cols.well_formed(),
            st@.cols == *cols,
            st@.types == types@,
            st@.gp == gpair@,
            st@.cons == self.cons,
            st@.reg == self.reg,
            st@.groups == self.inter.groups(),
            types.len() == cols.width(),
            gpair.len() == cols.height(),
            node_of.len() == cols.height(),
            nodes_exist(node_of@, growth@.nodes.len() as int),
            active_leaves(growth@.nodes, active@),
            forall|i: int| 0 <= i < fs.len() ==> #[trigger] fs[i] < cols.width(),
        ensures
            r.len() == active.len(),
            forall|s: int|
                0 <= s < active.len() ==> (#[trigger] r[s])@ == level_best(
                    st@,
                    node_of@,
                    fs@,
                    active[s] as int,
                    growth@.paths[active[s] as int],
                    target_of(
                        growth@.stats[active[s] as int],
                        growth@.bounds[active[s] as int],
                        self.cons.active(),
                        self.reg,
                        calc,
                    ),
                    fs.len() as int,
                    calc,
                ),
    {
        let constrained = self.cons.is_active();
        let k: usize = active.len();
        let mut slot_of: Vec<Option<usize>> = vec![None; growth.tree.num_nodes()];
        let mut best: Vec<BestSplit> = Vec::new();
        let mut targets: Vec<Target> = Vec::new();
        let mut s: usize = 0;
        while s < k
            invariant
                k == active.len(),
                growth@.well_formed(),
                active_leaves(growth@.nodes, active@),
                constrained == self.cons.active(),
                s <= k,
                slot_of.len() == growth@.nodes.len(),
                best.len() == s,
                targets.len() == s,
                forall|t: int| 0 <= t < s ==> (#[trigger] best[t])@ == no_split(),
                forall|t: int|
                    0 <= t < s ==> #[trigger] targets[t] == target_of(
                        growth@.stats[active[t] as int],
                        growth@.bounds[active[t] as int],
                        constrained,
                        self.reg,
                        calc,
                    ),
                forall|t: int|
                    0 <= t < s ==> slot_of[#[trigger] active[t] as int] == Some(t as usize),
                forall|nid: int|
                    0 <= nid < slot_of.len() ==> (#[trigger] slot_of[nid] matches Some(t) ==> t < s
                        && active[t as int] == nid),
            decreases k - s,
        {
            let nid: usize = active[s];
            let ghost was = slot_of@;
            slot_of.set(nid, Some(s));
            assert forall|t: int| 0 <= t < s + 1 implies slot_of[#[trigger] active[t] as int]
                == Some(t as usize) by {
                if t < s {
                    assert(active@[t] != active@[s as int]);
                    assert(was[active[t] as int] == Some(t as usize));
                }
            }
            best.push(BestSplit::none());
            targets.push(
                Target::new(growth.stats[nid], growth.bounds[nid], constrained, &self.reg, calc),
            );
            s = s + 1;
        }
        assert(slots_match(slot_of@, active@));
        let mut i: usize = 0;
        while i < fs.len()
            invariant
                growth@.well_formed(),
                cols.well_formed(),
                st@.cols == *cols,
                st@.types == types@,
                st@.gp == gpair@,
                st@.cons == self.cons,
                st@.reg == self.reg,
                st@.groups == self.inter.groups(),
                types.len() == cols.width(),
                gpair.len() == cols.height(),
                node_of.len() == cols.height(),
                slot_of.len() == growth@.nodes.len(),
                nodes_exist(node_of@, growth@.nodes.len() as int),
                slots_match(slot_of@, active@),
                active_leaves(growth@.nodes, active@),
                forall|j: int| 0 <= j < fs.len() ==> #[trigger] fs[j] < cols.width(),
                k == active.len(),
                targets.len() == k,
                best.len() == k,
                i <= fs.len(),
                forall|t: int|
                    0 <= t < k ==> (#[trigger] best[t])@ == level_best(
                        st@,
                        node_of@,
                        fs@,
                        active[t] as int,
                        growth@.paths[active[t] as int],
                        targets[t],
                        i as int,
                        calc,
                    ),
            decreases fs.len() - i,
        {
            let f: u32 = fs[i];
            let (rows, vals) = cols.column(f as usize);
            let dir: i8 = self.cons.dir(f as usize);
            let ghost was = best@;
            let ghost pass = Pass { col: paired(rows@, vals@), node_of: node_of@, gp: gpair@ };
            proof {
                assert(pass.col == cols.pairs(f as int));
                assert forall|j: int| 0 <= j < pass.col.len() implies (#[trigger] pass.col[j]).0
                    < pass.node_of.len() by {
                    cols.rows_exist(f as int, j);
                }
                assert(pass.fits());
                assert(pass.col.len() == rows.len());
            }
            let held = if self.inter.is_empty() {
                Vec::new()
            } else {
                copies(&best)
            };
            let categorical_feature = match types[f as usize] {
                FeatureType::Categorical => true,
                FeatureType::Numerical => false,
            };
            if categorical_feature {
                scan_categorical(
                    rows,
                    vals,
                    node_of,
                    &slot_of,
                    gpair,
                    active,
                    &targets,
                    &mut best,
                    dir,
                    f,
                    &self.reg,
                    calc,
                );
            } else {
                scan_numeric(
                    rows,
                    vals,
                    node_of,
                    &slot_of,
                    gpair,
                    active,
                    &targets,
                    &mut best,
                    dir,
                    f,
                    &self.reg,
                    calc,
                );
            }
            let ghost scanned = best@;
            if !self.inter.is_empty() {
                let mut t: usize = 0;
                while t < k
                    invariant
                        growth@.well_formed(),
                        k == active.len(),
                        active_leaves(growth@.nodes, active@),
                        st@.groups == self.inter.groups(),
                        best.len() == k,
                        held.len() == k,
                        was.len() == k,
                        scanned.len() == k,
                        forall|q: int| 0 <= q < k ==> (#[trigger] held[q])@ == was[q]@,
                        t <= k,
                        forall|q: int| t <= q < k ==> #[trigger] best[q] == scanned[q],
                        forall|q: int|
                            0 <= q < t ==> (#[trigger] best[q])@ == (if allowed(
                                st@.groups,
                                growth@.paths[active[q] as int],
                                f,
                            ) {
                                scanned[q]@
                            } else {
                                was[q]@
                            }),
                    decreases k - t,
                {
                    let nid: usize = active[t];
                    assert(growth@.paths[nid as int] == growth.paths[nid as int]@);
                    if !self.inter.allows(&growth.paths[nid], f) {
                        best.set(t, held[t].copy());
                    }
                    t = t + 1;
                }
            }
            assert forall|t: int| 0 <= t < k implies (#[trigger] best[t])@ == level_best(
                st@,
                node_of@,
                fs@,
                active[t] as int,
                growth@.paths[active[t] as int],
                targets[t],
                i + 1,
                calc,
            ) by {
                assert(was[t]@ == level_best(
                    st@,
                    node_of@,
                    fs@,
                    active[t] as int,
                    growth@.paths[active[t] as int],
                    targets[t],
                    i as int,
                    calc,
                ));
            }
            i = i + 1;
        }
        best
    }
}

/// Splitting the active nodes of a level keeps the tree well-formed, changes no
/// other node, and makes new leaves active.
pub proof fn applying_keeps_the_tree<F: Fn(Op, u64, u64) -> u64>(
    st: Setting,
    g: Grown,
    active: Seq<usize>,
    bests: Seq<Best>,
    n: int,
    width: int,
    calc: &Calc<F>,
)
    requires
        g.well_formed(),
        active_leaves(g.nodes, active),
        features_exist(g.nodes, width),
        bests.len() == active.len(),
        0 <= n <= active.len(),
        forall|s: int| 0 <= s < bests.len() ==> (#[trigger] bests[s]).feature < width,
    ensures
        ({
            let (after, next) = applied(st, g, active, bests, n, calc);
            &&& after.well_formed()
            &&& features_exist(after.nodes, width)
            &&& g.nodes.len() <= after.nodes.len()
            &&& g.cats.len() <= after.cats.len()
            &&& active_leaves(after.nodes, next)
            &&& forall|s: int| 0 <= s < next.len() ==> #[trigger] next[s] >= g.nodes.len()
            &&& forall|i: int|
                0 <= i < g.nodes.len() && !(exists|s: int| 0 <= s < n && #[trigger] active[s] == i)
                    ==> #[trigger] after.nodes[i] == g.nodes[i]
            &&& forall|s: int|
                n <= s < active.len() ==> after.nodes[#[trigger] active[s] as int]
                    == g.nodes[active[s] as int]
        }),
    decreases n,
{
    if n > 0 {
        applying_keeps_the_tree(st, g, active, bests, n - 1, width, calc);
        let (so_far, next) = applied(st, g, active, bests, n - 1, calc);
        let b = bests[n - 1];
        let nid = active[n - 1] as int;
        if is_taken(st, so_far, b) {
            let (lw, rw) = new_weights(st, b, calc);
            let dir = st.cons.direction(b.feature as int);
            let (after, more) = applied(st, g, active, bests, n, calc);
            assert(so_far.nodes[active[n - 1] as int] == g.nodes[nid]);
            crate::tree::builder::growth::splits_keep_growth_well_formed(
                so_far,
                nid,
                b,
                dir,
                lw,
                rw,
                calc,
            );
            let m = so_far.nodes.len() as int;
            assert(after.nodes[m].leafy() && after.nodes[m + 1].leafy());
            assert forall|i: int| 0 <= i < m && i != nid implies #[trigger] after.nodes[i]
                == so_far.nodes[i] by {}
            assert(after.nodes[nid] == so_far.split_node(nid, b, calc));
            assert(active_leaves(after.nodes, more)) by {
                assert forall|s: int| 0 <= s < more.len() implies (#[trigger] more[s])
                    < after.nodes.len() && after.nodes[more[s] as int].leafy() by {
                    if s < next.len() {
                        assert(more[s] == next[s]);
                        assert(next[s] >= g.nodes.len());
                    }
                }
                assert forall|s: int, t: int|
                    0 <= s < more.len() && 0 <= t < more.len() && s != t implies more[s]
                    != more[t] by {
                    if s < next.len() {
                        assert(more[s] == next[s] && next[s] < m);
                    }
                    if t < next.len() {
                        assert(more[t] == next[t] && next[t] < m);
                    }
                }
            }
            assert forall|s: int| 0 <= s < more.len() implies #[trigger] more[s] >= g.nodes.len() by {
                if s < next.len() {
                    assert(more[s] == next[s]);
                }
            }
            assert forall|s: int| n <= s < active.len() implies after.nodes[
                #[trigger] active[s] as int
            ] == g.nodes[active[s] as int] by {
                assert(active[s] != active[n - 1]);
                assert(so_far.nodes[active[s] as int] == g.nodes[active[s] as int]);
            }
            assert forall|i: int|
                0 <= i < g.nodes.len() && !(exists|s: int|
                    0 <= s < n && #[trigger] active[s] == i) implies #[trigger] after.nodes[i]
                == g.nodes[i] by {
                assert(active[n - 1] != i);
                assert(so_far.nodes[i] == g.nodes[i]);
            }
            assert forall|i: int|
                0 <= i < after.nodes.len() && !(
                #[trigger] after.nodes[i]).leafy() implies after.nodes[i].split_feature < width by {
                if i != nid && i < m {
                    assert(after.nodes[i] == so_far.nodes[i]);
                }
            }
        } else {
            assert forall|i: int|
                0 <= i < g.nodes.len() && !(exists|s: int|
                    0 <= s < n && #[trigger] active[s] == i) implies #[trigger] so_far.nodes[i]
                == g.nodes[i] by {}
        }
    }
}

/// Splits by given features add no other.
proof fn applying_keeps_to_the_pool<F: Fn(Op, u64, u64) -> u64>(
    st: Setting,
    g: Grown,
    active: Seq<usize>,
    bests: Seq<Best>,
    n: int,
    pool: Seq<u32>,
    calc: &Calc<F>,
)
    requires
        splits_among(g.nodes, pool),
        0 <= n <= active.len(),
        bests.len() == active.len(),
        forall|s: int| 0 <= s < active.len() ==> (#[trigger] active[s]) < g.nodes.len(),
        forall|s: int|
            0 <= s < bests.len() && (#[trigger] bests[s]).is_found() ==> pool.contains(
                bests[s].feature,
            ),
    ensures
        splits_among(applied(st, g, active, bests, n, calc).0.nodes, pool),
        applied(st, g, active, bests, n, calc).0.nodes.len() >= g.nodes.len(),
    decreases n,
{
    if n > 0 {
        applying_keeps_to_the_pool(st, g, active, bests, n - 1, pool, calc);
        let so_far = applied(st, g, active, bests, n - 1, calc).0;
        let after = applied(st, g, active, bests, n, calc).0;
        let b = bests[n - 1];
        let nid = active[n - 1] as int;
        if is_taken(st, so_far, b) {
            let m = so_far.nodes.len() as int;
            assert forall|i: int| 0 <= i < after.nodes.len() && !(
            #[trigger] after.nodes[i]).leafy() implies pool.contains(
                after.nodes[i].split_feature,
            ) by {
                if i == nid {
                    assert(after.nodes[i].split_feature == b.feature);
                } else if i < m {
                    assert(after.nodes[i] == so_far.nodes[i]);
                }
            }
        }
    }
}

impl<'a> ExactTreeBuilder<'a> {
    /// Split the active nodes where they should be. Gives the nodes that are
    /// active next.
    fn apply_splits<F: Fn(Op, u64, u64) -> u64>(
        &self,
        growth: &mut Growth,
        active: &Vec<usize>,
        best: &Vec<BestSplit>,
        st: Ghost<Setting>,
        width: Ghost<int>,
        calc: &Calc<F>,
    ) -> (next: Vec<usize>)
        requires
            old(growth)@.well_formed(),
            active_leaves(old(growth)@.nodes, active@),
            features_exist(old(growth)@.nodes, width@),
            best.len() == active.len(),
            st@.cons == self.cons,
            st@.reg == self.reg,
            st@.gamma == self.params.gamma,
            forall|s: int| 0 <= s < best.len() ==> (#[trigger] best[s])@.feature < width@,
        ensures
            (final(growth)@, next@) == applied(
                st@,
                old(growth)@,
                active@,
                Seq::new(best@.len(), |s: int| best[s]@),
                active.len() as int,
                calc,
            ),
            final(growth)@.well_formed(),
            features_exist(final(growth)@.nodes, width@),
            active_leaves(final(growth)@.nodes, next@),
    {
        let ghost g = growth@;
        let ghost bests = Seq::new(best@.len(), |s: int| best[s]@);
        let constrained = self.cons.is_active();
        let mut next: Vec<usize> = Vec::new();
        let mut i: usize = 0;
        while i < active.len()
            invariant
                g.well_formed(),
                active_leaves(g.nodes, active@),
                features_exist(g.nodes, width@),
                best.len() == active.len(),
                bests == Seq::new(best@.len(), |s: int| best[s]@),
                st@.cons == self.cons,
                st@.reg == self.reg,
                st@.gamma == self.params.gamma,
                constrained == self.cons.active(),
                forall|s: int| 0 <= s < bests.len() ==> (#[trigger] bests[s]).feature < width@,
                i <= active.len(),
                (growth@, next@) == applied(st@, g, active@, bests, i as int, calc),
            decreases active.len() - i,
        {
            proof {
                applying_keeps_the_tree(st@, g, active@, bests, i as int, width@, calc);
            }
            let nid: usize = active[i];
            let b = &best[i];
            assert(b@ == bests[i as int]);
            assert(growth@.nodes[active@[i as int] as int] == g.nodes[nid as int]);
            if valid(b, self.params.gamma, &self.reg) && growth.room(b) {
                let dir: i8 = self.cons.dir(b.feature as usize);
                let lw = if constrained {
                    calc.narrow(b.w_left)
                } else {
                    calc.narrow(calc_weight(b.left, &self.reg, calc))
                };
                let rw = if constrained {
                    calc.narrow(b.w_right)
                } else {
                    calc.narrow(calc_weight(b.right, &self.reg, calc))
                };
                let (left, right) = growth.split(nid, b, dir, lw, rw, calc);
                next.push(left);
                next.push(right);
            }
            i = i + 1;
        }
        proof {
            applying_keeps_the_tree(st@, g, active@, bests, i as int, width@, calc);
        }
        next
    }

    /// Move every row on from a node that was split.
    fn route_rows(
        tree: &RegTree,
        data: &DMatrix,
        node_of: &mut Vec<Option<usize>>,
    )
        requires
            tree.grown(),
            data.well_formed(),
            data.readable(),
            old(node_of).len() <= data.height(),
            nodes_exist(old(node_of)@, tree.node_list().len() as int),
            features_exist(tree.node_list(), data.width()),
        ensures
            final(node_of)@ == Seq::new(
                old(node_of)@.len(),
                |r: int|
                    moved_on(
                        tree.node_list(),
                        tree.category_list(),
                        old(node_of)@[r],
                        row_of(data, r),
                    ),
            ),
            nodes_exist(final(node_of)@, tree.node_list().len() as int),
    {
        let ghost was = node_of@;
        let ghost nodes = tree.node_list();
        let ghost cats = tree.category_list();
        let mut r: usize = 0;
        while r < node_of.len()
            invariant
                nodes == tree.node_list(),
                cats == tree.category_list(),
                tree.grown(),
                data.well_formed(),
                data.readable(),
                node_of.len() == was.len(),
                was.len() <= data.height(),
                nodes_exist(was, nodes.len() as int),
                features_exist(nodes, data.width()),
                r <= node_of.len(),
                forall|k: int| r <= k < node_of.len() ==> #[trigger] node_of[k] == was[k],
                forall|k: int|
                    0 <= k < r ==> #[trigger] node_of[k] == moved_on(
                        nodes,
                        cats,
                        was[k],
                        row_of(data, k),
                    ),
                forall|k: int|
                    0 <= k < r ==> (#[trigger] node_of[k] matches Some(x) ==> x < nodes.len()),
            decreases node_of.len() - r,
        {
            assert(node_of[r as int] == was[r as int]);
            if let Some(nid) = node_of[r] {
                assert(was[r as int] == Some(nid));
                let node = tree.node(nid);
                if !node.is_leaf() {
                    assert(!nodes[nid as int].leafy());
                    assert(data.readable_row(r as int));
                    let value = data.get(r, node.split_feature as usize);
                    let next: i32 = if tree.step_left(nid, value) { node.left } else { node.right };
                    assert(row_of(data, r as int)(node.split_feature) == value);
                    node_of.set(r, Some(next as usize));
                }
            }
            r = r + 1;
        }
        assert(node_of@ =~= Seq::new(
            was.len(),
            |r: int| moved_on(nodes, cats, was[r], row_of(data, r)),
        ));
    }

    /// Grow a single tree on the given rows, with one draw of features per
    /// level.
    pub fn build<F: Fn(Op, u64, u64) -> u64>(
        &self,
        cols: &SortedColumns,
        data: &DMatrix,
        gpair: &[GradPair],
        row_subset: &[u32],
        sampler: &mut ColumnSampler,
        calc: &Calc<F>,
    ) -> (r: RegTree)
        requires
            cols.well_formed(),
            data.well_formed(),
            data.readable(),
            cols.height() == data.height(),
            cols.width() == data.width(),
            data.height() <= 0x1_0000_0000,
            gpair.len() == data.height(),
            forall|i: int| 0 <= i < row_subset.len() ==> #[trigger] row_subset[i] < data.height(),
            forall|i: int|
                0 <= i < old(sampler).features().len() ==> #[trigger] old(sampler).features()[i]
                    < data.width(),
        ensures
            ({
                let st = self.setting(cols, data, gpair@);
                let last = last_stage(
                    st,
                    data,
                    first_stage(gpair@, row_subset@, data.height(), old(sampler)@, calc),
                    level_limit(self.config().max_depth),
                    calc,
                );
                &&& r.node_list() == last.g.settled(st.reg, last.g.nodes.len() as int, calc)
                &&& r.category_list() == last.g.cats
                &&& final(sampler)@ == last.sampling
                &&& rows_stand_at_their_leaves(data, last)
            }),
            self.config().max_depth > 0 ==> settles(
                r.node_list(),
                r.category_list(),
                0,
                self.config().max_depth as nat,
            ),
            r.grown(),
            r.node_list().len() == 2 * r.leaves() - 1,
            features_exist(r.node_list(), data.width()),
            splits_among(r.node_list(), old(sampler).features()),
    {
        let ghost st = self.setting(cols, data, gpair@);
        let ghost pool = sampler.features();
        let ghost width = data.width();
        let n_rows: usize = cols.n_rows();
        let ghost start = first_stage(gpair@, row_subset@, data.height(), sampler@, calc);
        let ghost limit_levels = level_limit(self.config().max_depth);
        proof {
            data.shape();
        }
        let mut node_of: Vec<Option<usize>> = vec![None; n_rows];
        let mut root = GradStats::default();
        let mut i: usize = 0;
        while i < row_subset.len()
            invariant
                i <= row_subset.len(),
                node_of.len() == n_rows,
                n_rows == data.height(),
                gpair.len() == n_rows,
                n_rows <= 0x1_0000_0000,
                forall|k: int| 0 <= k < row_subset.len() ==> #[trigger] row_subset[k] < n_rows,
                root == rows_stats(gpair@, row_subset@, i as int, calc),
                forall|r: int|
                    0 <= r < n_rows ==> #[trigger] node_of[r] == (if exists|k: int|
                        0 <= k < i && #[trigger] row_subset[k] == r {
                        Some(0usize)
                    } else {
                        None
                    }),
            decreases row_subset.len() - i,
        {
            let r: usize = row_subset[i] as usize;
            let ghost was = node_of@;
            node_of.set(r, Some(0));
            assert forall|x: int| 0 <= x < n_rows implies #[trigger] node_of[x] == (if exists|k: int|
                0 <= k < i + 1 && #[trigger] row_subset[k] == x {
                Some(0usize)
            } else {
                None
            }) by {
                if x == r {
                    assert(row_subset[i as int] == x);
                } else {
                    assert(node_of[x] == was[x]);
                    if exists|k: int| 0 <= k < i && #[trigger] row_subset[k] == x {
                        let k = choose|k: int| 0 <= k < i && #[trigger] row_subset[k] == x;
                        assert(row_subset[k] == x);
                    }
                }
            }
            root.add(gpair[r].to_stats(calc), calc);
            i = i + 1;
        }
        proof {
            assert forall|r: int| 0 <= r < n_rows implies #[trigger] node_of[r]
                == start.node_of[r] by {
                if row_subset@.contains(r as u32) {
                    let k = choose|k: int|
                        0 <= k < row_subset@.len() && row_subset@[k] == r as u32;
                    assert(row_subset[k] == r);
                }
                if exists|k: int|
                    0 <= k < row_subset.len() && #[trigger] row_subset[k] == r {
                    let k = choose|k: int|
                        0 <= k < row_subset.len() && #[trigger] row_subset[k] == r;
                    assert(row_subset@[k] == r as u32);
                }
            }
            assert(node_of@ =~= start.node_of);
        }
        let mut growth = Growth::start(root, calc);
        let types = data.feature_types();
        let mut active: Vec<usize> = Vec::new();
        active.push(0);
        assert(active@ =~= start.active);
        let limit: usize = if self.params.max_depth == 0 {
            usize::MAX
        } else {
            self.params.max_depth
        };
        let mut depth: usize = 0;
        let ghost mut h: Seq<nat> = seq![0];
        proof {
            let stage = Stage {
                g: growth@,
                node_of: node_of@,
                active: active@,
                sampling: sampler@,
            };
            assert(at_level(stage, h, 0));
            assert(rows_stand_at_their_leaves(data, stage));
        }
        while depth < limit && active.len() > 0
            invariant
                at_level(
                    Stage {
                        g: growth@,
                        node_of: node_of@,
                        active: active@,
                        sampling: sampler@,
                    },
                    h,
                    depth as nat,
                ),
                rows_stand_at_their_leaves(
                    data,
                    Stage {
                        g: growth@,
                        node_of: node_of@,
                        active: active@,
                        sampling: sampler@,
                    },
                ),
                st == self.setting(cols, data, gpair@),
                width == data.width(),
                limit == limit_levels,
                limit_levels == level_limit(self.config().max_depth),
                cols.well_formed(),
                data.well_formed(),
                data.readable(),
                cols.height() == data.height(),
                cols.width() == data.width(),
                types@ == data.types(),
                types.len() == width,
                0 < width,
                gpair.len() == data.height(),
                node_of.len() == data.height(),
                depth <= limit,
                growth@.well_formed(),
                features_exist(growth@.nodes, width),
                splits_among(growth@.nodes, pool),
                sampler.features() == pool,
                active_leaves(growth@.nodes, active@),
                nodes_exist(node_of@, growth@.nodes.len() as int),
                forall|k: int|
                    0 <= k < sampler.features().len() ==> #[trigger] sampler.features()[k] < width,
                last_stage(st, data, start, limit_levels, calc) == last_stage(
                    st,
                    data,
                    Stage {
                        g: growth@,
                        node_of: node_of@,
                        active: active@,
                        sampling: sampler@,
                    },
                    (limit - depth) as nat,
                    calc,
                ),
            decreases limit - depth,
        {
            let ghost stage = Stage {
                g: growth@,
                node_of: node_of@,
                active: active@,
                sampling: sampler@,
            };
            let fs = sampler.sample(calc);
            assert forall|k: int| 0 <= k < fs.len() implies #[trigger] fs[k] < width by {
                assert(fs@.contains(fs[k]));
                let j = choose|j: int|
                    0 <= j < stage.sampling.pool.len() && stage.sampling.pool[j] == fs[k];
                assert(stage.sampling.pool[j] < width);
            }
            let best = self.find_splits(
                cols,
                types,
                gpair,
                &node_of,
                &growth,
                &active,
                &fs,
                Ghost(st),
                calc,
            );
            let ghost bests = Seq::new(best@.len(), |s: int| best[s]@);
            proof {
                assert(bests =~= stage_bests(st, stage, calc));
                assert forall|s: int| 0 <= s < best.len() implies (#[trigger] best[s])@.feature
                    < width by {
                    best_feature_is_allowed(
                        st,
                        stage.node_of,
                        fs@,
                        active[s] as int,
                        stage.g.paths[active[s] as int],
                        target_of(
                            stage.g.stats[active[s] as int],
                            stage.g.bounds[active[s] as int],
                            st.cons.active(),
                            st.reg,
                            calc,
                        ),
                        fs.len() as int,
                        calc,
                    );
                }
                assert forall|s: int| 0 <= s < bests.len() implies (#[trigger] bests[s]).feature
                    < width by {
                    assert(best[s]@.feature < width);
                }
                assert forall|s: int| 0 <= s < bests.len() && (
                #[trigger] bests[s]).is_found() implies pool.contains(bests[s].feature) by {
                    nothing_is_not_found();
                    best_feature_is_allowed(
                        st,
                        stage.node_of,
                        fs@,
                        active[s] as int,
                        stage.g.paths[active[s] as int],
                        target_of(
                            stage.g.stats[active[s] as int],
                            stage.g.bounds[active[s] as int],
                            st.cons.active(),
                            st.reg,
                            calc,
                        ),
                        fs.len() as int,
                        calc,
                    );
                    assert(fs@.contains(best[s]@.feature));
                }
                applying_keeps_to_the_pool(
                    st,
                    stage.g,
                    active@,
                    bests,
                    active.len() as int,
                    pool,
                    calc,
                );
                applying_keeps_the_tree(
                    st,
                    stage.g,
                    active@,
                    bests,
                    active.len() as int,
                    width,
                    calc,
                );
            }
            let next = self.apply_splits(
                &mut growth,
                &active,
                &best,
                Ghost(st),
                Ghost(width),
                calc,
            );
            proof {
                assert forall|r: int| 0 <= r < node_of.len() implies (
                #[trigger] node_of@[r] matches Some(x) ==> x < growth@.nodes.len()) by {
                    assert(stage.node_of[r] == node_of@[r]);
                }
            }
            Self::route_rows(&growth.tree, data, &mut node_of);
            active = next;
            depth = depth + 1;
            proof {
                let now = Stage {
                    g: growth@,
                    node_of: node_of@,
                    active: active@,
                    sampling: sampler@,
                };
                assert(now =~= next_stage(st, data, stage, calc));
                training_rows_follow_the_tree(st, data, stage, calc);
                h = levels_add_one_to_the_depth(st, data, stage, h, (depth - 1) as nat, calc);
            }
        }
        let ghost done = growth@;
        proof {
            let last = Stage {
                g: growth@,
                node_of: node_of@,
                active: active@,
                sampling: sampler@,
            };
            depth_bounds_every_walk(last, h, depth as nat);
            settling_keeps_the_shape(done, st.reg, 0, depth as nat, limit as nat, calc);
        }
        let tree = growth.finish(&self.reg, calc);
        proof {
            assert forall|i: int|
                0 <= i < tree.node_list().len() && !(
                #[trigger] tree.node_list()[i]).leafy() implies tree.node_list()[i].split_feature
                < width && pool.contains(tree.node_list()[i].split_feature) by {
                assert(tree.node_list()[i] == done.nodes[i]);
            }
        }
        tree
    }
}

} // verus!
