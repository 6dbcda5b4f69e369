//! Growth only splits where it is worth it.

use vstd::prelude::*;

use crate::arith::{Calc, Op};
use crate::data::dmatrix::DMatrix;
use crate::number::{Single, Wide};
use crate::tree::builder::exact::{
    applied, is_taken, last_stage, new_weights, next_stage, stage_bests, Setting, Stage,
};
use crate::tree::builder::growth::{Best, Grown};
use crate::tree::builder::hist::{Plan, Step};
use crate::tree::builder::monotone_growth::{nodes_stand, open_stand};
use crate::tree::gain::{GradStats, RegParams};
use crate::tree::regtree::Node;
use crate::tree::sampler::Sampling;

verus! {

/// Whether the loss reduction of a node's split exceeds `gamma`.
pub open spec fn gains<F: Fn(Op, u64, u64) -> u64>(
    node: Node,
    gamma: Wide,
    calc: &Calc<F>,
) -> bool {
    exists|x: Wide| gamma.lt(x) && node.split_gain == #[trigger] calc.narrowed(x)
}

/// Whether the Hessians routed through a node sum up to `least` or more.
pub open spec fn is_heavy<F: Fn(Op, u64, u64) -> u64>(
    node: Node,
    least: Wide,
    calc: &Calc<F>,
) -> bool {
    exists|h: Wide| least.le(h) && node.sum_hess == #[trigger] calc.narrowed(h)
}

/// Whether every split of a tree reduces the loss by more than `gamma` and
/// leaves children that are heavy enough.
pub open spec fn splits_are_worth<F: Fn(Op, u64, u64) -> u64>(
    nodes: Seq<Node>,
    gamma: Wide,
    least: Wide,
    calc: &Calc<F>,
) -> bool {
    forall|i: int|
        #![trigger nodes[i]]
        0 <= i < nodes.len() && !nodes[i].leafy() ==> {
            &&& 0 <= nodes[i].left < nodes.len()
            &&& 0 <= nodes[i].right < nodes.len()
            &&& gains(nodes[i], gamma, calc)
            &&& is_heavy(nodes[nodes[i].left as int], least, calc)
            &&& is_heavy(nodes[nodes[i].right as int], least, calc)
        }
}

/// Whether a growing tree's splits are worth it.
pub open spec fn growth_is_worth<F: Fn(Op, u64, u64) -> u64>(
    g: Grown,
    gamma: Wide,
    least: Wide,
    calc: &Calc<F>,
) -> bool {
    0 < g.nodes.len() <= i32::MAX && splits_are_worth(g.nodes, gamma, least, calc)
}

proof fn valid_splits_are_worth<F: Fn(Op, u64, u64) -> u64>(
    g: Grown,
    nid: int,
    b: Best,
    dir: i8,
    lw: Single,
    rw: Single,
    gamma: Wide,
    reg: RegParams,
    calc: &Calc<F>,
)
    requires
        growth_is_worth(g, gamma, reg.min_child_weight, calc),
        0 <= nid < g.nodes.len(),
        g.has_room(b),
        b.is_valid(gamma, reg),
    ensures
        growth_is_worth(
            g.after_split(nid, b, dir, lw, rw, calc),
            gamma,
            reg.min_child_weight,
            calc,
        ),
        g.after_split(nid, b, dir, lw, rw, calc).nodes.len() == g.nodes.len() + 2,
{
    let least = reg.min_child_weight;
    let after = g.after_split(nid, b, dir, lw, rw, calc);
    let m = g.nodes.len() as int;
    assert(after.nodes.len() == m + 2);
    assert(after.nodes[nid] == g.split_node(nid, b, calc));
    assert forall|k: int| 0 <= k < m && is_heavy(g.nodes[k], least, calc) implies is_heavy(
        #[trigger] after.nodes[k],
        least,
        calc,
    ) by {
        assert(after.nodes[k].sum_hess == g.nodes[k].sum_hess);
    }
    assert(after.nodes[nid].split_gain == calc.narrowed(b.loss_chg));
    assert(after.nodes[m].sum_hess == calc.narrowed(b.left.hess));
    assert(after.nodes[m + 1].sum_hess == calc.narrowed(b.right.hess));
    assert forall|i: int|
        #![trigger after.nodes[i]]
        0 <= i < after.nodes.len() && !after.nodes[i].leafy() implies {
        &&& 0 <= after.nodes[i].left < after.nodes.len()
        &&& 0 <= after.nodes[i].right < after.nodes.len()
        &&& gains(after.nodes[i], gamma, calc)
        &&& is_heavy(after.nodes[after.nodes[i].left as int], least, calc)
        &&& is_heavy(after.nodes[after.nodes[i].right as int], least, calc)
    } by {
        if i == nid {
            assert(after.nodes[i].left == m && after.nodes[i].right == m + 1);
        } else if i < m {
            assert(after.nodes[i] == g.nodes[i]);
        } else {
            assert(after.nodes[i].leafy());
        }
    }
}

proof fn applying_is_worth<F: Fn(Op, u64, u64) -> u64>(
    st: Setting,
    g: Grown,
    active: Seq<usize>,
    bests: Seq<Best>,
    n: int,
    calc: &Calc<F>,
)
    requires
        growth_is_worth(g, st.gamma, st.reg.min_child_weight, calc),
        nodes_stand(g, active),
        0 <= n <= active.len(),
    ensures
        growth_is_worth(
            applied(st, g, active, bests, n, calc).0,
            st.gamma,
            st.reg.min_child_weight,
            calc,
        ),
        applied(st, g, active, bests, n, calc).0.nodes.len() >= g.nodes.len(),
        nodes_stand(
            applied(st, g, active, bests, n, calc).0,
            applied(st, g, active, bests, n, calc).1,
        ),
    decreases n,
{
    if n > 0 {
        applying_is_worth(st, g, active, bests, n - 1, calc);
        let (so_far, next) = applied(st, g, active, bests, n - 1, calc);
        let b = bests[n - 1];
        assert(active[n - 1] < g.nodes.len());
        if is_taken(st, so_far, b) {
            let (lw, rw) = new_weights(st, b, calc);
            valid_splits_are_worth(
                so_far,
                active[n - 1] as int,
                b,
                st.cons.direction(b.feature as int),
                lw,
                rw,
                st.gamma,
                st.reg,
                calc,
            );
        }
    }
}

/// Exact growth only splits where it is worth it.
pub proof fn exact_growth_is_worth<F: Fn(Op, u64, u64) -> u64>(
    st: Setting,
    data: &DMatrix,
    stage: Stage,
    levels: nat,
    calc: &Calc<F>,
)
    requires
        growth_is_worth(stage.g, st.gamma, st.reg.min_child_weight, calc),
        nodes_stand(stage.g, stage.active),
    ensures
        growth_is_worth(
            last_stage(st, data, stage, levels, calc).g,
            st.gamma,
            st.reg.min_child_weight,
            calc,
        ),
    decreases levels,
{
    if levels > 0 && stage.active.len() > 0 {
        applying_is_worth(
            st,
            stage.g,
            stage.active,
            stage_bests(st, stage, calc),
            stage.active.len() as int,
            calc,
        );
        exact_growth_is_worth(
            st,
            data,
            next_stage(st, data, stage, calc),
            (levels - 1) as nat,
            calc,
        );
    }
}

proof fn steps_are_worth<F: Fn(Op, u64, u64) -> u64>(
    plan: Plan,
    s: Step,
    t: Step,
    calc: &Calc<F>,
)
    requires
        growth_is_worth(s.g, plan.gamma, plan.reg.min_child_weight, calc),
        open_stand(s),
        plan.steps(s, t, calc),
    ensures
        growth_is_worth(t.g, plan.gamma, plan.reg.min_child_weight, calc),
        open_stand(t),
{
    let i = choose|i: int| #[trigger] plan.may_pick(s, i, calc) && plan.picked(s, i, t, calc);
    let e = s.open[i];
    if plan.is_taken(s.g, e, calc) {
        let b = plan.best(s.g, e, calc);
        let (hl, hr) = choose|hl: Seq<GradStats>, hr: Seq<GradStats>|
            plan.are_children(e, b, hl, hr, calc) && t == #[trigger] plan.after_split(
                s,
                i,
                hl,
                hr,
                calc,
            );
        valid_splits_are_worth(
            s.g,
            e.nid,
            b,
            plan.cons.direction(b.feature as int),
            calc.narrowed(b.w_left),
            calc.narrowed(b.w_right),
            plan.gamma,
            plan.reg,
            calc,
        );
        let rest = s.open.remove(i);
        assert forall|k: int| 0 <= k < t.open.len() implies 0 <= (#[trigger] t.open[k]).nid
            < t.g.nodes.len() by {
            if k < rest.len() {
                assert(t.open[k] == rest[k]);
                assert(rest[k] == s.open[if k < i { k } else { k + 1 }]);
            }
        }
    } else {
        assert forall|k: int| 0 <= k < t.open.len() implies 0 <= (#[trigger] t.open[k]).nid
            < t.g.nodes.len() by {
            assert(t.open[k] == s.open[if k < i { k } else { k + 1 }]);
        }
    }
}

/// Histogram growth only splits where it is worth it.
pub proof fn hist_growth_is_worth<F: Fn(Op, u64, u64) -> u64>(
    plan: Plan,
    rows: Seq<u32>,
    sampling: Sampling,
    run: Seq<Step>,
    i: int,
    calc: &Calc<F>,
)
    requires
        plan.is_run(rows, sampling, run, calc),
        0 <= i < run.len(),
    ensures
        growth_is_worth(run[i].g, plan.gamma, plan.reg.min_child_weight, calc),
        open_stand(run[i]),
    decreases i,
{
    if i > 0 {
        hist_growth_is_worth(plan, rows, sampling, run, i - 1, calc);
        assert(plan.steps(run[i - 1], run[i], calc));
        steps_are_worth(plan, run[i - 1], run[i], calc);
    }
}

/// Settling the weights of leaves leaves splits as they are.
pub proof fn settled_growth_is_worth<F: Fn(Op, u64, u64) -> u64>(
    g: Grown,
    gamma: Wide,
    reg: RegParams,
    calc: &Calc<F>,
)
    requires
        growth_is_worth(g, gamma, reg.min_child_weight, calc),
    ensures
        splits_are_worth(
            g.settled(reg, g.nodes.len() as int, calc),
            gamma,
            reg.min_child_weight,
            calc,
        ),
{
    let nodes = g.settled(reg, g.nodes.len() as int, calc);
    let least = reg.min_child_weight;
    assert forall|i: int|
        #![trigger nodes[i]]
        0 <= i < nodes.len() && !nodes[i].leafy() implies {
        &&& 0 <= nodes[i].left < nodes.len()
        &&& 0 <= nodes[i].right < nodes.len()
        &&& gains(nodes[i], gamma, calc)
        &&& is_heavy(nodes[nodes[i].left as int], least, calc)
        &&& is_heavy(nodes[nodes[i].right as int], least, calc)
    } by {
        assert(nodes[i] == g.nodes[i]);
        let l = nodes[i].left as int;
        let r = nodes[i].right as int;
        assert(nodes[l].sum_hess == g.nodes[l].sum_hess);
        assert(nodes[r].sum_hess == g.nodes[r].sum_hess);
    }
}

} // verus!
