//! Growth keeps features that may not interact off each other's ways.

use vstd::prelude::*;

use crate::arith::{Calc, Op};
use crate::data::dmatrix::DMatrix;
use crate::number::Single;
use crate::tree::builder::exact::{
    applied, best_feature_is_allowed, is_taken, last_stage, new_weights, next_stage, stage_bests,
    Setting, Stage,
};
use crate::tree::builder::growth::{no_split, target_of, Best, Grown};
use crate::tree::builder::hist::{best_feature_is_drawn, OpenNode, Plan, Step};
use crate::tree::builder::monotone_growth::{nodes_stand, open_stand};
use crate::tree::gain::{GradStats, RegParams};
use crate::tree::interaction::{
    allowed, allowed_features_stand_together, permitted, stand_together,
};
use crate::tree::regtree::{next_node, settles, Node};
use crate::tree::sampler::{draw_at, Sampling};

verus! {

/// The features that a row's way down from node `nid` is split by.
pub open spec fn way_down(
    nodes: Seq<Node>,
    cats: Seq<u32>,
    row: spec_fn(u32) -> Option<Single>,
    nid: int,
    fuel: nat,
) -> Seq<u32>
    decreases fuel,
{
    if fuel == 0 || nodes[nid].leafy() {
        Seq::empty()
    } else {
        seq![nodes[nid].split_feature] + way_down(
            nodes,
            cats,
            row,
            next_node(nodes, cats, nid, row(nodes[nid].split_feature)),
            (fuel - 1) as nat,
        )
    }
}

/// Whether the path of every node holds the split features above it, and the
/// features of every path may stand together.
pub open spec fn paths_hold(g: Grown, groups: Seq<Seq<u32>>) -> bool {
    &&& 0 < g.nodes.len() <= i32::MAX
    &&& g.paths.len() == g.nodes.len()
    &&& g.paths[0].len() == 0
    &&& forall|i: int| 0 <= i < g.paths.len() ==> stand_together(groups, #[trigger] g.paths[i])
    &&& forall|i: int|
        #![trigger g.nodes[i]]
        0 <= i < g.nodes.len() && !g.nodes[i].leafy() ==> {
            let below = g.paths[i].push(g.nodes[i].split_feature);
            &&& 0 <= g.nodes[i].left < g.nodes.len()
            &&& 0 <= g.nodes[i].right < g.nodes.len()
            &&& g.paths[g.nodes[i].left as int] == below
            &&& g.paths[g.nodes[i].right as int] == below
        }
}

proof fn splits_extend_paths<F: Fn(Op, u64, u64) -> u64>(
    g: Grown,
    groups: Seq<Seq<u32>>,
    nid: int,
    b: Best,
    dir: i8,
    lw: Single,
    rw: Single,
    calc: &Calc<F>,
)
    requires
        paths_hold(g, groups),
        0 <= nid < g.nodes.len(),
        g.has_room(b),
        allowed(groups, g.paths[nid], b.feature),
    ensures
        paths_hold(g.after_split(nid, b, dir, lw, rw, calc), groups),
        g.after_split(nid, b, dir, lw, rw, calc).nodes.len() == g.nodes.len() + 2,
        forall|i: int|
            0 <= i < g.nodes.len() ==> #[trigger] g.after_split(
                nid,
                b,
                dir,
                lw,
                rw,
                calc,
            ).paths[i] == g.paths[i],
{
    let after = g.after_split(nid, b, dir, lw, rw, calc);
    let m = g.nodes.len() as int;
    let below = g.paths[nid].push(b.feature);
    allowed_features_stand_together(groups, g.paths[nid], b.feature);
    assert(after.nodes.len() == m + 2);
    assert(after.nodes[nid] == g.split_node(nid, b, calc));
    assert forall|i: int| 0 <= i < after.paths.len() implies stand_together(
        groups,
        #[trigger] after.paths[i],
    ) by {
        if i < m {
            assert(after.paths[i] == g.paths[i]);
        } else {
            assert(after.paths[i] == below);
        }
    }
    assert forall|i: int|
        #![trigger after.nodes[i]]
        0 <= i < after.nodes.len() && !after.nodes[i].leafy() implies {
        let under = after.paths[i].push(after.nodes[i].split_feature);
        &&& 0 <= after.nodes[i].left < after.nodes.len()
        &&& 0 <= after.nodes[i].right < after.nodes.len()
        &&& after.paths[after.nodes[i].left as int] == under
        &&& after.paths[after.nodes[i].right as int] == under
    } by {
        if i == nid {
            assert(after.nodes[i].left == m && after.nodes[i].right == m + 1);
            assert(after.nodes[i].split_feature == b.feature);
        } else if i < m {
            assert(after.nodes[i] == g.nodes[i]);
            assert(after.paths[g.nodes[i].left as int] == g.paths[g.nodes[i].left as int]);
            assert(after.paths[g.nodes[i].right as int] == g.paths[g.nodes[i].right as int]);
        } else {
            assert(after.nodes[i].leafy());
        }
    }
}

/// Whether every split that may be taken is by a feature that its node's path
/// allows.
spec fn bests_are_allowed(
    groups: Seq<Seq<u32>>,
    g: Grown,
    active: Seq<usize>,
    bests: Seq<Best>,
) -> bool {
    forall|s: int|
        0 <= s < active.len() && (#[trigger] bests[s]).is_found() ==> allowed(
            groups,
            g.paths[active[s] as int],
            bests[s].feature,
        )
}

proof fn applying_extends_paths<F: Fn(Op, u64, u64) -> u64>(
    st: Setting,
    g: Grown,
    active: Seq<usize>,
    bests: Seq<Best>,
    n: int,
    calc: &Calc<F>,
)
    requires
        paths_hold(g, st.groups),
        nodes_stand(g, active),
        bests_are_allowed(st.groups, g, active, bests),
        0 <= n <= active.len(),
    ensures
        paths_hold(applied(st, g, active, bests, n, calc).0, st.groups),
        applied(st, g, active, bests, n, calc).0.nodes.len() >= g.nodes.len(),
        nodes_stand(
            applied(st, g, active, bests, n, calc).0,
            applied(st, g, active, bests, n, calc).1,
        ),
        forall|i: int|
            0 <= i < g.nodes.len() ==> #[trigger] applied(
                st,
                g,
                active,
                bests,
                n,
                calc,
            ).0.paths[i] == g.paths[i],
    decreases n,
{
    if n > 0 {
        applying_extends_paths(st, g, active, bests, n - 1, calc);
        let (so_far, next) = applied(st, g, active, bests, n - 1, calc);
        let b = bests[n - 1];
        let nid = active[n - 1] as int;
        assert(active[n - 1] < g.nodes.len());
        if is_taken(st, so_far, b) {
            let (lw, rw) = new_weights(st, b, calc);
            assert(so_far.paths[nid] == g.paths[nid]);
            splits_extend_paths(
                so_far,
                st.groups,
                nid,
                b,
                st.cons.direction(b.feature as int),
                lw,
                rw,
                calc,
            );
            assert forall|i: int| 0 <= i < g.nodes.len() implies #[trigger] applied(
                st,
                g,
                active,
                bests,
                n,
                calc,
            ).0.paths[i] == g.paths[i] by {
                assert(so_far.paths[i] == g.paths[i]);
            }
        }
    }
}

proof fn level_bests_are_allowed<F: Fn(Op, u64, u64) -> u64>(
    st: Setting,
    stage: Stage,
    calc: &Calc<F>,
)
    ensures
        bests_are_allowed(st.groups, stage.g, stage.active, stage_bests(st, stage, calc)),
{
    let fs = draw_at(stage.sampling, calc);
    let bests = stage_bests(st, stage, calc);
    assert forall|s: int|
        0 <= s < stage.active.len() && (#[trigger] bests[s]).is_found() implies allowed(
        st.groups,
        stage.g.paths[stage.active[s] as int],
        bests[s].feature,
    ) by {
        let nid = stage.active[s] as int;
        best_feature_is_allowed(
            st,
            stage.node_of,
            fs,
            nid,
            stage.g.paths[nid],
            target_of(stage.g.stats[nid], stage.g.bounds[nid], st.cons.active(), st.reg, calc),
            fs.len() as int,
            calc,
        );
        assert(!no_split().is_found());
    }
}

/// Exact growth splits by features that may stand together.
pub proof fn exact_growth_keeps_groups<F: Fn(Op, u64, u64) -> u64>(
    st: Setting,
    data: &DMatrix,
    stage: Stage,
    levels: nat,
    calc: &Calc<F>,
)
    requires
        paths_hold(stage.g, st.groups),
        nodes_stand(stage.g, stage.active),
    ensures
        paths_hold(last_stage(st, data, stage, levels, calc).g, st.groups),
    decreases levels,
{
    if levels > 0 && stage.active.len() > 0 {
        level_bests_are_allowed(st, stage, calc);
        applying_extends_paths(
            st,
            stage.g,
            stage.active,
            stage_bests(st, stage, calc),
            stage.active.len() as int,
            calc,
        );
        exact_growth_keeps_groups(
            st,
            data,
            next_stage(st, data, stage, calc),
            (levels - 1) as nat,
            calc,
        );
    }
}

/// Whether an open node is only offered features that its path allows.
spec fn offers_allowed(groups: Seq<Seq<u32>>, g: Grown, e: OpenNode) -> bool {
    forall|k: int|
        0 <= k < e.features.len() ==> allowed(groups, g.paths[e.nid], #[trigger] e.features[k])
}

/// Whether every open node is only offered features that its path allows.
spec fn open_offers_allowed(groups: Seq<Seq<u32>>, s: Step) -> bool {
    forall|i: int| 0 <= i < s.open.len() ==> offers_allowed(groups, s.g, #[trigger] s.open[i])
}

proof fn permitted_features_are_allowed(groups: Seq<Seq<u32>>, path: Seq<u32>, fs: Seq<u32>)
    ensures
        forall|k: int|
            0 <= k < permitted(groups, path, fs).len() ==> allowed(
                groups,
                path,
                #[trigger] permitted(groups, path, fs)[k],
            ),
{
    let keep = |f: u32| allowed(groups, path, f);
    broadcast use vstd::seq_lib::group_filter_ensures;

    assert forall|k: int| 0 <= k < permitted(groups, path, fs).len() implies allowed(
        groups,
        path,
        #[trigger] permitted(groups, path, fs)[k],
    ) by {
        assert(fs.filter(keep).contains(fs.filter(keep)[k]));
        assert(keep(fs.filter(keep)[k]));
    }
}

proof fn steps_extend_paths<F: Fn(Op, u64, u64) -> u64>(
    plan: Plan,
    s: Step,
    t: Step,
    calc: &Calc<F>,
)
    requires
        paths_hold(s.g, plan.groups),
        open_stand(s),
        open_offers_allowed(plan.groups, s),
        plan.steps(s, t, calc),
    ensures
        paths_hold(t.g, plan.groups),
        open_stand(t),
        open_offers_allowed(plan.groups, t),
{
    let i = choose|i: int| #[trigger] plan.may_pick(s, i, calc) && plan.picked(s, i, t, calc);
    let e = s.open[i];
    assert(offers_allowed(plan.groups, s.g, e));
    if plan.is_taken(s.g, e, calc) {
        let b = plan.best(s.g, e, calc);
        let (hl, hr) = choose|hl: Seq<GradStats>, hr: Seq<GradStats>|
            plan.are_children(e, b, hl, hr, calc) && t == #[trigger] plan.after_split(
                s,
                i,
                hl,
                hr,
                calc,
            );
        best_feature_is_drawn(
            plan.rules(),
            e.hist,
            target_of(s.g.stats[e.nid], s.g.bounds[e.nid], true, plan.reg, calc),
            e.features,
            e.features.len() as int,
            calc,
        );
        assert(!no_split().is_found());
        let at = choose|k: int| 0 <= k < e.features.len() && e.features[k] == b.feature;
        assert(allowed(plan.groups, s.g.paths[e.nid], e.features[at]));
        splits_extend_paths(
            s.g,
            plan.groups,
            e.nid,
            b,
            plan.cons.direction(b.feature as int),
            calc.narrowed(b.w_left),
            calc.narrowed(b.w_right),
            calc,
        );
        let rest = s.open.remove(i);
        let below = s.g.paths[e.nid].push(b.feature);
        let second = plan.after_offer(s.sampling, calc);
        permitted_features_are_allowed(plan.groups, below, plan.offered(s.sampling, calc));
        permitted_features_are_allowed(plan.groups, below, plan.offered(second, calc));
        assert forall|k: int| 0 <= k < t.open.len() implies 0 <= (#[trigger] t.open[k]).nid
            < t.g.nodes.len() && offers_allowed(plan.groups, t.g, t.open[k]) by {
            if k < rest.len() {
                assert(t.open[k] == rest[k]);
                let old_place = if k < i { k } else { k + 1 };
                assert(rest[k] == s.open[old_place]);
                assert(offers_allowed(plan.groups, s.g, s.open[old_place]));
                assert(t.g.paths[t.open[k].nid] == s.g.paths[t.open[k].nid]);
            } else {
                assert(t.g.paths[t.open[k].nid] == below);
            }
        }
    } else {
        assert forall|k: int| 0 <= k < t.open.len() implies 0 <= (#[trigger] t.open[k]).nid
            < t.g.nodes.len() && offers_allowed(plan.groups, t.g, t.open[k]) by {
            let old_place = if k < i { k } else { k + 1 };
            assert(t.open[k] == s.open[old_place]);
            assert(offers_allowed(plan.groups, s.g, s.open[old_place]));
        }
    }
}

proof fn runs_extend_paths<F: Fn(Op, u64, u64) -> u64>(
    plan: Plan,
    rows: Seq<u32>,
    sampling: Sampling,
    run: Seq<Step>,
    i: int,
    calc: &Calc<F>,
)
    requires
        plan.is_run(rows, sampling, run, calc),
        0 <= i < run.len(),
    ensures
        paths_hold(run[i].g, plan.groups),
        open_stand(run[i]),
        open_offers_allowed(plan.groups, run[i]),
    decreases i,
{
    if i > 0 {
        runs_extend_paths(plan, rows, sampling, run, i - 1, calc);
        assert(plan.steps(run[i - 1], run[i], calc));
        steps_extend_paths(plan, run[i - 1], run[i], calc);
    }
}

/// Histogram growth splits by features that may stand together.
pub proof fn hist_growth_keeps_groups<F: Fn(Op, u64, u64) -> u64>(
    plan: Plan,
    rows: Seq<u32>,
    sampling: Sampling,
    run: Seq<Step>,
    calc: &Calc<F>,
)
    requires
        plan.is_run(rows, sampling, run, calc),
    ensures
        paths_hold(run.last().g, plan.groups),
{
    runs_extend_paths(plan, rows, sampling, run, run.len() - 1, calc);
}

/// A row's way down a growth whose paths hold ends in a path.
proof fn ways_are_paths(
    g: Grown,
    groups: Seq<Seq<u32>>,
    nodes: Seq<Node>,
    row: spec_fn(u32) -> Option<Single>,
    nid: int,
    fuel: nat,
)
    requires
        paths_hold(g, groups),
        nodes.len() == g.nodes.len(),
        forall|i: int|
            0 <= i < nodes.len() ==> (#[trigger] nodes[i]).leafy() == g.nodes[i].leafy(),
        forall|i: int|
            0 <= i < nodes.len() && !(#[trigger] nodes[i]).leafy() ==> nodes[i] == g.nodes[i],
        settles(nodes, g.cats, nid, fuel),
    ensures
        stand_together(groups, g.paths[nid] + way_down(nodes, g.cats, row, nid, fuel)),
    decreases fuel,
{
    let way = way_down(nodes, g.cats, row, nid, fuel);
    if nodes[nid].leafy() {
        assert(g.paths[nid] + way =~= g.paths[nid]);
    } else {
        let f = nodes[nid].split_feature;
        let next = next_node(nodes, g.cats, nid, row(f));
        let less = (fuel - 1) as nat;
        ways_are_paths(g, groups, nodes, row, next, less);
        assert(nodes[nid] == g.nodes[nid]);
        assert(g.paths[next] == g.paths[nid].push(f));
        assert(g.paths[nid] + way =~= g.paths[next] + way_down(nodes, g.cats, row, next, less));
    }
}

/// The features that any row's way down a settled growth is split by may stand
/// together.
pub proof fn ways_stand_together<F: Fn(Op, u64, u64) -> u64>(
    g: Grown,
    groups: Seq<Seq<u32>>,
    reg: RegParams,
    row: spec_fn(u32) -> Option<Single>,
    fuel: nat,
    calc: &Calc<F>,
)
    requires
        paths_hold(g, groups),
        settles(g.settled(reg, g.nodes.len() as int, calc), g.cats, 0, fuel),
    ensures
        stand_together(
            groups,
            way_down(g.settled(reg, g.nodes.len() as int, calc), g.cats, row, 0, fuel),
        ),
{
    let nodes = g.settled(reg, g.nodes.len() as int, calc);
    ways_are_paths(g, groups, nodes, row, 0, fuel);
    assert(g.paths[0] + way_down(nodes, g.cats, row, 0, fuel) =~= way_down(
        nodes,
        g.cats,
        row,
        0,
        fuel,
    ));
}

} // verus!
