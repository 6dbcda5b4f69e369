//! Interaction constraints: which features may be split by on one way down a
//! tree.

use vstd::prelude::*;

verus! {

/// The groups of features, as contracts speak of them.
pub open spec fn groups_view(groups: Seq<Vec<u32>>) -> Seq<Seq<u32>> {
    Seq::new(groups.len(), |g: int| groups[g]@)
}

/// Whether every feature of a path is in a group.
pub open spec fn covers(group: Seq<u32>, path: Seq<u32>) -> bool {
    forall|i: int| 0 <= i < path.len() ==> group.contains(#[trigger] path[i])
}

/// Whether a feature may be split by below the features of a path: where there
/// are no groups, at the root, where the path holds it already, or where a
/// group holds it together with the whole path.
pub open spec fn allowed(groups: Seq<Seq<u32>>, path: Seq<u32>, f: u32) -> bool {
    ||| groups.len() == 0
    ||| path.len() == 0
    ||| path.contains(f)
    ||| exists|g: int|
        0 <= g < groups.len() && covers(#[trigger] groups[g], path) && groups[g].contains(f)
}

/// Those of the given features that may be split by below a path.
pub open spec fn permitted(groups: Seq<Seq<u32>>, path: Seq<u32>, fs: Seq<u32>) -> Seq<u32> {
    fs.filter(|f: u32| allowed(groups, path, f))
}

/// Whether the features of a path may stand on one way down: they are all the
/// same, or a group holds them all.
pub open spec fn stand_together(groups: Seq<Seq<u32>>, path: Seq<u32>) -> bool {
    ||| groups.len() == 0
    ||| forall|i: int, j: int|
        0 <= i < path.len() && 0 <= j < path.len() ==> #[trigger] path[i] == #[trigger] path[j]
    ||| exists|g: int| 0 <= g < groups.len() && covers(#[trigger] groups[g], path)
}

/// A path stays together if only allowed features are added to it.
pub proof fn allowed_features_stand_together(groups: Seq<Seq<u32>>, path: Seq<u32>, f: u32)
    requires
        stand_together(groups, path),
        allowed(groups, path, f),
    ensures
        stand_together(groups, path.push(f)),
{
    let more = path.push(f);
    if groups.len() > 0 && path.len() > 0 {
        if path.contains(f) {
            let k = choose|k: int| 0 <= k < path.len() && path[k] == f;
            if forall|i: int, j: int|
                0 <= i < path.len() && 0 <= j < path.len() ==> #[trigger] path[i]
                    == #[trigger] path[j] {
                assert forall|i: int, j: int|
                    0 <= i < more.len() && 0 <= j < more.len() implies #[trigger] more[i]
                    == #[trigger] more[j] by {
                    let a = if i < path.len() { i } else { k };
                    let b = if j < path.len() { j } else { k };
                    assert(path[a] == path[b]);
                }
            } else {
                let g = choose|g: int| 0 <= g < groups.len() && covers(#[trigger] groups[g], path);
                assert forall|i: int| 0 <= i < more.len() implies groups[g].contains(
                    #[trigger] more[i],
                ) by {
                    let a = if i < path.len() { i } else { k };
                    assert(groups[g].contains(path[a]));
                }
                assert(covers(groups[g], more));
            }
        } else {
            let g = choose|g: int|
                0 <= g < groups.len() && covers(#[trigger] groups[g], path) && groups[g].contains(
                    f,
                );
            assert forall|i: int| 0 <= i < more.len() implies groups[g].contains(
                #[trigger] more[i],
            ) by {
                if i < path.len() {
                    assert(groups[g].contains(path[i]));
                }
            }
            assert(covers(groups[g], more));
        }
    }
}

/// At the root every feature is allowed.
pub proof fn roots_allow_all(groups: Seq<Seq<u32>>, fs: Seq<u32>)
    ensures
        permitted(groups, Seq::empty(), fs) == fs,
    decreases fs.len(),
{
    reveal(Seq::filter);
    if fs.len() > 0 {
        roots_allow_all(groups, fs.drop_last());
        assert(fs.drop_last().push(fs.last()) =~= fs);
    }
}

/// Whether a list holds a feature.
pub fn has(list: &Vec<u32>, f: u32) -> (r: bool)
    ensures
        r == list@.contains(f),
{
    let mut i: usize = 0;
    while i < list.len()
        invariant
            i <= list.len(),
            forall|k: int| 0 <= k < i ==> list[k] != f,
        decreases list.len() - i,
    {
        if list[i] == f {
            assert(list@[i as int] == f);
            return true;
        }
        i = i + 1;
    }
    false
}

/// Groups of features that may interact.
#[derive(Clone, Debug)]
pub struct InteractionConstraints {
    groups: Vec<Vec<u32>>,
}

impl InteractionConstraints {
    /// The groups.
    pub closed spec fn groups(&self) -> Seq<Seq<u32>> {
        groups_view(self.groups@)
    }

    /// The constraints of a list of groups.
    pub fn from_params(groups: &Vec<Vec<u32>>) -> (r: Self)
        ensures
            r.groups() == groups_view(groups@),
    {
        let mut out: Vec<Vec<u32>> = Vec::new();
        let mut i: usize = 0;
        while i < groups.len()
            invariant
                i <= groups.len(),
                out.len() == i,
                forall|k: int| 0 <= k < i ==> (#[trigger] out[k])@ == groups[k]@,
            decreases groups.len() - i,
        {
            out.push(vstd::slice::slice_to_vec(groups[i].as_slice()));
            i = i + 1;
        }
        let r = InteractionConstraints { groups: out };
        assert(r.groups() =~= groups_view(groups@));
        r
    }

    /// Whether there are no groups.
    pub fn is_empty(&self) -> (r: bool)
        ensures
            r == (self.groups().len() == 0),
    {
        self.groups.len() == 0
    }

    /// Whether a feature may be split by below the features of a path.
    pub fn allows(&self, path: &Vec<u32>, f: u32) -> (r: bool)
        ensures
            r == allowed(self.groups(), path@, f),
    {
        if self.groups.len() == 0 || path.len() == 0 || has(path, f) {
            return true;
        }
        let mut g: usize = 0;
        while g < self.groups.len()
            invariant
                self.groups.len() > 0,
                path.len() > 0,
                !path@.contains(f),
                g <= self.groups.len(),
                forall|k: int|
                    0 <= k < g ==> !(covers(#[trigger] self.groups()[k], path@)
                        && self.groups()[k].contains(f)),
            decreases self.groups.len() - g,
        {
            let group = &self.groups[g];
            assert(self.groups()[g as int] == group@);
            let mut i: usize = 0;
            while i < path.len() && has(group, path[i])
                invariant
                    i <= path.len(),
                    forall|k: int| 0 <= k < i ==> group@.contains(#[trigger] path@[k]),
                decreases path.len() - i,
            {
                i = i + 1;
            }
            if i == path.len() && has(group, f) {
                assert(covers(self.groups()[g as int], path@));
                return true;
            }
            if i < path.len() {
                assert(!group@.contains(path@[i as int]));
            }
            g = g + 1;
        }
        false
    }

    /// Those of the given features that may be split by below a path.
    pub fn permit(&self, path: &Vec<u32>, fs: &Vec<u32>) -> (r: Vec<u32>)
        ensures
            r@ == permitted(self.groups(), path@, fs@),
            forall|f: u32| #[trigger] r@.contains(f) ==> fs@.contains(f),
    {
        let ghost keep = |f: u32| allowed(self.groups(), path@, f);
        let mut out: Vec<u32> = Vec::new();
        let mut i: usize = 0;
        proof {
            assert(fs@.take(0) =~= Seq::<u32>::empty());
            reveal(Seq::filter);
        }
        while i < fs.len()
            invariant
                keep == (|f: u32| allowed(self.groups(), path@, f)),
                i <= fs.len(),
                out@ == fs@.take(i as int).filter(keep),
            decreases fs.len() - i,
        {
            let f: u32 = fs[i];
            proof {
                assert(fs@.take(i + 1) =~= fs@.take(i as int).push(f));
                fs@.take(i as int).lemma_filter_push(f, keep);
            }
            if self.allows(path, f) {
                out.push(f);
            }
            i = i + 1;
        }
        proof {
            assert(fs@.take(fs.len() as int) =~= fs@);
            assert forall|f: u32| #[trigger] out@.contains(f) implies fs@.contains(f) by {
                fs@.lemma_filter_contains_rev(keep, f);
            }
        }
        out
    }
}

} // verus!
