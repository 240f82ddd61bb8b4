//! Which features may occur together on a path of a tree.

use vstd::prelude::*;

verus! {

/// Group `g` is the last of `groups` that holds feature `f`.
pub open spec fn last_group_with(groups: Seq<Seq<usize>>, f: usize, g: int) -> bool {
    &&& 0 <= g < groups.len()
    &&& groups[g].contains(f)
    &&& forall|k: int| g < k < groups.len() ==> !(#[trigger] groups[k]).contains(f)
}

/// The groups that some of `ancestors` belong to.
pub open spec fn group_used(lookup: Seq<Option<usize>>, ancestors: Seq<usize>, g: usize) -> bool {
    exists|i: int|
        0 <= i < ancestors.len() && 0 <= (#[trigger] ancestors[i]) < lookup.len()
            && lookup[ancestors[i] as int] == Some(g)
}

/// Some of `ancestors` belong to a group.
pub open spec fn any_group_used(lookup: Seq<Option<usize>>, ancestors: Seq<usize>) -> bool {
    exists|i: int|
        0 <= i < ancestors.len() && 0 <= (#[trigger] ancestors[i]) < lookup.len()
            && lookup[ancestors[i] as int] is Some
}

/// The value of a set of [`InteractionConstraints`].
#[verifier::ext_equal]
pub struct Groups {
    /// The groups.
    pub groups: Seq<Seq<usize>>,
    /// The group of each feature, if it has one.
    pub lookup: Seq<Option<usize>>,
}

impl Groups {
    /// The group of a feature.
    pub open spec fn group(self, f: int) -> Option<usize> {
        if 0 <= f < self.lookup.len() {
            self.lookup[f]
        } else {
            None
        }
    }

    /// Feature `f` may be used below `ancestors`: there are no groups, or it has
    /// none, or none was used yet, or its own was used.
    pub open spec fn allows(self, ancestors: Seq<usize>, f: int) -> bool {
        ||| self.groups.len() == 0
        ||| self.group(f) is None
        ||| !any_group_used(self.lookup, ancestors)
        ||| group_used(self.lookup, ancestors, self.group(f)->Some_0)
    }

    /// Every feature that has a group has one that exists.
    pub open spec fn wf(self) -> bool {
        forall|f: int|
            0 <= f < self.lookup.len() && (#[trigger] self.lookup[f]) is Some
                ==> self.lookup[f]->Some_0 < self.groups.len()
    }
}

/// Features in one group may occur together on a path of a tree, features of
/// different groups may not; features without a group may occur with all.
#[derive(Debug)]
pub struct InteractionConstraints {
    groups: Vec<Vec<usize>>,
    feature_to_group: Vec<Option<usize>>,
}

/// The contents of a list of lists.
pub open spec fn lists(groups: Seq<Vec<usize>>) -> Seq<Seq<usize>> {
    Seq::new(groups.len(), |i: int| groups[i]@)
}

impl View for InteractionConstraints {
    type V = Groups;

    closed spec fn view(&self) -> Groups {
        Groups { groups: lists(self.groups@), lookup: self.feature_to_group@ }
    }
}

impl InteractionConstraints {
    /// Every feature that has a group has one that exists.
    #[verifier::type_invariant]
    pub closed spec fn wf(&self) -> bool {
        self@.wf()
    }

    /// No constraints.
    pub fn new() -> (r: Self)
        ensures
            r@ == (Groups { groups: Seq::empty(), lookup: Seq::empty() }),
    {
        let r = InteractionConstraints { groups: Vec::new(), feature_to_group: Vec::new() };
        assert(lists(r.groups@) =~= Seq::<Seq<usize>>::empty());
        r
    }

    /// The constraints that given groups impose on features `0..num_features`.
    /// A feature in several groups belongs to the last of them.
    pub fn from_groups(groups: Vec<Vec<usize>>, num_features: usize) -> (r: Self)
        ensures
            r@.groups == lists(groups@),
            r@.lookup.len() == num_features,
            r@.wf(),
            forall|f: int|
                #![trigger r@.lookup[f]]
                0 <= f < num_features ==> match r@.lookup[f] {
                    Some(g) => last_group_with(lists(groups@), f as usize, g as int),
                    None => forall|k: int|
                        0 <= k < groups.len() ==> !(#[trigger] lists(groups@)[k]).contains(
                            f as usize,
                        ),
                },
    {
        let ghost all = lists(groups@);
        let mut lookup: Vec<Option<usize>> = Vec::new();
        let mut f: usize = 0;
        while f < num_features
            invariant
                f <= num_features,
                lookup.len() == f,
                forall|k: int| 0 <= k < f ==> (#[trigger] lookup[k]) is None,
            decreases num_features - f,
        {
            lookup.push(None);
            f = f + 1;
        }
        let mut g: usize = 0;
        while g < groups.len()
            invariant
                g <= groups.len(),
                all == lists(groups@),
                lookup.len() == num_features,
                forall|f: int|
                    #![trigger lookup[f]]
                    0 <= f < num_features ==> match lookup[f] {
                        Some(h) => last_group_with(all.take(g as int), f as usize, h as int),
                        None => forall|k: int|
                            0 <= k < g ==> !(#[trigger] all[k]).contains(f as usize),
                    },
            decreases groups.len() - g,
        {
            let group = &groups[g];
            let ghost before = lookup@;
            let mut n: usize = 0;
            while n < group.len()
                invariant
                    n <= group.len(),
                    g < groups.len(),
                    all == lists(groups@),
                    group@ == all[g as int],
                    lookup.len() == num_features,
                    before.len() == num_features,
                    forall|f: int|
                        #![trigger lookup[f]]
                        0 <= f < num_features ==> lookup[f] == (if group@.take(n as int).contains(
                            f as usize,
                        ) {
                            Some(g)
                        } else {
                            before[f]
                        }),
                decreases group.len() - n,
            {
                let feature_idx: usize = group[n];
                let ghost seen = group@.take(n as int);
                let ghost had = lookup@;
                if feature_idx < num_features {
                    lookup.set(feature_idx, Some(g));
                }
                proof {
                    assert(group@.take(n + 1) =~= seen.push(feature_idx));
                    assert forall|f: int|
                        #![trigger lookup[f]]
                        0 <= f < num_features implies lookup[f] == (if group@.take(
                        n + 1,
                    ).contains(f as usize) {
                        Some(g)
                    } else {
                        before[f]
                    }) by {
                        crate::text::lemma_push_contains(seen, feature_idx, f as usize);
                        assert(had[f] == (if seen.contains(f as usize) {
                            Some(g)
                        } else {
                            before[f]
                        }));
                    }
                }
                n = n + 1;
            }
            proof {
                assert(group@.take(n as int) =~= group@);
                let longer = all.take(g + 1);
                assert forall|f: int|
                    #![trigger lookup[f]]
                    0 <= f < num_features implies match lookup[f] {
                    Some(h) => last_group_with(longer, f as usize, h as int),
                    None => forall|k: int|
                        0 <= k < g + 1 ==> !(#[trigger] all[k]).contains(f as usize),
                } by {
                    let old_entry = before[f];
                    if !group@.contains(f as usize) {
                        match before[f] {
                            Some(h) => {
                                assert(last_group_with(all.take(g as int), f as usize, h as int));
                                assert forall|k: int| h < k < longer.len() implies !(
                                #[trigger] longer[k]).contains(f as usize) by {
                                    if k < g {
                                        assert(longer[k] == all.take(g as int)[k]);
                                    }
                                }
                            },
                            None => {},
                        }
                    }
                }
            }
            g = g + 1;
        }
        assert(all.take(g as int) =~= all);
        InteractionConstraints { groups, feature_to_group: lookup }
    }

    /// Whether there are no constraints.
    pub fn is_empty(&self) -> (r: bool)
        ensures
            r == (self@.groups.len() == 0),
    {
        self.groups.is_empty()
    }

    /// The features among `0..num_features` that may be used below the given
    /// ancestors, in order.
    pub fn allowed_features(&self, ancestor_features: &[usize], num_features: usize) -> (r: Vec<
        usize,
    >)
        ensures
            r@ == Seq::new(num_features as nat, |f: int| f as usize).filter(
                |f: usize| self@.allows(ancestor_features@, f as int),
            ),
    {
        proof {
            use_type_invariant(self);
        }
        let ghost all = Seq::new(num_features as nat, |f: int| f as usize);
        let ghost keep = |f: usize| self@.allows(ancestor_features@, f as int);
        let mut used: Vec<bool> = Vec::new();
        let mut k: usize = 0;
        while k < self.groups.len()
            invariant
                k <= self.groups.len(),
                used.len() == k,
                forall|g: int| 0 <= g < k ==> !(#[trigger] used[g]),
            decreases self.groups.len() - k,
        {
            used.push(false);
            k = k + 1;
        }
        let ghost lookup = self@.lookup;
        let mut any: bool = false;
        let mut n: usize = 0;
        while n < ancestor_features.len()
            invariant
                n <= ancestor_features.len(),
                self@.wf(),
                lookup == self@.lookup,
                lookup == self.feature_to_group@,
                used.len() == self@.groups.len(),
                any == any_group_used(lookup, ancestor_features@.take(n as int)),
                forall|g: usize|
                    g < used.len() ==> (#[trigger] used[g as int]) == group_used(
                        lookup,
                        ancestor_features@.take(n as int),
                        g,
                    ),
            decreases ancestor_features.len() - n,
        {
            let feature: usize = ancestor_features[n];
            let ghost before = ancestor_features@.take(n as int);
            let ghost now = ancestor_features@.take(n + 1);
            let ghost had = used@;
            let ghost had_any = any;
            assert(now =~= before.push(feature));
            if feature < self.feature_to_group.len() {
                match self.feature_to_group[feature] {
                    Some(g) => {
                        assert(lookup[feature as int] == Some(g));
                        used.set(g, true);
                        any = true;
                    },
                    None => {},
                }
            }
            proof {
                lemma_used_push(lookup, before, feature);
                assert forall|g: usize| g < used.len() implies (#[trigger] used[g as int])
                    == group_used(lookup, now, g) by {
                    assert(had[g as int] == group_used(lookup, before, g));
                }
            }
            n = n + 1;
        }
        assert(ancestor_features@.take(n as int) =~= ancestor_features@);
        let mut allowed: Vec<usize> = Vec::new();
        let mut f: usize = 0;
        proof {
            reveal(Seq::filter);
            assert(all.take(0).filter(keep) =~= Seq::<usize>::empty());
        }
        while f < num_features
            invariant
                f <= num_features,
                self@.wf(),
                lookup == self@.lookup,
                lookup == self.feature_to_group@,
                self.groups.len() == self@.groups.len(),
                used.len() == self@.groups.len(),
                any == any_group_used(lookup, ancestor_features@),
                forall|g: usize|
                    g < used.len() ==> (#[trigger] used[g as int]) == group_used(
                        lookup,
                        ancestor_features@,
                        g,
                    ),
                all == Seq::new(num_features as nat, |f: int| f as usize),
                keep == (|f: usize| self@.allows(ancestor_features@, f as int)),
                allowed@ == all.take(f as int).filter(keep),
            decreases num_features - f,
        {
            let ok: bool = if self.groups.is_empty() {
                true
            } else if f < self.feature_to_group.len() {
                match self.feature_to_group[f] {
                    None => true,
                    Some(g) => {
                        assert(lookup[f as int] == Some(g));
                        !any || used[g]
                    },
                }
            } else {
                true
            };
            proof {
                reveal(Seq::filter);
                assert(all.take(f + 1).drop_last() =~= all.take(f as int));
                assert(all.take(f + 1).last() == f);
                assert(ok == keep(f));
            }
            if ok {
                allowed.push(f);
            }
            f = f + 1;
        }
        assert(all.take(f as int) =~= all);
        allowed
    }

    /// The groups.
    pub fn groups(&self) -> (r: &[Vec<usize>])
        ensures
            lists(r@) == self@.groups,
    {
        self.groups.as_slice()
    }
}

impl Clone for InteractionConstraints {
    fn clone(&self) -> (r: Self)
        ensures
            r@ == self@,
    {
        proof {
            use_type_invariant(self);
        }
        let mut groups: Vec<Vec<usize>> = Vec::new();
        let mut i: usize = 0;
        while i < self.groups.len()
            invariant
                i <= self.groups.len(),
                groups@.len() == i,
                forall|k: int| 0 <= k < i ==> (#[trigger] groups@[k])@ == self.groups@[k]@,
            decreases self.groups.len() - i,
        {
            groups.push(crate::tree::vector_tree::copy_list(self.groups[i].as_slice()));
            i = i + 1;
        }
        assert(lists(groups@) =~= lists(self.groups@));
        InteractionConstraints {
            groups,
            feature_to_group: crate::tree::vector_tree::copy_list(self.feature_to_group.as_slice()),
        }
    }
}

impl Default for InteractionConstraints {
    /// The same as [`InteractionConstraints::new`].
    fn default() -> (r: Self)
        ensures
            r@ == (Groups { groups: Seq::empty(), lookup: Seq::empty() }),
    {
        InteractionConstraints::new()
    }
}

proof fn lemma_used_push(lookup: Seq<Option<usize>>, before: Seq<usize>, feature: usize)
    ensures
        any_group_used(lookup, before.push(feature)) == (any_group_used(lookup, before) || (feature
            < lookup.len() && lookup[feature as int] is Some)),
        forall|g: usize| #[trigger]
            group_used(lookup, before.push(feature), g) == (group_used(lookup, before, g) || (
            feature < lookup.len() && lookup[feature as int] == Some(g))),
{
    let now = before.push(feature);
    assert(now[before.len() as int] == feature);
    if any_group_used(lookup, before) {
        let i = choose|i: int|
            0 <= i < before.len() && 0 <= (#[trigger] before[i]) < lookup.len()
                && lookup[before[i] as int] is Some;
        assert(now[i] == before[i]);
    }
    if any_group_used(lookup, now) {
        let i = choose|i: int|
            0 <= i < now.len() && 0 <= (#[trigger] now[i]) < lookup.len()
                && lookup[now[i] as int] is Some;
        if i < before.len() {
            assert(before[i] == now[i]);
        }
    }
    assert forall|g: usize| #[trigger]
        group_used(lookup, now, g) == (group_used(lookup, before, g) || (feature < lookup.len()
            && lookup[feature as int] == Some(g))) by {
        if group_used(lookup, before, g) {
            let i = choose|i: int|
                0 <= i < before.len() && 0 <= (#[trigger] before[i]) < lookup.len()
                    && lookup[before[i] as int] == Some(g);
            assert(now[i] == before[i]);
        }
        if group_used(lookup, now, g) {
            let i = choose|i: int|
                0 <= i < now.len() && 0 <= (#[trigger] now[i]) < lookup.len()
                    && lookup[now[i] as int] == Some(g);
            if i < before.len() {
                assert(before[i] == now[i]);
            }
        }
    }
}

/// Without ancestors every feature is allowed.
pub proof fn law_root_allows_all(groups: Groups, f: int)
    ensures
        groups.allows(Seq::empty(), f),
{
}

/// A feature without a group is always allowed.
pub proof fn law_ungrouped_is_allowed(groups: Groups, ancestors: Seq<usize>, f: int)
    requires
        groups.group(f) is None,
    ensures
        groups.allows(ancestors, f),
{
}

/// A feature that was used on the path may be used again.
pub proof fn law_used_stays_allowed(groups: Groups, ancestors: Seq<usize>, i: int)
    requires
        0 <= i < ancestors.len(),
    ensures
        groups.allows(ancestors, ancestors[i] as int),
{
    let f = ancestors[i] as int;
    if groups.group(f) is Some {
        assert(group_used(groups.lookup, ancestors, groups.group(f)->Some_0));
    }
}

/// On a path that only uses what is allowed, all features that have a group
/// have the same one.
pub proof fn law_one_group_per_path(groups: Groups, path: Seq<usize>, i: int, j: int)
    requires
        groups.groups.len() > 0,
        forall|k: int| 0 <= k < path.len() ==> #[trigger] groups.allows(path.take(k), path[k] as int),
        0 <= i < j < path.len(),
        groups.group(path[i] as int) is Some,
        groups.group(path[j] as int) is Some,
    ensures
        groups.group(path[i] as int) == groups.group(path[j] as int),
    decreases j,
{
    let above = path.take(j);
    assert(groups.allows(above, path[j] as int));
    assert(above[i] == path[i]);
    assert(any_group_used(groups.lookup, above));
    let g = groups.group(path[j] as int)->Some_0;
    assert(group_used(groups.lookup, above, g));
    let m = choose|m: int|
        0 <= m < above.len() && 0 <= (#[trigger] above[m]) < groups.lookup.len()
            && groups.lookup[above[m] as int] == Some(g);
    assert(above[m] == path[m]);
    if m < i {
        law_one_group_per_path(groups, path, m, i);
    } else if i < m {
        law_one_group_per_path(groups, path, i, m);
    }
}

} // verus!
