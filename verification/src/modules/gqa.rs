//! Grouped-query expansion: from one vector per group to one per head.
use vstd::arithmetic::div_mod;
use vstd::prelude::*;

verus! {

/// The shapes of a grouped-query expansion.
#[derive(Debug, Clone, PartialEq, Eq)]
pub struct GqaShapes {
    /// The shape that repeats each group over its heads: the head axis right
    /// after the group axis.
    pub expanded: Vec<usize>,
    /// The shape that collapses the two axes into one of `nheads`.
    pub final_shape: Vec<usize>,
}

/// Whether the groups at `group_dim` expand to `nheads` heads.
pub open spec fn expands(dims: Seq<usize>, group_dim: int, nheads: int) -> bool {
    &&& 0 <= group_dim < dims.len()
    &&& dims[group_dim] != 0
    &&& nheads % dims[group_dim] as int == 0
}

/// The shapes that expand the `ngroups` dimension at `group_dim` into an
/// `nheads` dimension. The slice of each group is replicated across the
/// `nheads / ngroups` heads of that group.
pub fn gqa_expand_to_heads(dims: &Vec<usize>, group_dim: usize, nheads: usize) -> (shapes:
    GqaShapes)
    requires
        expands(dims@, group_dim as int, nheads as int),
    ensures
        shapes.expanded@ == dims@.insert(
            group_dim + 1,
            (nheads as int / dims@[group_dim as int] as int) as usize,
        ),
        shapes.final_shape@ == dims@.update(group_dim as int, nheads),
{
    let ngroups: usize = dims[group_dim];
    let heads_per_group: usize = nheads / ngroups;
    let mut expanded: Vec<usize> = Vec::new();
    let mut final_shape: Vec<usize> = Vec::new();
    let mut i: usize = 0;
    while i < dims.len()
        invariant
            i <= dims@.len(),
            group_dim < dims@.len(),
            ngroups == dims@[group_dim as int],
            final_shape.len() == i,
            expanded.len() == (if i <= group_dim {
                i as int
            } else {
                i + 1
            }),
            forall|j: int|
                0 <= j < i ==> #[trigger] final_shape@[j] == dims@.update(
                    group_dim as int,
                    nheads,
                )[j],
            forall|j: int|
                0 <= j < expanded@.len() ==> #[trigger] expanded@[j] == dims@.insert(
                    group_dim + 1,
                    heads_per_group,
                )[j],
        decreases dims@.len() - i,
    {
        expanded.push(dims[i]);
        if i == group_dim {
            expanded.push(heads_per_group);
            final_shape.push(nheads);
        } else {
            final_shape.push(dims[i]);
        }
        i = i + 1;
    }
    assert(expanded@ =~= dims@.insert(group_dim + 1, heads_per_group));
    assert(final_shape@ =~= dims@.update(group_dim as int, nheads));
    GqaShapes { expanded, final_shape }
}

/// Whether the groups at `group_dim` expand to `nheads` heads.
pub fn can_expand(dims: &Vec<usize>, group_dim: usize, nheads: usize) -> (ok: bool)
    ensures
        ok == expands(dims@, group_dim as int, nheads as int),
{
    group_dim < dims.len() && dims[group_dim] != 0 && nheads % dims[group_dim] == 0
}

/// The group that head `h` reads, after the collapse of the two axes.
pub open spec fn group_of(h: int, ngroups: int, nheads: int) -> int {
    h / (nheads / ngroups)
}

/// Every head reads a group that exists, and the heads of one group lie side by
/// side: head `r` of group `g` is head `g * (nheads / ngroups) + r`.
pub proof fn heads_of_a_group_lie_side_by_side(ngroups: int, nheads: int, g: int, r: int)
    requires
        0 < ngroups,
        0 <= nheads,
        nheads % ngroups == 0,
        0 <= g < ngroups,
        0 <= r < nheads / ngroups,
    ensures
        0 <= g * (nheads / ngroups) + r < nheads,
        group_of(g * (nheads / ngroups) + r, ngroups, nheads) == g,
{
    let n = nheads / ngroups;
    div_mod::lemma_fundamental_div_mod(nheads, ngroups);
    assert(g * n + r < nheads && 0 <= g * n) by (nonlinear_arith)
        requires
            0 <= g < ngroups,
            0 <= r < n,
            nheads == ngroups * n,
    ;
    div_mod::lemma_fundamental_div_mod_converse(g * n + r, n, g, r);
}

/// Groups expand to heads where every group gets as many heads as the others.
pub proof fn heads_divide_evenly_among_groups(
    dims: Seq<usize>,
    group_dim: int,
    nheads: int,
    per_group: int,
)
    requires
        0 <= per_group,
    ensures
        0 <= group_dim < dims.len() && dims[group_dim] > 0 && nheads == per_group * dims[group_dim]
            ==> expands(dims, group_dim, nheads) && nheads / dims[group_dim] as int == per_group,
        expands(dims, group_dim, nheads) ==> 0 <= group_dim < dims.len() && dims[group_dim] > 0
            && nheads / dims[group_dim] as int * dims[group_dim] == nheads,
{
    if 0 <= group_dim < dims.len() && dims[group_dim] > 0 {
        let n = dims[group_dim] as int;
        vstd::arithmetic::div_mod::lemma_mod_multiples_basic(per_group, n);
        vstd::arithmetic::div_mod::lemma_div_by_multiple(per_group, n);
        vstd::arithmetic::div_mod::lemma_fundamental_div_mod(nheads, n);
        assert(n * (nheads / n) == nheads / n * n) by (nonlinear_arith);
    }
}

} // verus!
