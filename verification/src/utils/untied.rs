//! Untied parameters.
//!
//! A virtual-layer stack ties the weights of a real layer across every
//! application of it. An **untied** parameter holds one copy per application
//! instead. The copies lie side by side along one of its existing axes, so it
//! keeps its rank and its name, and a real layer built for a single application
//! keeps its stock shape. Application `k` reads its own copy back through
//! [`view`].
//!
//! - The copies start tied: [`tile`] copies one initialisation into every
//!   application, and [`retie`] resets them to it.
//! - The count is fixed at the build: a real layer that runs more often than
//!   it was built for has no copy for the extra applications.
use vstd::arithmetic::div_mod;
use vstd::prelude::*;

verus! {

/// A parameter stored once per application: which one, and the axis of its
/// side-by-side copies.
#[derive(Debug, Clone, Copy, PartialEq, Eq, Structural)]
pub struct UntiedParam {
    /// The parameter.
    pub id: u64,
    /// The axis along which its per-application copies are concatenated.
    pub axis: usize,
}

impl UntiedParam {
    /// The parameter `id` of `rank` dimensions, with its copies along `axis`.
    pub fn new(id: u64, rank: usize, axis: usize) -> (param: Self)
        requires
            axis < rank,
        ensures
            param == (UntiedParam { id, axis }),
    {
        UntiedParam { id, axis }
    }
}

/// The dimensions of a parameter copied `n_applications` times along `axis`:
/// the untied layout of a newly initialised parameter. A single application is
/// the parameter itself.
pub fn tile(dims: &Vec<usize>, axis: usize, n_applications: usize) -> (tiled: Vec<usize>)
    requires
        axis < dims@.len(),
        n_applications >= 1,
        dims@[axis as int] * n_applications <= usize::MAX,
    ensures
        tiled@ == dims@.update(axis as int, (dims@[axis as int] * n_applications) as usize),
{
    let mut tiled = dims.clone();
    assert(tiled@ =~= dims@);
    let len: usize = tiled[axis];
    tiled.set(axis, len * n_applications);
    tiled
}

/// The element of the single draw that element `i` of the tiled axis copies.
pub open spec fn tile_source(len: int, i: int) -> int {
    i % len
}

/// The untied axis of the parameter `id`, if it is untied: that of its first
/// entry.
pub open spec fn spec_axis_of(params: Seq<UntiedParam>, id: u64) -> Option<usize>
    decreases params.len(),
{
    if params.len() == 0 {
        None
    } else if params[0].id == id {
        Some(params[0].axis)
    } else {
        spec_axis_of(params.skip(1), id)
    }
}

/// The untied axis of the parameter `id`, if it is untied.
pub fn axis_of(params: &[UntiedParam], id: u64) -> (axis: Option<usize>)
    ensures
        axis == spec_axis_of(params@, id),
{
    let mut i: usize = 0;
    assert(params@.skip(0) =~= params@);
    while i < params.len()
        invariant
            i <= params@.len(),
            spec_axis_of(params@, id) == spec_axis_of(params@.skip(i as int), id),
        decreases params@.len() - i,
    {
        assert(params@.skip(i as int).skip(1) =~= params@.skip(i + 1));
        if params[i].id == id {
            return Some(params[i].axis);
        }
        i = i + 1;
    }
    None
}

/// Whether a parameter holds `n_applications` copies along `axis`.
pub open spec fn holds_copies(dims: Seq<usize>, axis: int, n_applications: int) -> bool {
    &&& 0 <= axis < dims.len()
    &&& 0 < n_applications
    &&& dims[axis] as int % n_applications == 0
}

/// Length of the copy of one application along `axis`.
pub fn copy_len(dims: &Vec<usize>, axis: usize, n_applications: usize) -> (len: usize)
    requires
        holds_copies(dims@, axis as int, n_applications as int),
    ensures
        len == dims@[axis as int] as int / n_applications as int,
        len * n_applications == dims@[axis as int],
{
    proof {
        div_mod::lemma_fundamental_div_mod(dims@[axis as int] as int, n_applications as int);
        assert((dims@[axis as int] as int / n_applications as int) * n_applications
            == n_applications * (dims@[axis as int] as int / n_applications as int))
            by (nonlinear_arith);
    }
    dims[axis] / n_applications
}

/// The part of a parameter that its `application`-th application reads, along
/// `axis`: where it starts, and its length.
pub fn view(dims: &Vec<usize>, axis: usize, application: usize, n_applications: usize) -> (range: (
    usize,
    usize,
))
    requires
        holds_copies(dims@, axis as int, n_applications as int),
        application < n_applications,
    ensures
        range.1 == dims@[axis as int] as int / n_applications as int,
        range.0 == application * range.1,
        range.0 + range.1 <= dims@[axis as int],
{
    let len: usize = copy_len(dims, axis, n_applications);
    proof {
        copies_lie_side_by_side(
            dims@[axis as int] as int,
            n_applications as int,
            application as int,
        );
    }
    (application * len, len)
}

/// Whether every untied parameter has to be reset to copies of its first
/// application. With a single application, or nothing untied, the copies are
/// the parameters themselves.
pub fn retie(params: &[UntiedParam], n_applications: usize) -> (resets: bool)
    ensures
        resets == (n_applications != 1 && params@.len() != 0),
{
    !(n_applications == 1 || params.len() == 0)
}

/// The copies of the applications lie side by side and fill the axis: each one
/// starts where the one before ends, and the last ends with the axis.
pub proof fn copies_lie_side_by_side(width: int, n_applications: int, application: int)
    requires
        0 <= width,
        0 < n_applications,
        width % n_applications == 0,
        0 <= application < n_applications,
    ensures
        ({
            let len = width / n_applications;
            &&& 0 <= application * len
            &&& (application + 1) * len == application * len + len
            &&& (application + 1) * len <= width
            &&& application + 1 == n_applications ==> (application + 1) * len == width
        }),
{
    let len = width / n_applications;
    div_mod::lemma_fundamental_div_mod(width, n_applications);
    div_mod::lemma_div_pos_is_pos(width, n_applications);
    assert((application + 1) * len == application * len + len) by (nonlinear_arith);
    assert(0 <= application * len) by (nonlinear_arith)
        requires
            0 <= application,
            0 <= len,
    ;
    assert((application + 1) * len <= n_applications * len) by (nonlinear_arith)
        requires
            application + 1 <= n_applications,
            0 <= len,
    ;
}

/// Every application of a newly tiled parameter reads the one draw: its copy
/// is the draw, element for element.
pub proof fn copies_start_tied(len: int, n_applications: int, application: int, i: int)
    requires
        0 < len,
        0 <= application < n_applications,
        0 <= i < len,
    ensures
        (len * n_applications) % n_applications == 0,
        (len * n_applications) / n_applications == len,
        tile_source(len, application * len + i) == i,
{
    div_mod::lemma_mod_multiples_basic(len, n_applications);
    div_mod::lemma_div_by_multiple(len, n_applications);
    assert(application * len == len * application) by (nonlinear_arith);
    div_mod::lemma_fundamental_div_mod_converse(application * len + i, len, application, i);
}

/// An untied parameter is found by its id, and the first entry with that id names its
/// axis.
pub proof fn the_first_entry_names_the_axis(params: Seq<UntiedParam>, id: u64, i: int)
    requires
        0 <= i <= params.len(),
        forall|j: int| 0 <= j < i ==> (#[trigger] params[j]).id != id,
        i < params.len() ==> params[i].id == id,
    ensures
        i == params.len() ==> spec_axis_of(params, id) is None,
        i < params.len() ==> spec_axis_of(params, id) == Some(params[i].axis),
    decreases params.len(),
{
    if params.len() > 0 && i > 0 {
        let rest = params.skip(1);
        assert(params[0].id != id);
        assert forall|j: int| 0 <= j < i - 1 implies (#[trigger] rest[j]).id != id by {
            assert(params[j + 1].id != id);
        }
        the_first_entry_names_the_axis(rest, id, i - 1);
    }
}

/// A parameter holds its copies where they divide the axis evenly.
pub proof fn copies_divide_the_axis(dims: Seq<usize>, axis: int, n_applications: int, len: int)
    requires
        0 <= axis < dims.len(),
        0 < n_applications,
        0 <= len,
    ensures
        dims[axis] == len * n_applications ==> holds_copies(dims, axis, n_applications),
        holds_copies(dims, axis, n_applications) ==> dims[axis] as int / n_applications
            * n_applications == dims[axis],
{
    if dims[axis] == len * n_applications {
        vstd::arithmetic::div_mod::lemma_mod_multiples_basic(len, n_applications);
    }
    vstd::arithmetic::div_mod::lemma_fundamental_div_mod(dims[axis] as int, n_applications);
    assert(n_applications * (dims[axis] as int / n_applications) == dims[axis] as int
        / n_applications * n_applications) by (nonlinear_arith);
}

} // verus!
