//! Column layout of the fused projection weights: the data the Muon parameter
//! groups are built from.
//!
//! Several independent linear maps are fused into one projection, so a block's
//! weight tensor is a *concatenation* of matrices along its output (column)
//! axis. Muon orthogonalises a whole matrix at once, so it must be told where
//! those seams are; a [`ProjSpec`] is that description.
use crate::utils::text;
use burn::module::ParamGroup;
use vstd::prelude::*;

verus! {

/// The field names a block is stored under. Matching a block weight under any
/// of them makes a [`ProjSpec`] independent of the container. Every entry ends
/// in `"block."`, which is what [`ProjSpec::predicates`] matches on.
pub const BLOCK_CONTAINERS: [&'static str; 3] = ["block.", "straight_block.", "reverse_block."];

/// Where in the module tree a [`ProjSpec`]'s path is anchored.
#[derive(Debug, Clone, Copy, PartialEq, Eq, Structural)]
pub enum ProjScope {
    /// A weight of the mixer block: the path is matched under each of
    /// [`BLOCK_CONTAINERS`].
    Block,
    /// Any other weight: the path is matched as a plain substring of the
    /// parameter path (the layer MLP, a bidirectional merge).
    Path,
}

/// One contiguous column block of a fused projection weight.
///
/// `width` is the number of *columns* the block owns.
#[derive(Debug, Clone, PartialEq, Eq)]
pub struct ProjSegment {
    /// Name of the sub-projection, for diagnostics (`"z"`, `"b"`, `"dt"`).
    pub name: &'static str,
    /// Number of columns this segment spans.
    pub width: usize,
    /// Whether Muon owns this segment (`false`: it stays on the fallback
    /// optimizer).
    pub muon: bool,
}

impl ProjSegment {
    /// A segment Muon orthogonalises on its own.
    pub fn muon(name: &'static str, width: usize) -> (segment: Self)
        ensures
            segment == (ProjSegment { name, width, muon: true }),
    {
        ProjSegment { name, width, muon: true }
    }

    /// A segment left to the fallback optimizer: the channels that produce
    /// *per-head scalars* rather than a feature vector.
    pub fn adamw(name: &'static str, width: usize) -> (segment: Self)
        ensures
            segment == (ProjSegment { name, width, muon: false }),
    {
        ProjSegment { name, width, muon: false }
    }
}

/// Text that can name a parameter path.
pub trait IntoPath {
    /// The path.
    spec fn path(self) -> Seq<char>;

    /// The path as an owned string.
    fn into_path(self) -> (path: String)
        ensures
            path@ == self.path(),
    ;
}

impl IntoPath for &str {
    open spec fn path(self) -> Seq<char> {
        self@
    }

    fn into_path(self) -> (path: String) {
        self.to_owned()
    }
}

impl IntoPath for String {
    open spec fn path(self) -> Seq<char> {
        self@
    }

    fn into_path(self) -> (path: String) {
        self
    }
}

/// One 2-D weight tensor and how its columns split into independent maps.
#[derive(Debug, Clone, PartialEq, Eq)]
pub struct ProjSpec {
    /// Trailing part of the parameter path identifying the weight, e.g.
    /// `"in_proj.weight"`, anchored per [`Self::scope`].
    pub path: String,
    /// Where `path` is anchored.
    pub scope: ProjScope,
    /// The column blocks, in order; their widths must sum to the weight's
    /// output width.
    pub segments: Vec<ProjSegment>,
    /// Whether the weight holds one copy of the segments per application of
    /// its layer (an untied weight).
    pub tiled: bool,
}

/// The columns of the first `n` segments.
pub open spec fn columns(segments: Seq<ProjSegment>) -> int
    decreases segments.len(),
{
    if segments.len() == 0 {
        0
    } else {
        columns(segments.drop_last()) + segments.last().width
    }
}

/// The columns of the segments that Muon owns.
pub open spec fn muon_columns(segments: Seq<ProjSegment>) -> int
    decreases segments.len(),
{
    if segments.len() == 0 {
        0
    } else {
        muon_columns(segments.drop_last()) + (if segments.last().muon {
            segments.last().width as int
        } else {
            0
        })
    }
}

/// Taking fewer segments takes no more columns.
pub proof fn lemma_columns_grow(segments: Seq<ProjSegment>, n: int)
    requires
        0 <= n <= segments.len(),
    ensures
        0 <= columns(segments.take(n)) <= columns(segments),
        0 <= muon_columns(segments.take(n)) <= muon_columns(segments),
    decreases segments.len(),
{
    if n == segments.len() {
        assert(segments.take(n) =~= segments);
        if n > 0 {
            lemma_columns_grow(segments.drop_last(), n - 1);
            assert(segments.drop_last().take(n - 1) =~= segments.drop_last());
        }
    } else {
        lemma_columns_grow(segments.drop_last(), n);
        assert(segments.drop_last().take(n) =~= segments.take(n));
    }
}

/// Muon owns no more columns than there are.
pub proof fn lemma_muon_columns_within(segments: Seq<ProjSegment>)
    ensures
        0 <= muon_columns(segments) <= columns(segments),
    decreases segments.len(),
{
    if segments.len() > 0 {
        lemma_muon_columns_within(segments.drop_last());
    }
}

/// Whether Muon owns some segment.
pub open spec fn some_muon(segments: Seq<ProjSegment>) -> bool {
    exists|i: int| 0 <= i < segments.len() && (#[trigger] segments[i]).muon
}

impl ProjSpec {
    /// A fused weight of the mixer block.
    pub fn block(path: impl IntoPath, segments: Vec<ProjSegment>) -> (spec: Self)
        ensures
            spec.path@ == path.path(),
            spec.scope is Block,
            spec.segments@ == segments@,
            !spec.tiled,
    {
        ProjSpec { path: path.into_path(), scope: ProjScope::Block, segments, tiled: false }
    }

    /// An unfused weight of the mixer block, Muon owns it in full.
    pub fn block_whole(path: impl IntoPath, width: usize) -> (spec: Self)
        ensures
            spec.path@ == path.path(),
            spec.scope is Block,
            spec.segments@ == seq![ProjSegment { name: "all", width, muon: true }],
            !spec.tiled,
    {
        Self::block(path, vec![ProjSegment::muon("all", width)])
    }

    /// A fused weight matched by plain path substring.
    pub fn path(path: impl IntoPath, segments: Vec<ProjSegment>) -> (spec: Self)
        ensures
            spec.path@ == path.path(),
            spec.scope is Path,
            spec.segments@ == segments@,
            !spec.tiled,
    {
        ProjSpec { path: path.into_path(), scope: ProjScope::Path, segments, tiled: false }
    }

    /// An unfused weight matched by plain path substring, Muon owns it in full.
    pub fn path_whole(path: impl IntoPath, width: usize) -> (spec: Self)
        ensures
            spec.path@ == path.path(),
            spec.scope is Path,
            spec.segments@ == seq![ProjSegment { name: "all", width, muon: true }],
            !spec.tiled,
    {
        Self::path(path, vec![ProjSegment::muon("all", width)])
    }

    /// The same weight, holding one copy of the segments per application of
    /// its layer.
    pub fn tiled(self) -> (spec: Self)
        ensures
            spec == (ProjSpec { tiled: true, ..self }),
    {
        ProjSpec { tiled: true, ..self }
    }

    /// Total output width (sum of the segment widths).
    pub fn width(&self) -> (width: usize)
        requires
            columns(self.segments@) <= usize::MAX,
        ensures
            width == columns(self.segments@),
    {
        let mut width: usize = 0;
        let mut i: usize = 0;
        assert(self.segments@.take(0) =~= Seq::<ProjSegment>::empty());
        while i < self.segments.len()
            invariant
                i <= self.segments@.len(),
                columns(self.segments@) <= usize::MAX,
                width == columns(self.segments@.take(i as int)),
            decreases self.segments@.len() - i,
        {
            proof {
                let next = self.segments@.take(i + 1);
                assert(next.drop_last() =~= self.segments@.take(i as int));
                lemma_columns_grow(self.segments@, i + 1);
            }
            width = width + self.segments[i].width;
            i = i + 1;
        }
        assert(self.segments@.take(i as int) =~= self.segments@);
        width
    }

    /// Total output width. `None`: it does not fit the machine integers.
    pub(crate) fn checked_width(&self) -> (width: Option<usize>)
        ensures
            width is Some == (columns(self.segments@) <= usize::MAX),
            width matches Some(width) ==> width == columns(self.segments@),
    {
        let mut width: usize = 0;
        let mut i: usize = 0;
        assert(self.segments@.take(0) =~= Seq::<ProjSegment>::empty());
        while i < self.segments.len()
            invariant
                i <= self.segments@.len(),
                width == columns(self.segments@.take(i as int)),
            decreases self.segments@.len() - i,
        {
            proof {
                let next = self.segments@.take(i + 1);
                assert(next.drop_last() =~= self.segments@.take(i as int));
                lemma_columns_grow(self.segments@, i + 1);
            }
            width = match width.checked_add(self.segments[i].width) {
                Some(sum) => sum,
                None => {
                    return None;
                },
            };
            i = i + 1;
        }
        assert(self.segments@.take(i as int) =~= self.segments@);
        Some(width)
    }

    /// How many columns Muon owns.
    pub fn muon_width(&self) -> (width: usize)
        requires
            muon_columns(self.segments@) <= usize::MAX,
        ensures
            width == muon_columns(self.segments@),
    {
        let mut width: usize = 0;
        let mut i: usize = 0;
        assert(self.segments@.take(0) =~= Seq::<ProjSegment>::empty());
        while i < self.segments.len()
            invariant
                i <= self.segments@.len(),
                muon_columns(self.segments@) <= usize::MAX,
                width == muon_columns(self.segments@.take(i as int)),
            decreases self.segments@.len() - i,
        {
            proof {
                let next = self.segments@.take(i + 1);
                assert(next.drop_last() =~= self.segments@.take(i as int));
                lemma_columns_grow(self.segments@, i + 1);
            }
            if self.segments[i].muon {
                width = width + self.segments[i].width;
            }
            i = i + 1;
        }
        assert(self.segments@.take(i as int) =~= self.segments@);
        width
    }

    /// How many columns Muon owns. `None`: the count does not fit the machine
    /// integers.
    pub fn checked_muon_width(&self) -> (width: Option<usize>)
        ensures
            width is Some == (muon_columns(self.segments@) <= usize::MAX),
            width matches Some(width) ==> width == muon_columns(self.segments@),
    {
        let mut width: usize = 0;
        let mut i: usize = 0;
        assert(self.segments@.take(0) =~= Seq::<ProjSegment>::empty());
        while i < self.segments.len()
            invariant
                i <= self.segments@.len(),
                width == muon_columns(self.segments@.take(i as int)),
            decreases self.segments@.len() - i,
        {
            proof {
                let next = self.segments@.take(i + 1);
                assert(next.drop_last() =~= self.segments@.take(i as int));
                lemma_columns_grow(self.segments@, i + 1);
            }
            if self.segments[i].muon {
                width = match width.checked_add(self.segments[i].width) {
                    Some(sum) => sum,
                    None => {
                        return None;
                    },
                };
            }
            i = i + 1;
        }
        assert(self.segments@.take(i as int) =~= self.segments@);
        Some(width)
    }

    /// Whether any segment is Muon's.
    pub fn has_muon(&self) -> (found: bool)
        ensures
            found == some_muon(self.segments@),
    {
        let mut i: usize = 0;
        while i < self.segments.len()
            invariant
                i <= self.segments@.len(),
                forall|j: int| 0 <= j < i ==> !(#[trigger] self.segments@[j]).muon,
            decreases self.segments@.len() - i,
        {
            if self.segments[i].muon {
                return true;
            }
            i = i + 1;
        }
        false
    }

    /// Whether Muon owns the whole tensor as a single block, no splitting
    /// needed.
    pub open spec fn spec_is_whole_muon(self) -> bool {
        self.segments@.len() == 1 && self.segments@[0].muon && !self.tiled
    }

    /// Whether Muon owns the whole tensor as a single block (so stock Muon
    /// applies directly, no splitting needed). A tiled weight holds one block
    /// per copy.
    pub fn is_whole_muon(&self) -> (whole: bool)
        ensures
            whole == self.spec_is_whole_muon(),
    {
        self.segments.len() == 1 && self.segments[0].muon && !self.tiled
    }

    /// The path substrings a parameter must all contain to be this spec's.
    pub open spec fn spec_predicates(self) -> Seq<Seq<char>> {
        match self.scope {
            ProjScope::Block => seq!["block."@, self.path@],
            ProjScope::Path => seq![self.path@],
        }
    }

    /// The path substrings a parameter must **all** contain to be this spec's:
    /// its own path and, under [`ProjScope::Block`], a block container.
    ///
    /// Two substrings rather than one concatenation, because a block need not
    /// sit *directly* under the container field: a block that is an `enum`
    /// carries its variant name in between.
    pub fn predicates(&self) -> (predicates: Vec<String>)
        ensures
            text::views(predicates@) == self.spec_predicates(),
    {
        match self.scope {
            ProjScope::Block => {
                let predicates = vec!["block.".to_owned(), self.path.clone()];
                assert(text::views(predicates@) =~= self.spec_predicates());
                predicates
            },
            ProjScope::Path => {
                let predicates = vec![self.path.clone()];
                assert(text::views(predicates@) =~= self.spec_predicates());
                predicates
            },
        }
    }

    /// Whether the parameter at `path` is this spec's.
    pub open spec fn selects(self, path: Seq<char>) -> bool {
        all_within(self.spec_predicates(), path)
    }

    /// The parameter group selecting this weight (AND over
    /// [`Self::predicates`]).
    pub fn param_group(&self) -> (group: ParamGroup)
        ensures
            group_is_inclusive(group),
            group_includes(group) == self.spec_predicates(),
    {
        group_from_predicates(self.predicates())
    }

    /// Whether the parameter `id` at `path` is in this spec's group.
    pub fn selects_param(&self, id: u64, path: &str) -> (selected: bool)
        ensures
            selected == self.selects(path@),
    {
        let group = self.param_group();
        group_matches(&group, id, path)
    }
}

/// Whether every one of `parts` is a contiguous part of `path`.
pub open spec fn all_within(parts: Seq<Seq<char>>, path: Seq<char>) -> bool {
    forall|i: int| 0 <= i < parts.len() ==> text::within(#[trigger] parts[i], path)
}

/// Burn's description of a group of module parameters.
#[verifier::external_type_specification]
#[verifier::external_body]
pub struct ExParamGroup(ParamGroup);

/// Whether a group selects parameters by path substrings alone, all of which
/// must occur.
pub uninterp spec fn group_is_inclusive(group: ParamGroup) -> bool;

/// The path substrings that an inclusive group asks for.
pub uninterp spec fn group_includes(group: ParamGroup) -> Seq<Seq<char>>;

/// Calls Burn's `ParamGroup::from_predicates`: the group that selects a
/// parameter when its path includes every one of `paths`, and that holds them
/// in their order.
#[verifier::external_body]
fn group_from_predicates(paths: Vec<String>) -> (group: ParamGroup)
    ensures
        group_is_inclusive(group),
        group_includes(group) == text::views(paths@),
{
    ParamGroup::from_predicates(paths)
}

/// Calls Burn's `ParamGroup::matches` with a path: a group that selects by path
/// substrings alone matches a parameter, whatever its id, exactly when its path
/// contains all of them.
#[verifier::external_body]
fn group_matches(group: &ParamGroup, id: u64, path: &str) -> (matched: bool)
    requires
        group_is_inclusive(*group),
    ensures
        matched == all_within(group_includes(*group), path@),
{
    group.matches(&burn::module::ParamId::from(id), Some(path))
}

/// Every block container is selected by the one substring that a block spec
/// asks for.
pub proof fn block_containers_end_in_block(i: int)
    requires
        0 <= i < 3,
    ensures
        text::within("block."@, BLOCK_CONTAINERS@[i]@),
{
    reveal_strlit("block.");
    reveal_strlit("straight_block.");
    reveal_strlit("reverse_block.");
    let name = BLOCK_CONTAINERS@[i]@;
    let at = name.len() - 6;
    assert(name.subrange(at, at + 6) =~= "block."@);
    assert(text::starts_at("block."@, name, at));
}

} // verus!
