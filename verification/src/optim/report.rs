//! Which optimizer each of a model's parameters lands on: the quickest way to
//! check a plan against a real model.
use crate::optim::plan;
use crate::optim::plan::MuonPlan;
use crate::optim::spec;
use crate::optim::spec::{ProjSegment, ProjSpec};
use crate::utils::text;
use vstd::arithmetic::div_mod;
use vstd::prelude::*;

verus! {

/// One parameter of a model.
#[derive(Debug, Clone, PartialEq, Eq)]
pub struct ParamRow {
    /// The path of the parameter in the module tree.
    pub path: String,
    /// The dimensions of its tensor.
    pub dims: Vec<usize>,
    /// Its id.
    pub id: u64,
}

/// A per-parameter report of a plan applied to a model.
#[derive(Debug, Clone, PartialEq, Eq)]
pub struct Report {
    /// One line per parameter: rank, path, shape, element count, and the
    /// owning optimizer.
    pub text: String,
    /// Elements in all parameters.
    pub total: usize,
    /// Elements in the columns that Muon owns, in every copy of a tiled weight.
    pub on_muon: usize,
}

/// The spec that owns the parameter at `path`: the last one that selects it and
/// that Muon owns a segment of. A spec that Muon owns nothing of plans nothing,
/// so the parameter stays with the fallback.
pub open spec fn owner(specs: Seq<ProjSpec>, path: Seq<char>) -> Option<int>
    decreases specs.len(),
{
    if specs.len() == 0 {
        None
    } else if specs.last().selects(path) && spec::some_muon(specs.last().segments@) {
        Some(specs.len() - 1)
    } else {
        owner(specs.drop_last(), path)
    }
}

/// The number of elements of a tensor of these dimensions.
pub open spec fn elements(dims: Seq<usize>) -> int
    decreases dims.len(),
{
    if dims.len() == 0 {
        1
    } else {
        elements(dims.drop_last()) * dims.last()
    }
}

/// The copies of its segments that a weight of these dimensions holds: one per
/// application of its layer where it is tiled.
pub open spec fn copies(s: ProjSpec, dims: Seq<usize>) -> int {
    if !s.tiled {
        1
    } else if spec::columns(s.segments@) == 0 {
        0
    } else {
        dims[1] as int / spec::columns(s.segments@)
    }
}

/// The columns that Muon owns of a weight of these dimensions, in all its
/// copies.
pub open spec fn owned_columns(s: ProjSpec, dims: Seq<usize>) -> int {
    spec::muon_columns(s.segments@) * copies(s, dims)
}

/// Whether a weight of these dimensions has the axes that its spec counts
/// along, and the columns of the spec fit the machine integers.
pub open spec fn has_columns(s: ProjSpec, dims: Seq<usize>) -> bool {
    &&& dims.len() > 0
    &&& spec::muon_columns(s.segments@) <= usize::MAX
    &&& s.tiled ==> dims.len() > 1 && spec::columns(s.segments@) <= usize::MAX
}

/// The elements of `row` in the columns that Muon owns.
pub open spec fn muon_elements(specs: Seq<ProjSpec>, row: ParamRow) -> int {
    match owner(specs, row.path@) {
        Some(i) => owned_columns(specs[i], row.dims@) * row.dims@[0],
        None => 0,
    }
}

/// The elements of all the rows.
pub open spec fn total_elements(rows: Seq<ParamRow>) -> int
    decreases rows.len(),
{
    if rows.len() == 0 {
        0
    } else {
        total_elements(rows.drop_last()) + elements(rows.last().dims@)
    }
}

/// The elements of all the rows in the columns that Muon owns.
pub open spec fn total_muon_elements(specs: Seq<ProjSpec>, rows: Seq<ParamRow>) -> int
    decreases rows.len(),
{
    if rows.len() == 0 {
        0
    } else {
        total_muon_elements(specs, rows.drop_last()) + muon_elements(specs, rows.last())
    }
}

/// Whether every count of the report fits the machine integers, and every
/// owned parameter has the axes that its spec counts along.
pub open spec fn countable(specs: Seq<ProjSpec>, rows: Seq<ParamRow>) -> bool {
    &&& forall|r: int, n: int|
        0 <= r < rows.len() && 0 <= n <= rows[r].dims@.len() ==> elements(
            #[trigger] rows[r].dims@.take(n),
        ) <= usize::MAX
    &&& forall|r: int|
        0 <= r < rows.len() ==> (owner(specs, (#[trigger] rows[r]).path@) matches Some(i)
            ==> has_columns(specs[i], rows[r].dims@))
    &&& total_elements(rows) <= usize::MAX
    &&& total_muon_elements(specs, rows) <= usize::MAX
}

/// A segment as the report names it: `*` marks one left to the fallback.
pub open spec fn segment_text(segment: ProjSegment) -> Seq<char> {
    segment.name@ + ":"@ + text::decimal(segment.width as int) + (if segment.muon {
        ""@
    } else {
        "*"@
    })
}

/// The owning optimizer as the report names it.
pub open spec fn owner_text(specs: Seq<ProjSpec>, path: Seq<char>) -> Seq<char> {
    match owner(specs, path) {
        Some(i) => "muon["@ + text::joined(
            specs[i].segments@.map_values(|s: ProjSegment| segment_text(s)),
            " "@,
        ) + "]"@,
        None => "adamw"@,
    }
}

/// The line of one parameter.
pub open spec fn row_text(specs: Seq<ProjSpec>, row: ParamRow) -> Seq<char> {
    text::padded_left(text::decimal(row.dims@.len() as int), 2) + "D "@ + text::padded_right(
        row.path@,
        62,
    ) + " "@ + text::list(row.dims@) + " ("@ + text::decimal(elements(row.dims@)) + ")  "@
        + owner_text(specs, row.path@)
}

/// The lines of all the parameters.
pub open spec fn rows_text(specs: Seq<ProjSpec>, rows: Seq<ParamRow>) -> Seq<char>
    decreases rows.len(),
{
    if rows.len() == 0 {
        Seq::empty()
    } else {
        rows_text(specs, rows.drop_last()) + row_text(specs, rows.last()) + "\n"@
    }
}

/// Whether the spec plans Muon for the parameter at `path`.
pub open spec fn plans(s: ProjSpec, path: Seq<char>) -> bool {
    s.selects(path) && spec::some_muon(s.segments@)
}

/// The owner is one of the specs that plan Muon for the path, and no later one
/// does.
pub proof fn lemma_owner(specs: Seq<ProjSpec>, path: Seq<char>)
    ensures
        match owner(specs, path) {
            Some(i) => {
                &&& 0 <= i < specs.len()
                &&& plans(specs[i], path)
                &&& forall|j: int| i < j < specs.len() ==> !plans(#[trigger] specs[j], path)
            },
            None => forall|j: int| 0 <= j < specs.len() ==> !plans(#[trigger] specs[j], path),
        },
    decreases specs.len(),
{
    if specs.len() > 0 {
        let front = specs.drop_last();
        lemma_owner(front, path);
        assert forall|j: int| 0 <= j < front.len() implies front[j] == #[trigger] specs[j] by {}
    }
}

/// The report names the optimizer that steps the parameter: the owner of a
/// path is the last planned group that selects it. Where there is no owner, no
/// planned group selects the path, and the fallback steps it.
pub proof fn report_names_the_last_planned_group(specs: Seq<ProjSpec>, path: Seq<char>)
    ensures
        match owner(specs, path) {
            Some(i) => exists|g: int|
                0 <= g < plan::owned(specs).len() && #[trigger] plan::owned(specs)[g] == i
                    && specs[i].selects(path) && forall|h: int|
                    g < h < plan::owned(specs).len()
                        ==> !specs[#[trigger] plan::owned(specs)[h]].selects(path),
            None => forall|g: int|
                0 <= g < plan::owned(specs).len()
                    ==> !specs[#[trigger] plan::owned(specs)[g]].selects(path),
        },
{
    lemma_owner(specs, path);
    plan::lemma_owned(specs);
    if let Some(i) = owner(specs, path) {
        assert(plans(specs[i], path));
        assert(plan::owned(specs).contains(i));
        let g = plan::owned(specs).index_of(i);
        assert(plan::owned(specs)[g] == i);
    }
}

proof fn lemma_totals_grow(specs: Seq<ProjSpec>, rows: Seq<ParamRow>, n: int)
    requires
        0 <= n <= rows.len(),
    ensures
        0 <= total_elements(rows.take(n)) <= total_elements(rows),
        0 <= total_muon_elements(specs, rows.take(n)) <= total_muon_elements(specs, rows),
    decreases rows.len(),
{
    if rows.len() > 0 {
        let front = rows.drop_last();
        lemma_elements_positive(rows.last().dims@);
        lemma_muon_elements_positive(specs, rows.last());
        lemma_totals_grow(specs, front, if n < rows.len() {
            n
        } else {
            n - 1
        });
        if n < rows.len() {
            assert(front.take(n) =~= rows.take(n));
        } else {
            assert(rows.take(n) =~= rows);
            assert(front.take(n - 1) =~= front);
        }
    } else {
        assert(rows.take(n) =~= rows);
    }
}

proof fn lemma_elements_positive(dims: Seq<usize>)
    ensures
        0 <= elements(dims),
    decreases dims.len(),
{
    if dims.len() > 0 {
        lemma_elements_positive(dims.drop_last());
        assert(0 <= elements(dims.drop_last()) * dims.last()) by (nonlinear_arith)
            requires
                0 <= elements(dims.drop_last()),
        ;
    }
}

proof fn lemma_muon_elements_positive(specs: Seq<ProjSpec>, row: ParamRow)
    ensures
        0 <= muon_elements(specs, row),
{
    if let Some(i) = owner(specs, row.path@) {
        lemma_owned_columns(specs[i], row.dims@);
        assert(0 <= owned_columns(specs[i], row.dims@) * row.dims@[0]) by (nonlinear_arith)
            requires
                0 <= owned_columns(specs[i], row.dims@),
        ;
    }
}

/// The copies of a tiled weight lie side by side, so Muon owns no more columns
/// than it has.
proof fn lemma_owned_columns(s: ProjSpec, dims: Seq<usize>)
    ensures
        0 <= copies(s, dims),
        0 <= owned_columns(s, dims),
        s.tiled ==> owned_columns(s, dims) <= dims[1],
{
    let width = spec::columns(s.segments@);
    let muon = spec::muon_columns(s.segments@);
    spec::lemma_muon_columns_within(s.segments@);
    if s.tiled && width != 0 {
        let n = dims[1] as int / width;
        div_mod::lemma_fundamental_div_mod(dims[1] as int, width);
        div_mod::lemma_div_pos_is_pos(dims[1] as int, width);
        assert(0 <= muon * n <= dims[1]) by (nonlinear_arith)
            requires
                0 <= muon <= width,
                0 <= n,
                dims[1] == width * n + dims[1] as int % width,
                0 <= dims[1] as int % width,
        ;
    } else {
        assert(muon * 0 == 0);
        assert(muon * 1 == muon);
    }
}

/// The columns that Muon owns of a weight of these dimensions, in all its
/// copies.
fn count_owned_columns(spec: &ProjSpec, dims: &Vec<usize>) -> (count: usize)
    requires
        has_columns(*spec, dims@),
    ensures
        count == owned_columns(*spec, dims@),
{
    let muon: usize = spec.muon_width();
    proof {
        lemma_owned_columns(*spec, dims@);
        assert(muon * 1 == muon);
    }
    if !spec.tiled {
        return muon;
    }
    let width: usize = spec.width();
    if width == 0 {
        assert(muon * 0 == 0);
        return 0;
    }
    muon * (dims[1] / width)
}

/// The number of elements of a tensor of these dimensions.
fn count_elements(dims: &Vec<usize>) -> (count: usize)
    requires
        forall|n: int| 0 <= n <= dims@.len() ==> elements(#[trigger] dims@.take(n)) <= usize::MAX,
    ensures
        count == elements(dims@),
{
    let mut count: usize = 1;
    let mut i: usize = 0;
    assert(dims@.take(0) =~= Seq::<usize>::empty());
    while i < dims.len()
        invariant
            i <= dims@.len(),
            forall|n: int|
                0 <= n <= dims@.len() ==> elements(#[trigger] dims@.take(n)) <= usize::MAX,
            count == elements(dims@.take(i as int)),
        decreases dims@.len() - i,
    {
        proof {
            assert(dims@.take(i + 1).drop_last() =~= dims@.take(i as int));
            lemma_elements_positive(dims@.take(i + 1));
            assert(elements(dims@.take(i + 1)) <= usize::MAX);
        }
        count = count * dims[i];
        i = i + 1;
    }
    assert(dims@.take(i as int) =~= dims@);
    count
}

/// The number of elements of a tensor of these dimensions. `None`: the product
/// leaves the machine integers on its way.
fn checked_elements(dims: &Vec<usize>) -> (count: Option<usize>)
    ensures
        count is Some == forall|n: int|
            0 <= n <= dims@.len() ==> elements(#[trigger] dims@.take(n)) <= usize::MAX,
        count matches Some(count) ==> count == elements(dims@),
{
    let mut count: usize = 1;
    let mut i: usize = 0;
    assert(dims@.take(0) =~= Seq::<usize>::empty());
    while i < dims.len()
        invariant
            i <= dims@.len(),
            forall|n: int| 0 <= n <= i ==> elements(#[trigger] dims@.take(n)) <= usize::MAX,
            count == elements(dims@.take(i as int)),
        decreases dims@.len() - i,
    {
        proof {
            assert(dims@.take(i + 1).drop_last() =~= dims@.take(i as int));
            lemma_elements_positive(dims@.take(i + 1));
        }
        count = match count.checked_mul(dims[i]) {
            Some(product) => product,
            None => {
                assert(elements(dims@.take(i + 1)) > usize::MAX);
                return None;
            },
        };
        i = i + 1;
    }
    assert(dims@.take(i as int) =~= dims@);
    Some(count)
}

/// The owning optimizer as the report names it.
fn owner_label(spec: Option<&ProjSpec>, Ghost(specs): Ghost<Seq<ProjSpec>>, Ghost(path): Ghost<
    Seq<char>,
>) -> (label: String)
    requires
        match owner(specs, path) {
            Some(i) => spec == Some(&specs[i]),
            None => spec is None,
        },
    ensures
        label@ == owner_text(specs, path),
{
    match spec {
        None => "adamw".to_owned(),
        Some(spec) => {
            let mut texts: Vec<String> = Vec::new();
            let mut i: usize = 0;
            while i < spec.segments.len()
                invariant
                    i <= spec.segments@.len(),
                    texts.len() == i,
                    forall|j: int|
                        0 <= j < i ==> (#[trigger] texts@[j])@ == segment_text(spec.segments@[j]),
                decreases spec.segments@.len() - i,
            {
                let segment = &spec.segments[i];
                let mark = if segment.muon {
                    ""
                } else {
                    "*"
                };
                let width = text::decimal_text(segment.width);
                texts.push(
                    segment.name.to_owned().concat(":").concat(width.as_str()).concat(mark),
                );
                i = i + 1;
            }
            assert(text::views(texts@) =~= spec.segments@.map_values(
                |s: ProjSegment| segment_text(s),
            ));
            let body = text::join(&texts, " ");
            "muon[".to_owned().concat(body.as_str()).concat("]")
        },
    }
}

impl MuonPlan {
    /// The spec that owns the parameter `id` at `path`: the last one that
    /// selects it and that Muon owns a segment of.
    pub fn owner_of(&self, id: u64, path: &str) -> (found: Option<usize>)
        ensures
            match found {
                Some(i) => owner(self.specs@, path@) == Some(i as int),
                None => owner(self.specs@, path@) is None,
            },
    {
        let mut i: usize = self.specs.len();
        assert(self.specs@.take(i as int) =~= self.specs@);
        while i > 0
            invariant
                i <= self.specs@.len(),
                owner(self.specs@, path@) == owner(self.specs@.take(i as int), path@),
            decreases i,
        {
            i = i - 1;
            assert(self.specs@.take(i + 1).drop_last() =~= self.specs@.take(i as int));
            if self.specs[i].has_muon() && self.specs[i].selects_param(id, path) {
                return Some(i);
            }
        }
        None
    }

    /// Whether every count of the report fits the machine integers, and every
    /// owned parameter has the axes that its spec counts along.
    pub fn can_describe(&self, rows: &Vec<ParamRow>) -> (ok: bool)
        ensures
            ok == countable(self.specs@, rows@),
    {
        let ghost specs = self.specs@;
        let mut total: usize = 0;
        let mut on_muon: usize = 0;
        let mut r: usize = 0;
        assert(rows@.take(0) =~= Seq::<ParamRow>::empty());
        while r < rows.len()
            invariant
                r <= rows@.len(),
                specs == self.specs@,
                forall|k: int, n: int|
                    0 <= k < r && 0 <= n <= rows@[k].dims@.len() ==> elements(
                        #[trigger] rows@[k].dims@.take(n),
                    ) <= usize::MAX,
                forall|k: int|
                    0 <= k < r ==> (owner(specs, (#[trigger] rows@[k]).path@) matches Some(i)
                        ==> has_columns(specs[i], rows@[k].dims@)),
                total == total_elements(rows@.take(r as int)),
                on_muon == total_muon_elements(specs, rows@.take(r as int)),
            decreases rows@.len() - r,
        {
            let row = &rows[r];
            proof {
                assert(*row == rows@[r as int]);
                assert(rows@.take(r + 1).drop_last() =~= rows@.take(r as int));
                assert(rows@.take(r + 1).last() == *row);
                lemma_totals_grow(specs, rows@, r + 1);
                lemma_muon_elements_positive(specs, *row);
                lemma_owner(specs, row.path@);
            }
            let count: usize = match checked_elements(&row.dims) {
                Some(count) => count,
                None => {
                    proof {
                        let n = choose|n: int|
                            0 <= n <= row.dims@.len() && elements(#[trigger] row.dims@.take(n))
                                > usize::MAX;
                        assert(elements(rows@[r as int].dims@.take(n)) > usize::MAX);
                    }
                    return false;
                },
            };
            proof {
                assert forall|n: int| 0 <= n <= row.dims@.len() implies elements(
                    #[trigger] rows@[r as int].dims@.take(n),
                ) <= usize::MAX by {
                    assert(elements(row.dims@.take(n)) <= usize::MAX);
                }
            }
            total = match total.checked_add(count) {
                Some(sum) => sum,
                None => {
                    return false;
                },
            };
            if let Some(i) = self.owner_of(row.id, row.path.as_str()) {
                let spec = &self.specs[i];
                if row.dims.len() == 0 || spec.checked_muon_width().is_none() {
                    return false;
                }
                if spec.tiled && (row.dims.len() == 1 || spec.checked_width().is_none()) {
                    return false;
                }
                let columns: usize = count_owned_columns(spec, &row.dims);
                let owned: usize = match columns.checked_mul(row.dims[0]) {
                    Some(owned) => owned,
                    None => {
                        return false;
                    },
                };
                on_muon = match on_muon.checked_add(owned) {
                    Some(sum) => sum,
                    None => {
                        return false;
                    },
                };
            }
            r = r + 1;
        }
        assert(rows@.take(r as int) =~= rows@);
        true
    }

    /// A per-parameter report of this plan applied to the parameters of a
    /// model: path, shape, and the owning optimizer (with the column segments
    /// for a fused weight, `*` marking the ones left on the fallback), plus the
    /// elements of all of them and those on Muon.
    ///
    /// Purely diagnostic: print it once to confirm the plan matches the model
    /// you actually built.
    pub fn describe(&self, rows: &Vec<ParamRow>) -> (report: Report)
        requires
            countable(self.specs@, rows@),
        ensures
            report.text@ == rows_text(self.specs@, rows@),
            report.total == total_elements(rows@),
            report.on_muon == total_muon_elements(self.specs@, rows@),
    {
        let ghost specs = self.specs@;
        let mut out = String::new();
        let mut total: usize = 0;
        let mut on_muon: usize = 0;
        let mut r: usize = 0;
        assert(rows@.take(0) =~= Seq::<ParamRow>::empty());
        while r < rows.len()
            invariant
                r <= rows@.len(),
                specs == self.specs@,
                countable(specs, rows@),
                out@ == rows_text(specs, rows@.take(r as int)),
                total == total_elements(rows@.take(r as int)),
                on_muon == total_muon_elements(specs, rows@.take(r as int)),
            decreases rows@.len() - r,
        {
            let row = &rows[r];
            proof {
                assert(*row == rows@[r as int]);
                assert(rows@.take(r + 1).drop_last() =~= rows@.take(r as int));
                assert(rows@.take(r + 1).last() == *row);
                lemma_totals_grow(specs, rows@, r + 1);
                lemma_muon_elements_positive(specs, *row);
                lemma_owner(specs, row.path@);
                assert forall|n: int| 0 <= n <= row.dims@.len() implies elements(
                    #[trigger] row.dims@.take(n),
                ) <= usize::MAX by {
                    assert(elements(rows@[r as int].dims@.take(n)) <= usize::MAX);
                }
            }
            let count: usize = count_elements(&row.dims);
            total = total + count;
            let owner = self.owner_of(row.id, row.path.as_str());
            let label = match owner {
                None => {
                    owner_label(None, Ghost(specs), Ghost(row.path@))
                },
                Some(i) => {
                    let spec = &self.specs[i];
                    on_muon = on_muon + count_owned_columns(spec, &row.dims) * row.dims[0];
                    owner_label(Some(spec), Ghost(specs), Ghost(row.path@))
                },
            };
            let rank = text::decimal_text(row.dims.len());
            out.append(text::pad_left(rank.as_str(), 2).as_str());
            out.append("D ");
            out.append(text::pad_right(row.path.as_str(), 62).as_str());
            out.append(" ");
            out.append(text::list_text(&row.dims).as_str());
            out.append(" (");
            out.append(text::decimal_text(count).as_str());
            out.append(")  ");
            out.append(label.as_str());
            out.append("\n");
            proof {
                assert(out@ =~= rows_text(specs, rows@.take(r as int)) + row_text(specs, *row)
                    + "\n"@);
            }
            r = r + 1;
        }
        assert(rows@.take(r as int) =~= rows@);
        Report { text: out, total, on_muon }
    }
}

} // verus!
