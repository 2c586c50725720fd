//! Splicing rows into a sequence at given places.
use crate::utils::order;
use vstd::prelude::*;

verus! {

/// `rows` with one row of `cols` spliced in per entry of `ats`: column `j`
/// before row `ats[j]`, columns at one place in their own order.
pub open spec fn spliced<T>(rows: Seq<T>, ats: Seq<int>, cols: Seq<T>) -> Seq<T>
    decreases ats.len(),
{
    if ats.len() == 0 {
        rows
    } else {
        spliced(rows.take(ats.last()), ats.drop_last(), cols.drop_last()).push(cols.last())
            + rows.skip(ats.last())
    }
}

/// Whether `ats` names places in a sequence of `n` rows, in order.
pub open spec fn places(ats: Seq<int>, n: int) -> bool {
    &&& forall|j: int| 0 <= j < ats.len() ==> 0 <= #[trigger] ats[j] <= n
    &&& forall|a: int, b: int| 0 <= a <= b < ats.len() ==> #[trigger] ats[a] <= #[trigger] ats[b]
}

/// The columns spliced in at or before row `i`.
pub open spec fn up_to(ats: Seq<int>, i: int) -> spec_fn(int) -> bool {
    |j: int| ats[j] <= i
}

/// Where row `i` ends up: after the columns spliced in at or before it.
pub open spec fn row_place(ats: Seq<int>, i: int) -> int {
    i + order::count(ats.len(), up_to(ats, i))
}

/// Where column `j` ends up: after the rows and the columns that precede it.
pub open spec fn col_place(ats: Seq<int>, j: int) -> int {
    ats[j] + j
}

/// The first parts of the entries of a plan: the places.
pub open spec fn plan_ats(plan: Seq<(int, int)>) -> Seq<int> {
    plan.map_values(|p: (int, int)| p.0)
}

/// One row per entry of a plan, from the marker that it names.
pub open spec fn plan_cols<T>(plan: Seq<(int, int)>, row_of: spec_fn(int) -> T) -> Seq<T> {
    plan.map_values(|p: (int, int)| row_of(p.1))
}

/// The rows of a chunk with the markers of `plan` spliced in.
pub open spec fn spliced_plan<T>(
    rows: Seq<T>,
    plan: Seq<(int, int)>,
    row_of: spec_fn(int) -> T,
) -> Seq<T> {
    spliced(rows, plan_ats(plan), plan_cols(plan, row_of))
}

/// A splice lengthens the sequence by its columns.
pub proof fn lemma_spliced_len<T>(rows: Seq<T>, ats: Seq<int>, cols: Seq<T>)
    requires
        places(ats, rows.len() as int),
        cols.len() == ats.len(),
    ensures
        spliced(rows, ats, cols).len() == rows.len() + ats.len(),
    decreases ats.len(),
{
    if ats.len() > 0 {
        let at = ats.last();
        assert(at == ats[ats.len() - 1]);
        assert forall|j: int| 0 <= j < ats.len() - 1 implies 0 <= #[trigger] ats.drop_last()[j]
            <= at by {
            assert(ats[j] <= ats[ats.len() - 1]);
        }
        lemma_spliced_len(rows.take(at), ats.drop_last(), cols.drop_last());
    }
}

/// Every column of a splice is at its place.
pub proof fn lemma_spliced_col<T>(rows: Seq<T>, ats: Seq<int>, cols: Seq<T>, j: int)
    requires
        places(ats, rows.len() as int),
        cols.len() == ats.len(),
        0 <= j < ats.len(),
    ensures
        0 <= col_place(ats, j) < rows.len() + ats.len(),
        spliced(rows, ats, cols)[col_place(ats, j)] == cols[j],
    decreases ats.len(),
{
    let at = ats.last();
    assert(at == ats[ats.len() - 1]);
    assert(ats[j] <= at);
    assert forall|j: int| 0 <= j < ats.len() - 1 implies 0 <= #[trigger] ats.drop_last()[j]
        <= at by {
        assert(ats[j] <= ats[ats.len() - 1]);
    }
    lemma_spliced_len(rows.take(at), ats.drop_last(), cols.drop_last());
    if j < ats.len() - 1 {
        lemma_spliced_col(rows.take(at), ats.drop_last(), cols.drop_last(), j);
    }
}

/// Every row of a splice is at its place.
pub proof fn lemma_spliced_row<T>(rows: Seq<T>, ats: Seq<int>, cols: Seq<T>, i: int)
    requires
        places(ats, rows.len() as int),
        cols.len() == ats.len(),
        0 <= i < rows.len(),
    ensures
        0 <= row_place(ats, i) < rows.len() + ats.len(),
        spliced(rows, ats, cols)[row_place(ats, i)] == rows[i],
    decreases ats.len(),
{
    order::lemma_count_bound(ats.len(), up_to(ats, i));
    if ats.len() > 0 {
        let at = ats.last();
        let front = ats.drop_last();
        let k = ats.len();
        assert(at == ats[k - 1]);
        assert forall|j: int| 0 <= j < k - 1 implies 0 <= #[trigger] front[j] <= at by {
            assert(ats[j] <= ats[k - 1]);
        }
        lemma_spliced_len(rows.take(at), front, cols.drop_last());
        order::lemma_count_ext(front.len(), up_to(ats, i), up_to(front, i));
        if i < at {
            lemma_spliced_row(rows.take(at), front, cols.drop_last(), i);
            assert(rows.take(at)[i] == rows[i]);
        } else {
            assert forall|j: int| 0 <= j < k implies #[trigger] up_to(ats, i)(j) by {
                assert(ats[j] <= ats[k - 1]);
            }
            order::lemma_count_all(k, up_to(ats, i));
        }
    }
}

/// Every position of a splice is the place of a row or of a column: `Ok` gives
/// the row, `Err` the column.
pub proof fn lemma_spliced_cover(ats: Seq<int>, n: int, x: int) -> (from: Result<int, int>)
    requires
        0 <= n,
        places(ats, n),
        0 <= x < n + ats.len(),
    ensures
        match from {
            Ok(i) => 0 <= i < n && row_place(ats, i) == x,
            Err(j) => 0 <= j < ats.len() && col_place(ats, j) == x,
        },
    decreases ats.len(),
{
    let k = ats.len();
    if k == 0 {
        Ok(x)
    } else {
        let at = ats.last();
        let front = ats.drop_last();
        assert(at == ats[k - 1]);
        assert forall|j: int| 0 <= j < k - 1 implies 0 <= #[trigger] front[j] <= at by {
            assert(ats[j] <= ats[k - 1]);
        }
        if x < at + k - 1 {
            let from = lemma_spliced_cover(front, at, x);
            match from {
                Ok(i) => {
                    order::lemma_count_ext(front.len(), up_to(ats, i), up_to(front, i));
                },
                Err(j) => {
                    assert(front[j] == ats[j]);
                },
            }
            from
        } else if x == at + k - 1 {
            Err(k - 1)
        } else {
            let i = x - k;
            assert forall|j: int| 0 <= j < k implies #[trigger] up_to(ats, i)(j) by {
                assert(ats[j] <= ats[k - 1]);
            }
            order::lemma_count_all(k, up_to(ats, i));
            Ok(i)
        }
    }
}

/// Moving every place by `by`.
pub open spec fn shifted(ats: Seq<int>, by: int) -> Seq<int> {
    ats.map_values(|at: int| at + by)
}

/// Moving every entry of a plan by `by` rows.
pub open spec fn shifted_plan(plan: Seq<(int, int)>, by: int) -> Seq<(int, int)> {
    plan.map_values(|p: (int, int)| (p.0 + by, p.1))
}

proof fn lemma_spliced_then_rows<T>(a: Seq<T>, b: Seq<T>, ats: Seq<int>, cols: Seq<T>)
    requires
        places(ats, a.len() as int),
        cols.len() == ats.len(),
    ensures
        spliced(a + b, ats, cols) == spliced(a, ats, cols) + b,
{
    if ats.len() > 0 {
        let at = ats.last();
        assert(at == ats[ats.len() - 1]);
        assert((a + b).take(at) =~= a.take(at));
        assert((a + b).skip(at) =~= a.skip(at) + b);
        assert(spliced(a + b, ats, cols) =~= spliced(a, ats, cols) + b);
    }
}

/// A splice of two chunks in one is the splice of the first, followed by the
/// splice of the second.
pub proof fn lemma_spliced_concat<T>(
    a: Seq<T>,
    b: Seq<T>,
    ats_a: Seq<int>,
    ats_b: Seq<int>,
    cols_a: Seq<T>,
    cols_b: Seq<T>,
)
    requires
        places(ats_a, a.len() as int),
        places(ats_b, b.len() as int),
        cols_a.len() == ats_a.len(),
        cols_b.len() == ats_b.len(),
    ensures
        spliced(a + b, ats_a + shifted(ats_b, a.len() as int), cols_a + cols_b) == spliced(
            a,
            ats_a,
            cols_a,
        ) + spliced(b, ats_b, cols_b),
    decreases ats_b.len(),
{
    let n = a.len() as int;
    if ats_b.len() == 0 {
        assert(ats_a + shifted(ats_b, n) =~= ats_a);
        assert(cols_a + cols_b =~= cols_a);
        lemma_spliced_then_rows(a, b, ats_a, cols_a);
    } else {
        let at = ats_b.last();
        let front = ats_b.drop_last();
        assert(at == ats_b[ats_b.len() - 1]);
        assert forall|j: int| 0 <= j < ats_b.len() - 1 implies 0 <= #[trigger] front[j] <= at by {
            assert(ats_b[j] <= ats_b[ats_b.len() - 1]);
        }
        let ats = ats_a + shifted(ats_b, n);
        let cols = cols_a + cols_b;
        lemma_spliced_concat(a, b.take(at), ats_a, front, cols_a, cols_b.drop_last());
        assert(ats.drop_last() =~= ats_a + shifted(front, n));
        assert(ats.last() == at + n);
        assert(cols.drop_last() =~= cols_a + cols_b.drop_last());
        assert((a + b).take(at + n) =~= a + b.take(at));
        assert((a + b).skip(at + n) =~= b.skip(at));
        assert(spliced(a + b, ats, cols) =~= spliced(a, ats_a, cols_a) + spliced(
            b,
            ats_b,
            cols_b,
        ));
    }
}

/// [`lemma_spliced_concat`] for plans.
pub proof fn lemma_spliced_plan_concat<T>(
    a: Seq<T>,
    b: Seq<T>,
    plan_a: Seq<(int, int)>,
    plan_b: Seq<(int, int)>,
    row_of: spec_fn(int) -> T,
)
    requires
        places(plan_ats(plan_a), a.len() as int),
        places(plan_ats(plan_b), b.len() as int),
    ensures
        spliced_plan(a + b, plan_a + shifted_plan(plan_b, a.len() as int), row_of) == spliced_plan(
            a,
            plan_a,
            row_of,
        ) + spliced_plan(b, plan_b, row_of),
{
    let n = a.len() as int;
    let plan = plan_a + shifted_plan(plan_b, n);
    assert(plan_ats(plan) =~= plan_ats(plan_a) + shifted(plan_ats(plan_b), n));
    assert(plan_cols(plan, row_of) =~= plan_cols(plan_a, row_of) + plan_cols(plan_b, row_of));
    lemma_spliced_concat(
        a,
        b,
        plan_ats(plan_a),
        plan_ats(plan_b),
        plan_cols(plan_a, row_of),
        plan_cols(plan_b, row_of),
    );
}

/// A splice of mapped rows is the mapped splice.
pub proof fn lemma_spliced_map<T, U>(
    rows: Seq<T>,
    ats: Seq<int>,
    cols: Seq<T>,
    f: spec_fn(T) -> U,
)
    requires
        places(ats, rows.len() as int),
        cols.len() == ats.len(),
    ensures
        spliced(rows.map_values(f), ats, cols.map_values(f)) == spliced(rows, ats, cols).map_values(
            f,
        ),
    decreases ats.len(),
{
    if ats.len() > 0 {
        let at = ats.last();
        let front = ats.drop_last();
        assert(at == ats[ats.len() - 1]);
        assert forall|j: int| 0 <= j < ats.len() - 1 implies 0 <= #[trigger] front[j] <= at by {
            assert(ats[j] <= ats[ats.len() - 1]);
        }
        lemma_spliced_map(rows.take(at), front, cols.drop_last(), f);
        assert(rows.map_values(f).take(at) =~= rows.take(at).map_values(f));
        assert(rows.map_values(f).skip(at) =~= rows.skip(at).map_values(f));
        assert(cols.map_values(f).drop_last() =~= cols.drop_last().map_values(f));
        assert(spliced(rows.map_values(f), ats, cols.map_values(f)) =~= spliced(
            rows,
            ats,
            cols,
        ).map_values(f));
    }
}

/// Splice one value per plan entry (in plan order) into `rows`, before the row
/// that each entry names.
pub fn splice_columns<T: Copy>(rows: &Vec<T>, plan: &Vec<(usize, usize)>, cols: &Vec<T>) -> (out:
    Vec<T>)
    requires
        places(plan_ats(super::int_pairs(plan@)), rows@.len() as int),
        cols@.len() == plan@.len(),
    ensures
        out@ == spliced(rows@, plan_ats(super::int_pairs(plan@)), cols@),
{
    let ghost ats = plan_ats(super::int_pairs(plan@));
    let mut out: Vec<T> = Vec::new();
    let mut taken: usize = 0;
    let mut j: usize = 0;
    assert(rows@.take(0) =~= Seq::<T>::empty());
    while j < plan.len()
        invariant
            j <= plan.len(),
            taken <= rows.len(),
            ats == plan_ats(super::int_pairs(plan@)),
            places(ats, rows@.len() as int),
            cols@.len() == plan@.len(),
            j > 0 ==> taken == ats[j - 1],
            j == 0 ==> taken == 0,
            out@ == spliced(rows@.take(taken as int), ats.take(j as int), cols@.take(j as int)),
        decreases plan.len() - j,
    {
        let at: usize = plan[j].0;
        assert(at == ats[j as int]);
        let ghost before = out@;
        let ghost from = taken as int;
        while taken < at
            invariant
                0 <= from <= taken <= at <= rows.len(),
                out@ == before + rows@.subrange(from, taken as int),
            decreases at - taken,
        {
            out.push(rows[taken]);
            taken = taken + 1;
            assert(rows@.subrange(from, taken as int) =~= rows@.subrange(from, taken - 1).push(
                rows@[taken - 1],
            ));
        }
        proof {
            let front = ats.take(j as int);
            lemma_spliced_then_rows(
                rows@.take(from),
                rows@.subrange(from, at as int),
                front,
                cols@.take(j as int),
            );
            assert(rows@.take(from) + rows@.subrange(from, at as int) =~= rows@.take(at as int));
        }
        out.push(cols[j]);
        proof {
            let next = ats.take(j + 1);
            let next_cols = cols@.take(j + 1);
            assert(next.drop_last() =~= ats.take(j as int));
            assert(next_cols.drop_last() =~= cols@.take(j as int));
            assert(rows@.take(at as int).take(at as int) =~= rows@.take(at as int));
            assert(out@ =~= spliced(rows@.take(at as int), next, next_cols));
        }
        j = j + 1;
    }
    let ghost before = out@;
    let ghost from = taken as int;
    while taken < rows.len()
        invariant
            0 <= from <= taken <= rows.len(),
            out@ == before + rows@.subrange(from, taken as int),
        decreases rows.len() - taken,
    {
        out.push(rows[taken]);
        taken = taken + 1;
        assert(rows@.subrange(from, taken as int) =~= rows@.subrange(from, taken - 1).push(
            rows@[taken - 1],
        ));
    }
    proof {
        assert(ats.take(j as int) =~= ats);
        assert(cols@.take(j as int) =~= cols@);
        lemma_spliced_then_rows(
            rows@.take(from),
            rows@.subrange(from, rows@.len() as int),
            ats,
            cols@,
        );
        assert(rows@.take(from) + rows@.subrange(from, rows@.len() as int) =~= rows@);
    }
    out
}

/// One run of a spliced chunk.
#[derive(Debug, Clone, Copy, PartialEq, Eq, Structural)]
pub enum Segment {
    /// `len` tokens of the chunk, from `start` on.
    Tokens {
        start: usize,
        len: usize,
    },
    /// The row of one marker.
    Marker(usize),
}

/// Where a row of a spliced chunk comes from.
pub enum Row {
    /// A token of the chunk.
    Token(int),
    /// A marker.
    Marker(int),
}

/// The tokens of a chunk of `n`.
pub open spec fn token_rows(n: int) -> Seq<Row> {
    Seq::new(n as nat, |i: int| Row::Token(i))
}

/// The row of a marker.
pub open spec fn marker_row() -> spec_fn(int) -> Row {
    |i: int| Row::Marker(i)
}

impl Segment {
    /// The rows of this run.
    pub open spec fn rows(self) -> Seq<Row> {
        match self {
            Segment::Tokens { start, len } => Seq::new(len as nat, |i: int| Row::Token(start + i)),
            Segment::Marker(i) => seq![Row::Marker(i as int)],
        }
    }
}

/// The rows of the runs, one after another.
pub open spec fn segment_rows(segments: Seq<Segment>) -> Seq<Row>
    decreases segments.len(),
{
    if segments.len() == 0 {
        Seq::empty()
    } else {
        segment_rows(segments.drop_last()) + segments.last().rows()
    }
}

/// The runs that a class-marker plan cuts a chunk of `chunk_len` tokens into.
/// No run is empty.
pub fn splice_class_rows(plan: &Vec<(usize, usize)>, chunk_len: usize) -> (segments: Vec<Segment>)
    requires
        places(plan_ats(super::int_pairs(plan@)), chunk_len as int),
    ensures
        segment_rows(segments@) == spliced_plan(
            token_rows(chunk_len as int),
            super::int_pairs(plan@),
            marker_row(),
        ),
        forall|s: int| 0 <= s < segments@.len() ==> (#[trigger] segments@[s]).rows().len() > 0,
{
    let ghost pairs = super::int_pairs(plan@);
    let ghost ats = plan_ats(pairs);
    let ghost cols = plan_cols(pairs, marker_row());
    let ghost rows = token_rows(chunk_len as int);
    let mut segments: Vec<Segment> = Vec::new();
    let mut taken: usize = 0;
    let mut j: usize = 0;
    assert(rows.take(0) =~= Seq::<Row>::empty());
    while j < plan.len()
        invariant
            j <= plan.len(),
            taken <= chunk_len,
            pairs == super::int_pairs(plan@),
            ats == plan_ats(pairs),
            cols == plan_cols(pairs, marker_row()),
            rows == token_rows(chunk_len as int),
            places(ats, chunk_len as int),
            j > 0 ==> taken == ats[j - 1],
            j == 0 ==> taken == 0,
            segment_rows(segments@) == spliced(
                rows.take(taken as int),
                ats.take(j as int),
                cols.take(j as int),
            ),
            forall|s: int| 0 <= s < segments@.len() ==> (#[trigger] segments@[s]).rows().len() > 0,
        decreases plan.len() - j,
    {
        let (at, i) = plan[j];
        assert(at == ats[j as int]);
        let ghost from = taken as int;
        let ghost front = segments@;
        proof {
            lemma_spliced_then_rows(
                rows.take(from),
                rows.subrange(from, at as int),
                ats.take(j as int),
                cols.take(j as int),
            );
            assert(rows.take(from) + rows.subrange(from, at as int) =~= rows.take(at as int));
        }
        if at > taken {
            segments.push(Segment::Tokens { start: taken, len: (at - taken) as usize });
            taken = at;
            proof {
                assert(segments@.drop_last() =~= front);
                assert(segments@.last().rows() =~= rows.subrange(from, at as int));
            }
        } else {
            assert(rows.subrange(from, at as int) =~= Seq::<Row>::empty());
        }
        let ghost middle = segments@;
        assert(segment_rows(middle) =~= spliced(
            rows.take(at as int),
            ats.take(j as int),
            cols.take(j as int),
        ));
        segments.push(Segment::Marker(i));
        proof {
            let next = ats.take(j + 1);
            let next_cols = cols.take(j + 1);
            assert(segments@.drop_last() =~= middle);
            assert(next.drop_last() =~= ats.take(j as int));
            assert(next_cols.drop_last() =~= cols.take(j as int));
            assert(rows.take(at as int).take(at as int) =~= rows.take(at as int));
            assert(next_cols.last() == Row::Marker(i as int));
            assert(segment_rows(segments@) =~= spliced(rows.take(at as int), next, next_cols));
        }
        j = j + 1;
    }
    let ghost from = taken as int;
    let ghost front = segments@;
    proof {
        assert(ats.take(j as int) =~= ats);
        assert(cols.take(j as int) =~= cols);
        lemma_spliced_then_rows(
            rows.take(from),
            rows.subrange(from, chunk_len as int),
            ats,
            cols,
        );
        assert(rows.take(from) + rows.subrange(from, chunk_len as int) =~= rows);
    }
    if taken < chunk_len {
        segments.push(Segment::Tokens { start: taken, len: (chunk_len - taken) as usize });
        proof {
            assert(segments@.drop_last() =~= front);
            assert(segments@.last().rows() =~= rows.subrange(from, chunk_len as int));
        }
    } else {
        assert(rows.subrange(from, chunk_len as int) =~= Seq::<Row>::empty());
        assert(segment_rows(segments@) =~= spliced(rows, ats, cols));
    }
    segments
}

/// A splice puts column `j` behind the rows before its place and behind the columns
/// before it. It keeps the rows, each behind the `c` columns whose places are at or
/// before it.
pub proof fn a_splice_keeps_rows_and_columns<T>(
    rows: Seq<T>,
    ats: Seq<int>,
    cols: Seq<T>,
    j: int,
    i: int,
    c: int,
)
    requires
        places(ats, rows.len() as int),
        cols.len() == ats.len(),
        0 <= j < cols.len(),
        0 <= i < rows.len(),
        0 <= c <= ats.len(),
        c > 0 ==> ats[c - 1] <= i,
        c < ats.len() ==> i < ats[c],
    ensures
        spliced(rows, ats, cols).len() == rows.len() + cols.len(),
        spliced(rows, ats, cols)[ats[j] + j] == cols[j],
        spliced(rows, ats, cols)[i + c] == rows[i],
{
    lemma_spliced_len(rows, ats, cols);
    lemma_spliced_col(rows, ats, cols, j);
    lemma_spliced_row(rows, ats, cols, i);
    assert forall|x: int| 0 <= x < ats.len() implies #[trigger] up_to(ats, i)(x) == order::below(
        c,
    )(x) by {
        if x < c {
            assert(ats[x] <= ats[c - 1]);
        } else {
            assert(ats[c] <= ats[x]);
        }
    }
    order::lemma_count_ext(ats.len(), up_to(ats, i), order::below(c));
    order::lemma_count_below(ats.len(), c);
}

/// The runs of a chunk stand for its rows: a run of tokens for those it names, in
/// order, and a marker for itself. Runs one after another stand for their rows one
/// after another.
pub proof fn runs_stand_for_their_rows(segments: Seq<Segment>, segment: Segment, i: int)
    ensures
        segment_rows(segments.push(segment)) == segment_rows(segments) + segment.rows(),
        segment_rows(Seq::empty()).len() == 0,
        match segment {
            Segment::Tokens { start, len } => segment.rows().len() == len && (0 <= i < len
                ==> segment.rows()[i] == Row::Token(start + i)),
            Segment::Marker(marker) => segment.rows() == seq![Row::Marker(marker as int)],
        },
{
    assert(segments.push(segment).drop_last() =~= segments);
}

/// The rows of a chunk are its tokens in order, and the row of a marker names it. A plan
/// names a place and a marker for each of its entries.
pub proof fn rows_and_entries_name_what_they_stand_for(
    n: int,
    i: int,
    plan: Seq<(usize, usize)>,
    j: int,
)
    requires
        0 <= i < n,
        0 <= j < plan.len(),
    ensures
        token_rows(n).len() == n,
        token_rows(n)[i] == Row::Token(i),
        marker_row()(i) == Row::Marker(i),
        plan_ats(super::int_pairs(plan)).len() == plan.len(),
        plan_ats(super::int_pairs(plan))[j] == plan[j].0,
        plan_cols(super::int_pairs(plan), marker_row()).len() == plan.len(),
        plan_cols(super::int_pairs(plan), marker_row())[j] == Row::Marker(plan[j].1 as int),
{
}

} // verus!
