//! The splice of class markers into one chunk, and what follows it.
use crate::modules::layer;
use crate::modules::stack;
use crate::utils::class;
use crate::utils::class::laws;
use crate::utils::class::splice;
use crate::utils::class::splice::Segment;
use crate::utils::class::{class_plan, ClassCursor, ClassMarker};
use crate::utils::padding::Padding;
use vstd::prelude::*;

verus! {

/// A chunk with its class markers spliced in.
pub struct Inserted {
    /// The rows of the longer chunk.
    pub segments: Vec<Segment>,
    /// How many they are.
    pub rows: usize,
    /// Their padding.
    pub padding: Option<Padding>,
}

/// Splice the class markers that fall on the next `rows` rows into them, and
/// advance `cursor` past the longer chunk.
pub fn insert_class_markers<M: ClassMarker>(
    markers: &Vec<M>,
    cursor: &mut ClassCursor,
    rows: usize,
) -> (segments: Vec<Segment>)
    requires
        class::placement(markers@, *old(cursor), rows as int, false).fits(),
    ensures
        layer::runs_of(
            segments@,
            class::placement(markers@, *old(cursor), rows as int, false),
        ),
        layer::advanced(
            *final(cursor),
            class::placement(markers@, *old(cursor), rows as int, false),
        ),
{
    insert_class_markers_padded(markers, cursor, rows, false, None).segments
}

/// [`insert_class_markers`] over a padded batch: the rows are spliced exactly as
/// there, and `padding` follows them (see [`Padding::splice`]). A `prime` also
/// splices the markers that wait for the next token.
pub fn insert_class_markers_padded<M: ClassMarker>(
    markers: &Vec<M>,
    cursor: &mut ClassCursor,
    rows: usize,
    prime: bool,
    padding: Option<&Padding>,
) -> (out: Inserted)
    requires
        class::placement(markers@, *old(cursor), rows as int, prime).fits(),
        padding matches Some(p) ==> p.wf() && p.batch() > 0 && p.rows() == rows
            && stack::middles_fit(class::placement(markers@, *old(cursor), rows as int, prime)),
    ensures
        layer::runs_of(
            out.segments@,
            class::placement(markers@, *old(cursor), rows as int, prime),
        ),
        layer::advanced(
            *final(cursor),
            class::placement(markers@, *old(cursor), rows as int, prime),
        ),
        out.rows == rows + class::placement(
            markers@,
            *old(cursor),
            rows as int,
            prime,
        ).plan().len(),
        out.padding is Some == padding is Some,
        out.padding matches Some(next) ==> next.wf() && next.batch() == padding->Some_0.batch()
            && next.rows() == out.rows && padding->Some_0.splices_to(
            class::placement(markers@, *old(cursor), rows as int, prime).plan(),
            class::marks(markers@),
            next,
        ),
{
    let ghost call = class::placement(markers@, *cursor, rows as int, prime);
    let whole = cursor.covers_whole(rows);
    proof {
        laws::plan_names_places(call);
    }
    let plan = match class_plan(markers.as_slice(), rows, cursor, prime) {
        Some(plan) => plan,
        None => Vec::new(),
    };
    let next: Option<Padding> = match padding {
        None => None,
        Some(p) => {
            proof {
                laws::plan_names_markers(call);
            }
            Some(p.spliced(&plan, markers.as_slice(), whole))
        },
    };
    let out: usize = rows + plan.len();
    Inserted { segments: splice::splice_class_rows(&plan, rows), rows: out, padding: next }
}

/// Whether the class markers that fall on the next `rows` rows can be spliced
/// in, and the padding can follow.
pub fn can_insert<M: ClassMarker>(
    markers: &Vec<M>,
    cursor: ClassCursor,
    rows: usize,
    prime: bool,
    padded: bool,
) -> (ok: bool)
    ensures
        ok == (class::placement(markers@, cursor, rows as int, prime).fits() && (padded
            ==> stack::middles_fit(class::placement(markers@, cursor, rows as int, prime)))),
{
    let ghost call = class::placement(markers@, cursor, rows as int, prime);
    let whole = cursor.covers_whole(rows);
    let mut cursor = cursor;
    match class_plan(markers.as_slice(), rows, &mut cursor, prime) {
        Some(plan) => {
            proof {
                laws::plan_names_markers(call);
            }
            !padded || whole || !names_middle(&plan, markers)
        },
        None => false,
    }
}

/// Whether a plan names a `Middle`.
fn names_middle<M: ClassMarker>(plan: &Vec<(usize, usize)>, markers: &Vec<M>) -> (found: bool)
    ensures
        found == exists|i: int|
            0 <= i < plan@.len() && plan@[i].1 < markers@.len() && class::marks(markers@)[(
            #[trigger] class::int_pairs(plan@)[i]).1] is Middle,
{
    let ghost pairs = class::int_pairs(plan@);
    let ghost ms = class::marks(markers@);
    let mut i: usize = 0;
    while i < plan.len()
        invariant
            i <= plan@.len(),
            pairs == class::int_pairs(plan@),
            ms == class::marks(markers@),
            forall|j: int|
                0 <= j < i && plan@[j].1 < markers@.len() ==> !(ms[(#[trigger] pairs[j]).1]
                    is Middle),
        decreases plan@.len() - i,
    {
        let m: usize = plan[i].1;
        assert(pairs[i as int].1 == m);
        if m < markers.len() {
            assert(ms[m as int] == markers@[m as int].marker());
            if markers[m].needs_full_len() && !markers[m].closes_sequence() {
                assert(ms[pairs[i as int].1] is Middle);
                return true;
            }
        }
        i = i + 1;
    }
    false
}

} // verus!
