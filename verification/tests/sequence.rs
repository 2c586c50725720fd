use burn_stack::modules::insert::{
    can_insert, insert_class_markers, insert_class_markers_padded,
};
use burn_stack::utils::class::splice::{splice_class_rows, splice_columns, Segment};
use burn_stack::utils::class::{
    class_chunk_plan, class_emb_table, class_emb_width, class_marker_output_indices,
    class_plan, class_prime_plan, full_len_known, init_class_emb, landing_count, positions_fit,
    ClassCursor, ClassCursors, ClassLatent, ClassMarker, ClassToken,
};
use burn_stack::utils::order::sort_indices;
use burn_stack::utils::packing::{fits_starts, Packed};
use burn_stack::utils::padding::{right_padded, Padding};

const MARKERS: [ClassLatent; 5] = [
    ClassLatent::End,
    ClassLatent::Custom(2),
    ClassLatent::Start,
    ClassLatent::Middle,
    ClassLatent::Custom(5),
];

#[test]
fn markers_land_on_their_positions() {
    // S t0 t1 C2 t2 M t3 t4 C5 t5 E
    assert_eq!(
        class_marker_output_indices(&MARKERS, 6),
        vec![10, 3, 0, 5, 8]
    );
    assert_eq!(ClassToken::Middle.insert_pos(7), 3);
    assert_eq!(ClassToken::End.insert_pos(7), 7);
    assert_eq!(ClassToken::Custom(9).insert_pos(7), 9);
    assert!(ClassToken::End.needs_full_len());
    assert!(!ClassToken::Custom(9).needs_full_len());
    assert!(ClassLatent::End.closes_sequence());
    assert!(!ClassLatent::Middle.closes_sequence());
}

#[test]
fn a_custom_past_the_end_does_not_land() {
    assert_eq!(landing_count(&MARKERS, 6), 5);
    assert_eq!(landing_count(&MARKERS, 3), 4);
    // An empty sequence has no token to precede.
    assert_eq!(landing_count(&MARKERS, 0), 1);
}

#[test]
fn an_open_stream_cannot_place_its_end() {
    assert!(!full_len_known(&MARKERS, None));
    assert!(full_len_known(&MARKERS, Some(6)));
    assert!(full_len_known(&[ClassLatent::Start, ClassLatent::Custom(9)], None));
    assert!(positions_fit(&MARKERS, 6));
    assert!(positions_fit(&[ClassLatent::Custom(usize::MAX)], 6));
    assert!(!positions_fit(
        &[ClassLatent::Custom(usize::MAX)],
        usize::MAX
    ));
    let mut cursor = ClassCursor::default();
    assert_eq!(class_plan(&MARKERS, 1, &mut cursor, false), None);
    assert_eq!(cursor, ClassCursor::at(0, None));
}

#[test]
fn a_whole_sequence_places_every_marker() {
    let mut cursor = ClassCursor::whole(6);
    assert!(cursor.covers_whole(6));
    let plan = class_chunk_plan(&MARKERS, 6, &mut cursor);
    assert_eq!(plan, vec![(0, 2), (2, 1), (3, 3), (5, 4), (6, 0)]);
    assert_eq!(cursor, ClassCursor::at(11, Some(6)));
    assert_eq!(
        splice_columns(
            &vec![0, 1, 2, 3, 4, 5],
            &plan,
            &vec![100, 101, 102, 103, 104]
        ),
        vec![100, 0, 1, 101, 2, 102, 3, 4, 103, 5, 104]
    );
    assert_eq!(
        splice_class_rows(&plan, 6),
        vec![
            Segment::Marker(2),
            Segment::Tokens { start: 0, len: 2 },
            Segment::Marker(1),
            Segment::Tokens { start: 2, len: 1 },
            Segment::Marker(3),
            Segment::Tokens { start: 3, len: 2 },
            Segment::Marker(4),
            Segment::Tokens { start: 5, len: 1 },
            Segment::Marker(0),
        ]
    );
    assert!(splice_class_rows(&Vec::new(), 0).is_empty());
}

#[test]
fn chunks_place_what_the_whole_places() {
    for split in 1..6 {
        let mut cursor = ClassCursor::at(0, Some(6));
        let mut all = Vec::new();
        let mut from = 0;
        for len in [split, 6 - split] {
            for (at, marker) in class_chunk_plan(&MARKERS, len, &mut cursor) {
                all.push((from + at, marker));
            }
            from += len;
        }
        assert_eq!(all, vec![(0, 2), (2, 1), (3, 3), (5, 4), (6, 0)]);
        assert_eq!(cursor.offset, 11);
    }
}

#[test]
fn a_prime_emits_what_waits_for_the_next_token() {
    let mut cursor = ClassCursor::at(0, Some(6));
    assert_eq!(class_prime_plan(&MARKERS, 0, &mut cursor), vec![(0, 2)]);
    assert_eq!(cursor.offset, 1);
    assert_eq!(class_chunk_plan(&MARKERS, 1, &mut cursor), vec![]);
    assert_eq!(class_chunk_plan(&MARKERS, 1, &mut cursor), vec![]);
    assert_eq!(class_prime_plan(&MARKERS, 0, &mut cursor), vec![(0, 1)]);
    // Nothing waits past the announced end.
    let mut done = ClassCursor::at(11, Some(6));
    assert_eq!(class_prime_plan(&MARKERS, 0, &mut done), vec![]);
}

#[test]
fn cursors_enter_and_leave_a_level() {
    let mut cursors = ClassCursors::new(6);
    let saved = cursors.enter(&MARKERS);
    assert_eq!(saved, Some(6));
    assert_eq!(cursors.full_len, Some(11));
    cursors.leave(saved);
    assert_eq!(cursors.full_len, Some(6));
    cursors.fit(3);
    assert_eq!(cursors.per_layer, vec![0, 0, 0]);
    let mut open = ClassCursors::stream();
    assert_eq!(open.enter(&MARKERS), None);
    assert_eq!(open.full_len, None);
    assert_eq!(ClassCursors::default().stack, 0);
}

#[test]
fn a_table_has_one_row_per_marker() {
    assert_eq!(init_class_emb(3, 8), Some([3, 8]));
    assert_eq!(init_class_emb(0, 8), None);
    assert_eq!(class_emb_table(Some([3, 8]), 3, 8), Some([3, 8]));
    assert_eq!(class_emb_table(Some([2, 8]), 3, 8), None);
    assert_eq!(class_emb_table(Some([3, 7]), 3, 8), None);
    assert_eq!(class_emb_table(None, 3, 8), None);
    assert_eq!(class_emb_width(Some([3, 8])), Some(8));
    assert_eq!(class_emb_width(None), None);
}

fn mask(lens: &[usize], padded: usize) -> Vec<Vec<bool>> {
    lens.iter()
        .map(|&len| (0..padded).map(|i| i >= len).collect())
        .collect()
}

#[test]
fn a_splice_moves_rows_to_their_place_in_each_slot() {
    let padding = Padding::new(mask(&[4, 2], 4));
    assert_eq!(padding.dims(), [2, 4]);
    let markers = [ClassLatent::End];
    let mut cursor = ClassCursor::whole(4);
    let plan = class_chunk_plan(&markers, 4, &mut cursor);
    let spliced = padding.splice(&plan, &markers, true);
    assert_eq!(
        spliced.pad_bs,
        vec![
            vec![false, false, false, false, false],
            vec![false, false, true, true, false]
        ]
    );
    assert_eq!(
        spliced.local_bs,
        Some(vec![vec![0, 1, 2, 3, 4], vec![0, 1, 3, 4, 2]])
    );
    let order = spliced.in_slot_order().unwrap();
    assert_eq!(order.src_bs[1], vec![0, 1, 4, 2, 3]);
    assert_eq!(order.back_bs[1], vec![0, 1, 3, 4, 2]);
    assert_eq!(order.pad_bs[1], vec![false, false, false, true, true]);
    let reversed = spliced.reversed();
    assert_eq!(reversed.local_bs.unwrap()[1], vec![2, 1, 3, 4, 0]);
}

#[test]
fn a_fixed_position_keeps_the_order() {
    let padding = Padding::new(mask(&[3, 1], 3));
    let markers = [ClassLatent::Start];
    let mut cursor = ClassCursor::whole(3);
    let plan = class_chunk_plan(&markers, 3, &mut cursor);
    let spliced = padding.spliced(&plan, &markers, true);
    assert!(spliced.local_bs.is_none());
    assert!(spliced.in_slot_order().is_none());
    assert_eq!(spliced.pad_bs[1], vec![false, false, true, true]);
}

#[test]
fn padding_is_on_the_right() {
    assert!(right_padded(&mask(&[3, 0, 2], 3)));
    assert!(!right_padded(&vec![vec![true, false]]));
    assert!(!right_padded(&vec![vec![false], vec![false, true]]));
}

#[test]
fn markers_are_inserted_with_their_padding() {
    let markers = vec![ClassLatent::Middle];
    let mut cursor = ClassCursor::whole(4);
    assert_eq!(
        insert_class_markers(&markers, &mut cursor, 4),
        vec![
            Segment::Tokens { start: 0, len: 2 },
            Segment::Marker(0),
            Segment::Tokens { start: 2, len: 2 },
        ]
    );
    let mut cursor = ClassCursor::whole(4);
    let padding = Padding::new(mask(&[4, 2], 4));
    let inserted = insert_class_markers_padded(&markers, &mut cursor, 4, false, Some(&padding));
    assert_eq!(inserted.rows, 5);
    assert_eq!(
        inserted.padding.unwrap().local_bs.unwrap(),
        vec![vec![0, 1, 2, 3, 4], vec![0, 2, 1, 3, 4]]
    );
    let part = ClassCursor::at(0, Some(6));
    assert!(can_insert(&markers, part, 4, false, false));
    assert!(!can_insert(&markers, part, 4, false, true));
    assert!(!can_insert(&markers, ClassCursor::at(0, None), 4, false, false));
}

#[test]
fn packed_sequences_open_with_their_slots() {
    assert!(fits_starts(&vec![0, 3], 2, 6));
    assert!(!fits_starts(&vec![0, 1], 2, 6));
    assert!(!fits_starts(&vec![5], 2, 6));
    assert!(fits_starts(&vec![0, 1], 0, 2));
    let packed = Packed::from_starts(&[vec![0, 3], vec![]], 2, 6);
    assert_eq!(packed.dims(), [2, 6]);
    assert_eq!(
        packed.reset_bs,
        vec![
            vec![true, false, false, true, false, false],
            vec![false; 6]
        ]
    );
    assert_eq!(
        packed.latent_bs[0],
        vec![Some(0), Some(1), None, Some(0), Some(1), None]
    );
    assert_eq!(
        packed.place(&vec![vec![9; 6], vec![8; 6]], &vec![50, 51]),
        vec![vec![50, 51, 9, 50, 51, 9], vec![8; 6]]
    );
}

#[test]
fn equal_keys_keep_their_order() {
    assert_eq!(
        sort_indices(&vec![(2, 0), (1, 5), (2, 0), (1, 4)]),
        vec![3, 1, 0, 2]
    );
}
