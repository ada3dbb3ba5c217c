//! The rules a GPT entry has to satisfy: inside the usable range, and clear
//! of the other entries.

use partitions::gpt::{entry_issue, mark_overlaps, range_issues};

#[test]
fn the_usable_range_is_inclusive_at_both_ends() {
    assert_eq!(range_issues(34, 2014, 34, 2014), entry_issue::NONE);
    assert_eq!(
        range_issues(33, 2014, 34, 2014),
        entry_issue::BEFORE_FIRST_USABLE
    );
    assert_eq!(
        range_issues(34, 2015, 34, 2014),
        entry_issue::PAST_LAST_USABLE
    );
    assert_eq!(
        range_issues(33, 2015, 34, 2014),
        entry_issue::BEFORE_FIRST_USABLE | entry_issue::PAST_LAST_USABLE
    );
}

#[test]
fn a_start_past_the_last_usable_lba_is_reported_even_when_the_end_is_not() {
    assert_eq!(
        range_issues(9_000, 10, 34, 2014),
        entry_issue::PAST_LAST_USABLE,
        "the end is inside the disk; the start is not"
    );
}

#[test]
fn overlap_is_bounded_at_the_shared_sector() {
    assert_eq!(mark_overlaps(&[(100, 200), (200, 300)]), vec![true, true]);
    assert_eq!(mark_overlaps(&[(100, 200), (201, 300)]), vec![false, false]);
    assert_eq!(
        mark_overlaps(&[(100, 200), (900, 1000)]),
        vec![false, false]
    );
}

#[test]
fn an_entry_nested_inside_a_longer_one_is_an_overlap() {
    assert_eq!(
        mark_overlaps(&[(100, 10_000), (200, 300), (9_000, 9_100)]),
        vec![true, true, true]
    );
}

#[test]
fn the_answer_does_not_depend_on_the_order_of_the_entries() {
    assert_eq!(
        mark_overlaps(&[(9_000, 9_100), (200, 300), (100, 10_000)]),
        vec![true, true, true]
    );
    assert_eq!(mark_overlaps(&[(201, 300), (100, 200)]), vec![false, false]);
}

#[test]
fn a_table_too_small_to_have_a_pair_has_no_overlaps() {
    assert_eq!(mark_overlaps(&[]), Vec::<bool>::new());
    assert_eq!(mark_overlaps(&[(100, 200)]), vec![false]);
}

#[test]
fn an_entry_swallowed_by_one_two_places_back_is_marked() {
    let flags = mark_overlaps(&[(0, 100), (10, 20), (30, 40)]);
    assert_eq!(flags, vec![true, true, true]);
}

#[test]
fn overlap_marking_agrees_with_the_definition_on_every_small_case() {
    let spans: Vec<(u64, u64)> = (0..4u64)
        .flat_map(|s| (s..4u64).map(move |e| (s, e)))
        .collect();
    assert_eq!(spans.len(), 10, "the coordinate space changed");

    let mut checked = 0usize;
    let mut with_an_overlap = 0usize;
    for &a in &spans {
        for &b in &spans {
            for &c in &spans {
                let set = [a, b, c];
                let got = mark_overlaps(&set);
                let want: Vec<bool> = (0..set.len())
                    .map(|i| {
                        (0..set.len())
                            .any(|j| j != i && set[i].0 <= set[j].1 && set[j].0 <= set[i].1)
                    })
                    .collect();
                assert_eq!(got, want, "spans {set:?}");
                checked += 1;
                if want.iter().any(|&f| f) {
                    with_an_overlap += 1;
                }
            }
        }
    }
    assert_eq!(checked, 1000);
    assert!(
        with_an_overlap > 0 && with_an_overlap < checked,
        "the case space is degenerate: {with_an_overlap} of {checked} overlap"
    );
}

#[test]
fn issues_are_described_in_words() {
    assert_eq!(entry_issue::describe(entry_issue::NONE), "no issues");
    assert_eq!(
        entry_issue::describe(entry_issue::BEFORE_FIRST_USABLE),
        "starts before the first usable LBA"
    );
    assert_eq!(
        entry_issue::describe(entry_issue::ALL),
        "starts before the first usable LBA, ends past the last usable LBA, overlaps another partition"
    );
    // Bits that mean nothing here are passed over.
    assert_eq!(entry_issue::describe(0x8), "no issues");
}

#[test]
fn rearranging_the_entries_rearranges_the_answers() {
    let spans = [(10, 20), (15, 16), (30, 40), (41, 50)];
    let order = [2usize, 0, 3, 1];
    let moved: Vec<(u64, u64)> = order.iter().map(|&i| spans[i]).collect();
    let flags = mark_overlaps(&spans);
    assert_eq!(flags, vec![true, true, false, false]);
    let want: Vec<bool> = order.iter().map(|&i| flags[i]).collect();
    assert_eq!(mark_overlaps(&moved), want);
}
