use codemap_rs::histogram::{count_extension, sort_by_count, ExtCount};

fn pairs(h: &[ExtCount]) -> Vec<(String, usize)> {
    h.iter().map(|c| (c.ext.clone(), c.count)).collect()
}

fn tally(exts: &[&str]) -> Vec<ExtCount> {
    let mut h = Vec::new();
    for ext in exts {
        count_extension(&mut h, ext.to_string());
    }
    h
}

fn named(list: &[(&str, usize)]) -> Vec<(String, usize)> {
    list.iter().map(|(e, c)| (e.to_string(), *c)).collect()
}

#[test]
fn first_file_of_an_extension_opens_an_entry() {
    assert_eq!(pairs(&tally(&["rs"])), named(&[("rs", 1)]));
}

#[test]
fn entries_stand_in_the_order_of_first_occurrence() {
    let h = tally(&["rs", "txt", "rs", "md", "txt", "rs"]);
    assert_eq!(pairs(&h), named(&[("rs", 3), ("txt", 2), ("md", 1)]));
}

#[test]
fn counts_add_up_to_the_number_of_files() {
    let exts = ["a", "b", "a", "c", "b", "a", "d", "d", "a"];
    let h = tally(&exts);
    assert_eq!(h.iter().map(|c| c.count).sum::<usize>(), exts.len());
}

#[test]
fn empty_histogram_stays_empty() {
    assert!(tally(&[]).is_empty());
    assert!(sort_by_count(&Vec::new()).is_empty());
}

#[test]
fn highest_count_comes_first() {
    let h = tally(&["md", "rs", "rs", "txt", "rs", "txt"]);
    assert_eq!(pairs(&sort_by_count(&h)), named(&[("rs", 3), ("txt", 2), ("md", 1)]));
}

#[test]
fn equal_counts_keep_their_order() {
    let h = tally(&["c", "a", "b", "z", "z"]);
    assert_eq!(pairs(&sort_by_count(&h)), named(&[("z", 2), ("c", 1), ("a", 1), ("b", 1)]));
}

#[test]
fn sorted_counts_never_rise() {
    let h = tally(&["a", "b", "b", "c", "c", "c", "d", "e", "e", "f", "f", "f", "f"]);
    let sorted = sort_by_count(&h);
    assert_eq!(sorted.len(), h.len());
    for pair in sorted.windows(2) {
        assert!(pair[0].count >= pair[1].count);
    }
    let mut before = pairs(&h);
    let mut after = pairs(&sorted);
    before.sort();
    after.sort();
    assert_eq!(before, after);
}

#[test]
fn sorting_leaves_its_input_alone() {
    let h = tally(&["a", "b", "b"]);
    let _ = sort_by_count(&h);
    assert_eq!(pairs(&h), named(&[("a", 1), ("b", 2)]));
}
