use reading_tracker::{bump_counts, LedgerError, ReadingTracker};

fn s(text: &str) -> String {
    text.to_string()
}

#[test]
fn two_readers_scenario() {
    let mut t = ReadingTracker::new();
    assert_eq!(t.complete_book(s("GAREADERA"), s("Dune")), Ok(()));
    assert_eq!(t.complete_book(s("GAREADERA"), s("Foundation")), Ok(()));
    assert_eq!(t.complete_book(s("GBREADERB"), s("Dune")), Ok(()));
    assert_eq!(t.get_total_books(&s("GAREADERA")), 2);
    assert_eq!(t.get_last_book(&s("GAREADERA")), "Foundation");
    assert_eq!(t.get_total_books(&s("GBREADERB")), 1);
    assert_eq!(t.get_last_book(&s("GBREADERB")), "Dune");
    assert_eq!(t.get_global_count(), 3);
}

#[test]
fn no_completions_scenario() {
    let t = ReadingTracker::new();
    assert_eq!(t.get_global_count(), 0);
    assert_eq!(t.get_total_books(&s("GAREADERA")), 0);
    assert_eq!(t.get_total_books(&s("")), 0);
}

#[test]
fn unseen_reader_is_blank() {
    let mut t = ReadingTracker::new();
    t.complete_book(s("GAREADERA"), s("Dune")).unwrap();
    assert_eq!(t.get_total_books(&s("GCNEVERSEEN")), 0);
    assert_eq!(t.get_last_book(&s("GCNEVERSEEN")), "");
}

#[test]
fn repeated_completions_count() {
    let mut t = ReadingTracker::new();
    let titles = ["Dune", "Emma", "Ulysses", "Beloved", "Dracula"];
    for title in titles {
        t.complete_book(s("GAREADERA"), s(title)).unwrap();
    }
    assert_eq!(t.get_total_books(&s("GAREADERA")), 5);
    assert_eq!(t.get_global_count(), 5);
    assert_eq!(t.get_last_book(&s("GAREADERA")), "Dracula");
}

#[test]
fn latest_title_overwrites() {
    let mut t = ReadingTracker::new();
    t.complete_book(s("GAREADERA"), s("Dune")).unwrap();
    assert_eq!(t.get_last_book(&s("GAREADERA")), "Dune");
    t.complete_book(s("GAREADERA"), s("Emma")).unwrap();
    assert_eq!(t.get_last_book(&s("GAREADERA")), "Emma");
}

#[test]
fn repeated_title_counts_again() {
    let mut t = ReadingTracker::new();
    t.complete_book(s("GAREADERA"), s("Dune")).unwrap();
    t.complete_book(s("GAREADERA"), s("Dune")).unwrap();
    assert_eq!(t.get_total_books(&s("GAREADERA")), 2);
    assert_eq!(t.get_last_book(&s("GAREADERA")), "Dune");
    assert_eq!(t.get_global_count(), 2);
}

#[test]
fn empty_title_is_accepted() {
    let mut t = ReadingTracker::new();
    t.complete_book(s("GAREADERA"), s("Dune")).unwrap();
    assert_eq!(t.complete_book(s("GAREADERA"), s("")), Ok(()));
    assert_eq!(t.get_last_book(&s("GAREADERA")), "");
    assert_eq!(t.get_total_books(&s("GAREADERA")), 2);
}

#[test]
fn global_equals_sum_of_readers() {
    let mut t = ReadingTracker::new();
    let events = [
        ("GA", "Dune"),
        ("GB", "Emma"),
        ("GA", "Emma"),
        ("GC", "Dune"),
        ("GB", "Ulysses"),
        ("GA", "Beloved"),
    ];
    for (reader, title) in events {
        t.complete_book(s(reader), s(title)).unwrap();
    }
    let sum: u32 = ["GA", "GB", "GC"].iter().map(|r| t.get_total_books(&s(r))).sum();
    assert_eq!(t.get_total_books(&s("GA")), 3);
    assert_eq!(t.get_total_books(&s("GB")), 2);
    assert_eq!(t.get_total_books(&s("GC")), 1);
    assert_eq!(sum, 6);
    assert_eq!(t.get_global_count(), sum);
}

#[test]
fn interleaved_orders_agree() {
    let mut first = ReadingTracker::new();
    first.complete_book(s("GA"), s("Dune")).unwrap();
    first.complete_book(s("GB"), s("Emma")).unwrap();
    first.complete_book(s("GA"), s("Ulysses")).unwrap();
    let mut second = ReadingTracker::new();
    second.complete_book(s("GB"), s("Emma")).unwrap();
    second.complete_book(s("GA"), s("Dune")).unwrap();
    second.complete_book(s("GA"), s("Ulysses")).unwrap();
    for reader in ["GA", "GB"] {
        assert_eq!(first.get_total_books(&s(reader)), second.get_total_books(&s(reader)));
        assert_eq!(first.get_last_book(&s(reader)), second.get_last_book(&s(reader)));
    }
    assert_eq!(first.get_global_count(), 3);
    assert_eq!(second.get_global_count(), 3);
}

#[test]
fn readers_are_told_apart_by_whole_identity() {
    let mut t = ReadingTracker::new();
    t.complete_book(s("GA"), s("Dune")).unwrap();
    t.complete_book(s("GAB"), s("Emma")).unwrap();
    assert_eq!(t.get_total_books(&s("GA")), 1);
    assert_eq!(t.get_total_books(&s("GAB")), 1);
    assert_eq!(t.get_last_book(&s("GA")), "Dune");
    assert_eq!(t.get_total_books(&s("G")), 0);
}

#[test]
fn bump_counts_adds_one_to_each() {
    assert_eq!(bump_counts(0, 0), Ok((1, 1)));
    assert_eq!(bump_counts(4, 17), Ok((5, 18)));
    assert_eq!(bump_counts(u32::MAX - 1, u32::MAX - 1), Ok((u32::MAX, u32::MAX)));
}

#[test]
fn bump_counts_fails_when_full() {
    assert_eq!(bump_counts(3, u32::MAX), Err(LedgerError::StorageFailure));
    assert_eq!(bump_counts(u32::MAX, u32::MAX), Err(LedgerError::StorageFailure));
    assert_eq!(bump_counts(u32::MAX, 7), Err(LedgerError::StorageFailure));
}
