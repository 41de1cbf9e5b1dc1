use wishlist_watch::batch::{Batch, UnitStage};
use wishlist_watch::notify::alert_text;

fn run_to_done(batch: &mut Batch, i: usize) {
    batch.advance(i, true); // scraped
    batch.advance(i, true); // extracted
    batch.advance(i, true); // persisted
}

#[test]
fn one_failure_does_not_block_the_batch() {
    // five units, window of three, unit at index 2 fails while scraping
    let mut batch = Batch::new(5, 3);
    assert_eq!(batch.start_next(), Some(0));
    assert_eq!(batch.start_next(), Some(1));
    assert_eq!(batch.start_next(), Some(2));
    // the window is full
    assert_eq!(batch.start_next(), None);

    batch.advance(2, false); // the scrape of unit 2 fails
    assert_eq!(batch.start_next(), Some(3));
    run_to_done(&mut batch, 3);
    assert_eq!(batch.start_next(), Some(4));
    run_to_done(&mut batch, 0);
    run_to_done(&mut batch, 4);
    run_to_done(&mut batch, 1);
    assert_eq!(batch.start_next(), None);

    assert_eq!(batch.done_count(), 4);
    assert_eq!(batch.failed_count(), 1);
    assert_eq!(batch.failed_units(), vec![2]);

    // one operational alert, for the one failed unit
    let ids = vec!["w0", "w1", "w2", "w3", "w4"];
    let alerts: Vec<String> =
        batch.failed_units().iter().map(|&i| alert_text(ids[i])).collect();
    assert_eq!(alerts, vec!["update failed: w2".to_string()]);
}

#[test]
fn window_of_one_serializes_starts() {
    let mut batch = Batch::new(2, 1);
    assert_eq!(batch.start_next(), Some(0));
    assert_eq!(batch.start_next(), None);
    run_to_done(&mut batch, 0);
    assert_eq!(batch.start_next(), Some(1));
    batch.advance(1, true);
    batch.advance(1, false); // extraction fails mid-flight
    assert_eq!(batch.done_count(), 1);
    assert_eq!(batch.failed_count(), 1);
}

#[test]
fn stages_walk_in_order() {
    let mut batch = Batch::new(1, 1);
    assert_eq!(batch.stages[0], UnitStage::Pending);
    batch.start_next();
    assert_eq!(batch.stages[0], UnitStage::Scraping);
    batch.advance(0, true);
    assert_eq!(batch.stages[0], UnitStage::Extracting);
    batch.advance(0, true);
    assert_eq!(batch.stages[0], UnitStage::Persisting);
    batch.advance(0, true);
    assert_eq!(batch.stages[0], UnitStage::Done);
}
