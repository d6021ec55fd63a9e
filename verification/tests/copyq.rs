use zone_image::copyq::{CopyEntry, CopyQueue};

fn count_copies(batches: &Vec<Vec<CopyEntry>>) -> usize {
    let mut n = 0;
    for b in batches {
        for e in b {
            if matches!(e, CopyEntry::Copy { .. }) {
                n += 1;
            }
        }
    }
    n
}

fn total_items(batches: &Vec<Vec<CopyEntry>>) -> usize {
    let mut n = 0;
    for b in batches {
        n += b.len();
    }
    n
}

#[test]
fn queue_accounts_for_every_item_at_any_batch_size() {
    // whatever the batch size and worker count, the drained batches hold
    // exactly the submitted items
    let k = 7;
    for batch in 1..=k {
        for threads in 1..=8 {
            let mut q = CopyQueue::new(threads, batch);
            assert_eq!(q.threads(), threads);
            for i in 0..k {
                q.push_copy(format!("/src/{i}"), format!("/dst/{i}"));
            }
            let batches = q.finish();
            assert_eq!(count_copies(&batches), k);
            assert_eq!(total_items(&batches), k);
        }
    }
}

#[test]
fn queue_keeps_submission_order() {
    let mut q = CopyQueue::new(2, 2);
    q.push_copy("/a".to_string(), "/b".to_string());
    q.push_relative_link("/c".to_string(), "/d".to_string());
    q.push_absolute_link("../e".to_string(), "/f".to_string());
    let batches = q.finish();
    let flat: Vec<&CopyEntry> = batches.iter().flat_map(|b| b.iter()).collect();
    assert_eq!(flat.len(), 3);
    assert!(matches!(flat[0], CopyEntry::Copy { .. }));
    assert!(matches!(flat[1], CopyEntry::RelativeLink { .. }));
    assert!(matches!(flat[2], CopyEntry::AbsoluteLink { .. }));
}

#[test]
fn queue_links_count_no_files() {
    let mut q = CopyQueue::new(1, 128);
    q.push_relative_link("/a".to_string(), "/b".to_string());
    q.push_absolute_link("../c".to_string(), "/d".to_string());
    let batches = q.finish();
    assert_eq!(count_copies(&batches), 0);
    assert_eq!(total_items(&batches), 2);
}
