use pengui_redn::{BATCH_SIZE, EMBED_SIZE, EPOCHS, HIDDEN_SIZE, SEQ_LEN};
use pengui_redn::{batch_from_starts, draw_bound, get_batch, saves_checkpoint, shows_progress, train_plan};

#[test]
fn train_plan_refuses_short_data() {
    assert!(train_plan(0).is_none());
    assert!(train_plan(7).is_none());
}

#[test]
fn train_plan_sizes() {
    let p = train_plan(8).unwrap();
    assert_eq!((p.seq_len, p.batch_size, p.steps_per_epoch), (4, 64, 40));
    let p = train_plan(10).unwrap();
    assert_eq!((p.seq_len, p.batch_size, p.steps_per_epoch), (5, 64, 40));
    let p = train_plan(599).unwrap();
    assert_eq!((p.seq_len, p.batch_size, p.steps_per_epoch), (299, 64, 40));
    let p = train_plan(600).unwrap();
    assert_eq!((p.seq_len, p.batch_size, p.steps_per_epoch), (300, 64, 40));
    let p = train_plan(10_000).unwrap();
    assert_eq!((p.seq_len, p.batch_size, p.steps_per_epoch), (300, 64, 40));
    let p = train_plan(1_000_000).unwrap();
    assert_eq!((p.seq_len, p.batch_size, p.steps_per_epoch), (300, 64, 52));
}

#[test]
fn schedule_of_checkpoints_and_progress() {
    assert!(saves_checkpoint(0));
    assert!(saves_checkpoint(5));
    assert!(!saves_checkpoint(3));
    assert!(!shows_progress(0));
    assert!(shows_progress(100));
    assert!(!shows_progress(150));
}

#[test]
fn batch_from_starts_copies_windows() {
    let data = vec![10, 11, 12, 13, 14, 15];
    let (xs, ys) = batch_from_starts(&data, 3, &[0, 2]);
    assert_eq!(xs, vec![10, 11, 12, 12, 13, 14]);
    assert_eq!(ys, vec![11, 12, 13, 13, 14, 15]);
    let (xs, ys) = batch_from_starts(&data, 3, &[]);
    assert!(xs.is_empty() && ys.is_empty());
}

#[test]
fn get_batch_draws_windows_in_range() {
    let data: Vec<u32> = (0..20).collect();
    let mut rng = rand::thread_rng();
    let mut highest = 0;
    for _ in 0..50 {
        let (xs, ys) = get_batch(&data, 4, 3, &mut rng);
        assert_eq!(xs.len(), 12);
        assert_eq!(ys.len(), 12);
        for b in 0..3 {
            let start = xs[b * 4];
            assert!(start < 15);
            highest = highest.max(start);
            for k in 0..4 {
                assert_eq!(xs[b * 4 + k], start + k as u32);
                assert_eq!(ys[b * 4 + k], start + k as u32 + 1);
            }
        }
    }
    // 150 draws below 15: all of them below 10 is out of reach of chance.
    assert!(highest >= 10);
}

#[test]
fn get_batch_on_the_shortest_data_starts_at_zero() {
    let data = vec![5, 6, 7];
    let mut rng = rand::thread_rng();
    let (xs, ys) = get_batch(&data, 2, 2, &mut rng);
    assert_eq!(xs, vec![5, 6, 5, 6]);
    assert_eq!(ys, vec![6, 7, 6, 7]);
}

#[test]
fn get_batch_of_no_windows_is_empty_even_on_short_data() {
    let data = vec![5, 6, 7];
    let mut rng = rand::thread_rng();
    let (xs, ys) = get_batch(&data, 3, 0, &mut rng);
    assert!(xs.is_empty());
    assert!(ys.is_empty());
}

#[test]
fn get_batch_with_room_for_one_window() {
    let data = vec![1, 2, 3, 4];
    let mut rng = rand::thread_rng();
    let (xs, ys) = get_batch(&data, 3, 2, &mut rng);
    assert_eq!(xs, vec![1, 2, 3, 1, 2, 3]);
    assert_eq!(ys, vec![2, 3, 4, 2, 3, 4]);
}

#[test]
fn training_constants() {
    assert_eq!((SEQ_LEN, BATCH_SIZE, EPOCHS), (300, 64, 60));
    assert_eq!((EMBED_SIZE, HIDDEN_SIZE), (256, 512));
    let checkpoints = (0..EPOCHS).filter(|&e| saves_checkpoint(e)).count();
    assert_eq!(checkpoints, 12);
}

#[test]
fn draw_bound_leaves_room_for_the_target() {
    assert_eq!(draw_bound(10, 3), 6);
    assert_eq!(draw_bound(5, 3), 1);
    assert_eq!(draw_bound(4, 3), 0);
    assert_eq!(draw_bound(3, 3), 0);
    assert_eq!(draw_bound(0, 0), 0);
}
