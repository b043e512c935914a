use bloom2::{Bitmap, CompressedBitmap};

fn runs(bitmap: &CompressedBitmap) -> Vec<(usize, usize)> {
    bitmap.ranges().to_vec()
}

fn with_set(keys: &[usize]) -> CompressedBitmap {
    let mut bitmap = CompressedBitmap::new();
    for key in keys {
        bitmap.set(*key, true);
    }
    bitmap
}

fn is_canonical(runs: &[(usize, usize)]) -> bool {
    runs.iter().all(|r| r.0 <= r.1)
        && runs
            .windows(2)
            .all(|w| w[0].1 < w[1].0 && w[1].0 - w[0].1 >= 2)
}

#[test]
fn new_bitmap_holds_nothing() {
    let bitmap = CompressedBitmap::new();
    assert!(runs(&bitmap).is_empty());
    assert!(!bitmap.get(0));
    assert!(!bitmap.get(42));
    assert!(!bitmap.get(usize::MAX));
}

#[test]
fn set_then_get() {
    let mut bitmap = CompressedBitmap::new();
    bitmap.set(42, true);
    assert!(bitmap.get(42));
    assert!(!bitmap.get(41));
    assert!(!bitmap.get(43));
    assert_eq!(runs(&bitmap), vec![(42, 42)]);
}

#[test]
fn set_is_idempotent() {
    let mut bitmap = with_set(&[3, 4, 5, 9]);
    let once = runs(&bitmap);
    bitmap.set(4, true);
    bitmap.set(9, true);
    bitmap.set(3, true);
    assert_eq!(runs(&bitmap), once);
    assert_eq!(once, vec![(3, 5), (9, 9)]);
}

#[test]
fn distant_positions_make_runs_of_their_own_in_order() {
    let bitmap = with_set(&[50, 10, 30, 20, 40]);
    assert_eq!(
        runs(&bitmap),
        vec![(10, 10), (20, 20), (30, 30), (40, 40), (50, 50)]
    );
}

#[test]
fn a_position_behind_a_run_extends_it() {
    let bitmap = with_set(&[10, 11, 12]);
    assert_eq!(runs(&bitmap), vec![(10, 12)]);
}

#[test]
fn a_position_before_a_run_extends_it() {
    let bitmap = with_set(&[12, 11, 10]);
    assert_eq!(runs(&bitmap), vec![(10, 12)]);
}

#[test]
fn filling_a_gap_of_one_merges_two_runs() {
    let mut bitmap = with_set(&[5, 7]);
    assert_eq!(runs(&bitmap), vec![(5, 5), (7, 7)]);
    bitmap.set(6, true);
    assert_eq!(runs(&bitmap), vec![(5, 7)]);
    assert!(bitmap.get(5) && bitmap.get(6) && bitmap.get(7));
    assert!(!bitmap.get(4) && !bitmap.get(8));
}

#[test]
fn a_gap_of_two_is_closed_in_two_steps() {
    let mut bitmap = with_set(&[1, 2, 5, 6, 20]);
    assert_eq!(runs(&bitmap), vec![(1, 2), (5, 6), (20, 20)]);
    bitmap.set(3, true);
    assert_eq!(runs(&bitmap), vec![(1, 3), (5, 6), (20, 20)]);
    bitmap.set(4, true);
    assert_eq!(runs(&bitmap), vec![(1, 6), (20, 20)]);
}

#[test]
fn clearing_the_only_position_of_a_run_removes_it() {
    let mut bitmap = with_set(&[1, 5, 9]);
    bitmap.set(5, false);
    assert_eq!(runs(&bitmap), vec![(1, 1), (9, 9)]);
    assert!(!bitmap.get(5));
}

#[test]
fn clearing_an_end_of_a_run_shrinks_it() {
    let mut bitmap = with_set(&[10, 11, 12, 13]);
    bitmap.set(10, false);
    assert_eq!(runs(&bitmap), vec![(11, 13)]);
    bitmap.set(13, false);
    assert_eq!(runs(&bitmap), vec![(11, 12)]);
}

#[test]
fn clearing_inside_a_run_splits_it() {
    let mut bitmap = with_set(&[10, 11, 12, 13, 14]);
    bitmap.set(12, false);
    assert_eq!(runs(&bitmap), vec![(10, 11), (13, 14)]);
    assert!(!bitmap.get(12));
    assert!(bitmap.get(11) && bitmap.get(13));
}

#[test]
fn clearing_what_is_not_set_changes_nothing() {
    let mut bitmap = with_set(&[10, 11, 20]);
    bitmap.set(15, false);
    bitmap.set(0, false);
    bitmap.set(usize::MAX, false);
    assert_eq!(runs(&bitmap), vec![(10, 11), (20, 20)]);
}

#[test]
fn the_ends_of_the_address_space() {
    let mut bitmap = CompressedBitmap::new();
    bitmap.set(usize::MAX, true);
    bitmap.set(0, true);
    assert_eq!(runs(&bitmap), vec![(0, 0), (usize::MAX, usize::MAX)]);
    assert!(bitmap.get(0));
    assert!(bitmap.get(usize::MAX));
    assert!(!bitmap.get(1));
    assert!(!bitmap.get(usize::MAX - 1));
    bitmap.set(usize::MAX - 1, true);
    bitmap.set(1, true);
    assert_eq!(runs(&bitmap), vec![(0, 1), (usize::MAX - 1, usize::MAX)]);
    bitmap.set(usize::MAX, false);
    bitmap.set(0, false);
    assert_eq!(runs(&bitmap), vec![(1, 1), (usize::MAX - 1, usize::MAX - 1)]);
}

#[test]
fn get_searches_many_runs() {
    let mut bitmap = CompressedBitmap::new();
    for i in 0..1000usize {
        bitmap.set(i * 10, true);
        bitmap.set(i * 10 + 1, true);
    }
    assert_eq!(runs(&bitmap).len(), 1000);
    for i in 0..1000usize {
        assert!(bitmap.get(i * 10));
        assert!(bitmap.get(i * 10 + 1));
        assert!(!bitmap.get(i * 10 + 2));
        assert!(!bitmap.get(i * 10 + 9));
    }
}

#[test]
fn runs_stay_canonical_under_random_sets() {
    let mut state: u64 = 0x2545_f491_4f6c_dd1d;
    let mut bitmap = CompressedBitmap::new();
    let mut model = vec![false; 512];
    for _ in 0..4000 {
        state = state
            .wrapping_mul(6364136223846793005)
            .wrapping_add(1442695040888963407);
        let key = (state >> 33) as usize % 512;
        bitmap.set(key, true);
        model[key] = true;
        assert!(is_canonical(bitmap.ranges()));
    }
    for (key, set) in model.iter().enumerate() {
        assert_eq!(bitmap.get(key), *set);
    }
}

#[test]
fn runs_stay_canonical_under_random_sets_and_clears() {
    let mut state: u64 = 0x9e37_79b9_7f4a_7c15;
    let mut bitmap = CompressedBitmap::new();
    let mut model = vec![false; 256];
    for _ in 0..6000 {
        state = state
            .wrapping_mul(6364136223846793005)
            .wrapping_add(1442695040888963407);
        let key = (state >> 33) as usize % 256;
        let value = (state >> 20) & 3 != 0;
        bitmap.set(key, value);
        model[key] = value;
        assert!(is_canonical(bitmap.ranges()));
        assert_eq!(bitmap.get(key), value);
    }
    let mut expected = Vec::new();
    let mut key = 0;
    while key < model.len() {
        if model[key] {
            let first = key;
            while key + 1 < model.len() && model[key + 1] {
                key += 1;
            }
            expected.push((first, key));
        }
        key += 1;
    }
    assert_eq!(runs(&bitmap), expected);
}

#[test]
fn the_same_positions_give_the_same_runs_in_any_order() {
    let a = with_set(&[1, 2, 3, 10, 11, 40]);
    let b = with_set(&[40, 11, 3, 1, 10, 2]);
    assert_eq!(runs(&a), runs(&b));
    assert_eq!(a, b);
}

#[test]
fn from_runs_takes_canonical_runs() {
    let made = CompressedBitmap::from_runs(vec![(1, 3), (5, 5), (9, 20)]);
    let bitmap = made.expect("canonical runs");
    assert_eq!(runs(&bitmap), vec![(1, 3), (5, 5), (9, 20)]);
    assert!(bitmap.get(2));
    assert!(!bitmap.get(4));
    assert!(bitmap.get(5));
    assert!(bitmap.get(20));
    assert!(!bitmap.get(21));
    assert!(CompressedBitmap::from_runs(vec![]).is_some());
    assert!(CompressedBitmap::from_runs(vec![(0, usize::MAX)]).is_some());
}

#[test]
fn from_runs_turns_down_what_is_not_canonical() {
    assert!(CompressedBitmap::from_runs(vec![(3, 1)]).is_none());
    assert!(CompressedBitmap::from_runs(vec![(1, 3), (4, 5)]).is_none());
    assert!(CompressedBitmap::from_runs(vec![(1, 3), (3, 5)]).is_none());
    assert!(CompressedBitmap::from_runs(vec![(1, 3), (2, 5)]).is_none());
    assert!(CompressedBitmap::from_runs(vec![(5, 6), (1, 2)]).is_none());
    assert!(CompressedBitmap::from_runs(vec![(1, 2), (4, 5), (5, 9)]).is_none());
    assert!(CompressedBitmap::from_runs(vec![(1, usize::MAX), (0, 0)]).is_none());
}

#[test]
fn from_runs_restores_a_bitmap() {
    let bitmap = with_set(&[7, 8, 9, 100, 1000, 1001]);
    let restored = CompressedBitmap::from_runs(runs(&bitmap)).expect("canonical runs");
    assert_eq!(restored, bitmap);
}

#[test]
fn clone_keeps_the_runs() {
    let bitmap = with_set(&[7, 8, 9, 100]);
    let mut copy = bitmap.clone();
    assert_eq!(copy, bitmap);
    copy.set(10, true);
    assert_eq!(runs(&copy), vec![(7, 10), (100, 100)]);
    assert_eq!(runs(&bitmap), vec![(7, 9), (100, 100)]);
}
