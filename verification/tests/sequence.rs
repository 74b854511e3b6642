use tree_array::TreeArray;

fn contents(t: &mut TreeArray<i32>) -> Vec<i32> {
    let mut out = Vec::new();
    let n = t.len();
    for i in 0..n {
        out.push(*t.get(i).expect("every rank below the length holds a value"));
    }
    out
}

fn next_random(state: &mut u64) -> u64 {
    *state = state.wrapping_mul(6364136223846793005).wrapping_add(1442695040888963407);
    *state >> 33
}

#[test]
fn new_is_empty() {
    let mut t: TreeArray<i32> = TreeArray::new();
    assert_eq!(t.len(), 0);
    assert_eq!(t.get(0), None);
}

#[test]
fn first_insert() {
    let mut t = TreeArray::new();
    t.insert(0, 1);
    assert_eq!(t.len(), 1);
    assert_eq!(t.get(0), Some(&1));
}

#[test]
fn insert_at_end() {
    let mut t = TreeArray::new();
    t.insert(0, 1);
    t.insert(1, 2);
    assert_eq!(t.len(), 2);
    assert_eq!(t.get(0), Some(&1));
    assert_eq!(t.get(1), Some(&2));
    assert_eq!(contents(&mut t), vec![1, 2]);
}

#[test]
fn insert_at_front_displaces() {
    let mut t = TreeArray::new();
    t.insert(0, 1);
    t.insert(0, 2);
    assert_eq!(contents(&mut t), vec![2, 1]);
    assert_eq!(t.get(0), Some(&2));
    assert_eq!(t.get(1), Some(&1));
}

#[test]
fn insert_in_the_middle() {
    let mut t = TreeArray::new();
    t.insert(0, 1);
    t.insert(1, 2);
    t.insert(1, 3);
    assert_eq!(contents(&mut t), vec![1, 3, 2]);
    assert_eq!(t.get(2), Some(&2));
    assert_eq!(t.len(), 3);
}

#[test]
fn first_insert_ignores_the_rank() {
    let mut t = TreeArray::new();
    t.insert(17, 5);
    assert_eq!(t.len(), 1);
    assert_eq!(t.get(0), Some(&5));
    assert_eq!(t.get(17), None);
}

#[test]
fn insert_past_the_end_appends() {
    let mut t = TreeArray::new();
    t.insert(0, 1);
    t.insert(1, 2);
    t.insert(2, 3);
    t.insert(9, 4);
    assert_eq!(contents(&mut t), vec![1, 2, 3, 4]);
    t.insert(usize::MAX, 5);
    assert_eq!(contents(&mut t), vec![1, 2, 3, 4, 5]);
    assert_eq!(t.len(), 5);
}

#[test]
fn get_outside_is_none() {
    let mut t = TreeArray::new();
    for i in 0..5 {
        t.insert(i, i as i32);
    }
    assert_eq!(t.get(5), None);
    assert_eq!(t.get(6), None);
    assert_eq!(t.get(usize::MAX), None);
    assert_eq!(t.len(), 5);
    assert_eq!(contents(&mut t), vec![0, 1, 2, 3, 4]);
}

#[test]
fn get_inside_is_some() {
    let mut t = TreeArray::new();
    for i in 0..40 {
        t.insert(i / 2, i as i32);
    }
    let n = t.len();
    assert_eq!(n, 40);
    for i in 0..n {
        assert!(t.get(i).is_some());
    }
    for i in (0..n).rev() {
        assert!(t.get(i).is_some());
    }
    assert!(t.get(n).is_none());
}

#[test]
fn get_repeated_gives_the_same() {
    let mut t = TreeArray::new();
    for i in 0..20 {
        t.insert(0, i as i32);
    }
    let before = contents(&mut t);
    for _ in 0..3 {
        assert_eq!(t.get(7), Some(&12));
        assert_eq!(t.get(0), Some(&19));
        assert_eq!(t.get(19), Some(&0));
        assert_eq!(t.get(20), None);
        assert_eq!(t.len(), 20);
    }
    assert_eq!(contents(&mut t), before);
}

#[test]
fn ascending_and_descending_fill() {
    let mut up = TreeArray::new();
    let mut down = TreeArray::new();
    for i in 0..200 {
        up.insert(i, i as i32);
        down.insert(0, i as i32);
    }
    let expect_up: Vec<i32> = (0..200).collect();
    let expect_down: Vec<i32> = (0..200).rev().collect();
    assert_eq!(contents(&mut up), expect_up);
    assert_eq!(contents(&mut down), expect_down);
}

#[test]
fn inserts_at_other_ranks() {
    let mut t = TreeArray::new();
    let mut reference: Vec<i32> = Vec::new();
    let ranks = [0usize, 1, 1, 3, 2, 5, 0, 4, 7, 3, 10, 6];
    let mut value = 10;
    for &r in ranks.iter() {
        t.insert(r, value);
        reference.insert(r, value);
        value += 1;
        assert_eq!(t.len(), reference.len());
    }
    assert_eq!(contents(&mut t), reference);
    assert_eq!(reference, vec![16, 10, 12, 19, 14, 17, 21, 11, 13, 18, 15, 20]);
}

#[test]
fn random_inserts_match_a_vec() {
    let mut state: u64 = 0x2545_f491_4f6c_dd1d;
    let mut t = TreeArray::new();
    let mut reference: Vec<i32> = Vec::new();
    for step in 0..300 {
        let rank = (next_random(&mut state) as usize) % (reference.len() + 1);
        let value = (next_random(&mut state) % 1000) as i32;
        t.insert(rank, value);
        reference.insert(rank, value);
        assert_eq!(t.len(), reference.len());
        if step % 7 == 0 || step > 280 {
            for i in 0..reference.len() {
                assert_eq!(t.get(i), Some(&reference[i]));
            }
            assert_eq!(t.get(reference.len()), None);
        } else {
            let probe = (next_random(&mut state) as usize) % reference.len();
            assert_eq!(t.get(probe), Some(&reference[probe]));
        }
    }
}

#[test]
fn random_inserts_checked_after_every_step() {
    let mut state: u64 = 99;
    let mut t = TreeArray::new();
    let mut reference: Vec<i32> = Vec::new();
    for _ in 0..120 {
        let rank = (next_random(&mut state) as usize) % (reference.len() + 1);
        let value = (next_random(&mut state) % 50) as i32;
        t.insert(rank, value);
        reference.insert(rank, value);
        assert_eq!(t.len(), reference.len());
        for i in 0..reference.len() {
            assert_eq!(t.get(i), Some(&reference[i]));
        }
    }
}
