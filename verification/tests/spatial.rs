use obfuscation::game::DroneId;
use obfuscation::lgrn::IdReg;
use obfuscation::spatial::{
    all_in_box, candidates, first_in_box, is_sorted, lower_bound, prune_index, rebuild_index,
};

fn drones(active: &[usize]) -> IdReg<DroneId> {
    let mut ids: IdReg<DroneId> = Default::default();
    ids.resize(64);
    for _ in 0..64 {
        let _ = ids.create();
    }
    for i in 0..64 {
        if !active.contains(&i) {
            ids.remove(DroneId(i));
        }
    }
    ids
}

#[test]
fn rebuild_index_sorts_by_the_new_keys() {
    let ids = drones(&[0, 1, 2, 3, 4]);
    let mut xs = vec![0i64; 64];
    xs[0] = 50;
    xs[1] = -7;
    xs[2] = 50;
    xs[3] = 9;
    xs[4] = -100;
    let mut index: Vec<(DroneId, i64)> = (0..5).map(|i| (DroneId(i), 0)).collect();
    rebuild_index(&mut index, &ids, &xs);
    let keys: Vec<i64> = index.iter().map(|e| e.1).collect();
    assert_eq!(keys, vec![-100, -7, 9, 50, 50]);
    assert_eq!(index[0].0, DroneId(4));
    assert_eq!(index[1].0, DroneId(1));
    assert_eq!(index[2].0, DroneId(3));
    let mut last: Vec<usize> = vec![index[3].0 .0, index[4].0 .0];
    last.sort();
    assert_eq!(last, vec![0, 2]);
    assert!(is_sorted(&index));
}

#[test]
fn rebuild_index_drops_drones_that_are_gone() {
    let ids = drones(&[1, 3]);
    let mut xs = vec![0i64; 64];
    xs[1] = 20;
    xs[3] = 10;
    let mut index: Vec<(DroneId, i64)> =
        vec![(DroneId(0), 5), (DroneId(1), 6), (DroneId(2), 7), (DroneId(3), 8), (DroneId(4), 9)];
    rebuild_index(&mut index, &ids, &xs);
    assert_eq!(index, vec![(DroneId(3), 10), (DroneId(1), 20)]);
    let none = drones(&[]);
    rebuild_index(&mut index, &none, &xs);
    assert!(index.is_empty());
    rebuild_index(&mut index, &none, &xs);
    assert!(index.is_empty());
}

#[test]
fn prune_index_moves_the_last_entry_into_a_gap() {
    let ids = drones(&[1, 2, 4]);
    let xs: Vec<i64> = (0..64).map(|i| 100 + i).collect();
    let mut index: Vec<(DroneId, i64)> =
        vec![(DroneId(0), 0), (DroneId(1), 0), (DroneId(3), 0), (DroneId(2), 0), (DroneId(4), 0)];
    prune_index(&mut index, &ids, &xs);
    assert_eq!(index, vec![(DroneId(4), 104), (DroneId(1), 101), (DroneId(2), 102)]);
}

#[test]
fn lower_bound_finds_the_first_key_not_below() {
    let index: Vec<(DroneId, i64)> =
        [1i64, 3, 3, 3, 8, 10].iter().enumerate().map(|(i, &x)| (DroneId(i), x)).collect();
    assert_eq!(lower_bound(&index, 0), 0);
    assert_eq!(lower_bound(&index, 1), 0);
    assert_eq!(lower_bound(&index, 2), 1);
    assert_eq!(lower_bound(&index, 3), 1);
    assert_eq!(lower_bound(&index, 4), 4);
    assert_eq!(lower_bound(&index, 10), 5);
    assert_eq!(lower_bound(&index, 11), 6);
    assert_eq!(lower_bound(&Vec::new(), 11), 0);
}

#[test]
fn candidates_equal_the_brute_force_set() {
    let keys = [-40i64, -8, -8, 0, 3, 3, 3, 17, 64, 65, 200];
    let index: Vec<(DroneId, i64)> =
        keys.iter().enumerate().map(|(i, &x)| (DroneId(i), x)).collect();
    for lo in -50..210i64 {
        for width in [0i64, 1, 5, 64, 300] {
            let hi = lo + width;
            let (start, end) = candidates(&index, lo, hi);
            let got: Vec<usize> = (start..end).collect();
            let brute: Vec<usize> =
                (0..index.len()).filter(|&i| lo <= index[i].1 && index[i].1 <= hi).collect();
            assert_eq!(got, brute);
        }
    }
    assert_eq!(candidates(&index, 3, 3), (4, 7));
    assert_eq!(candidates(&index, 5, 2), (7, 7));
    assert_eq!(candidates(&Vec::new(), 0, 9), (0, 0));
}

#[test]
fn first_in_box_takes_the_lowest_x_inside() {
    // drone i lies at (xs[i], ys[i])
    let xs = [0i64, 10, 20, 30, 40];
    let ys = vec![0i64, 100, 5, 5, 5];
    let index: Vec<(DroneId, i64)> = xs.iter().enumerate().map(|(i, &x)| (DroneId(i), x)).collect();
    assert_eq!(first_in_box(&index, &ys, 5, 45, 0, 10), Some(2));
    assert_eq!(first_in_box(&index, &ys, 5, 45, 50, 150), Some(1));
    // the edges of the box are outside
    assert_eq!(first_in_box(&index, &ys, 20, 30, 0, 10), None);
    assert_eq!(first_in_box(&index, &ys, 19, 31, 5, 10), None);
    assert_eq!(first_in_box(&index, &ys, 19, 31, 4, 6), Some(2));
    assert_eq!(first_in_box(&index, &ys, 41, 90, 0, 10), None);
    assert_eq!(first_in_box(&index, &ys, -90, 0, -5, 5), None);
    assert_eq!(first_in_box(&index, &ys, -90, 1, -5, 5), Some(0));
}

#[test]
fn is_sorted_tells_order() {
    assert!(is_sorted(&Vec::new()));
    assert!(is_sorted(&vec![(DroneId(3), 5)]));
    assert!(is_sorted(&vec![(DroneId(3), 5), (DroneId(1), 5), (DroneId(2), 6)]));
    assert!(!is_sorted(&vec![(DroneId(3), 5), (DroneId(1), 4), (DroneId(2), 6)]));
}

#[test]
fn all_in_box_equals_a_look_at_every_drone() {
    // a small cloud of drones, drone i at (xs[i], ys[i])
    let n = 40usize;
    let xs: Vec<i64> = (0..n).map(|i| ((i * 37) % 101) as i64 * 8 - 300).collect();
    let ys: Vec<i64> = (0..n).map(|i| ((i * 53) % 89) as i64 * 8 - 200).collect();
    let ids = {
        let mut ids: IdReg<DroneId> = Default::default();
        ids.resize(64);
        for _ in 0..n {
            let _ = ids.create();
        }
        ids
    };
    let mut index: Vec<(DroneId, i64)> = (0..n).map(|i| (DroneId(i), 0)).collect();
    rebuild_index(&mut index, &ids, &xs);
    assert_eq!(index.len(), n);
    for px in (-340..560).step_by(23) {
        for py in (-240..540).step_by(31) {
            let (x_lo, x_hi, y_lo, y_hi) = (px - 32, px + 32, py - 32, py + 32);
            let got = all_in_box(&index, &ys, x_lo, x_hi, y_lo, y_hi);
            let brute: Vec<usize> = (0..n)
                .filter(|&j| {
                    let (id, x) = index[j];
                    x_lo < x && x < x_hi && y_lo < ys[id.0] && ys[id.0] < y_hi
                })
                .collect();
            assert_eq!(got, brute);
            assert_eq!(first_in_box(&index, &ys, x_lo, x_hi, y_lo, y_hi), brute.first().copied());
        }
    }
    let everything = all_in_box(&index, &ys, -1000, 1000, -1000, 1000);
    assert_eq!(everything, (0..n).collect::<Vec<usize>>());
    assert!(all_in_box(&index, &ys, 5, 5, -1000, 1000).is_empty());
}
