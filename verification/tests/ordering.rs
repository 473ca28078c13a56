use spack::fixed::Fixed;
use spack::sort::stable_order;

fn values(raws: &[i64]) -> Vec<Fixed> {
    raws.iter().map(|v| Fixed { raw: *v }).collect()
}

#[test]
fn order_ascends() {
    assert_eq!(stable_order(&values(&[5, 1, 4, 2, 3]), false), vec![1, 3, 4, 2, 0]);
}

#[test]
fn order_descends() {
    assert_eq!(stable_order(&values(&[5, 1, 4, 2, 3]), true), vec![0, 2, 4, 3, 1]);
}

#[test]
fn order_keeps_equal_values_as_they_stand() {
    assert_eq!(stable_order(&values(&[2, 1, 2, 1, 2]), false), vec![1, 3, 0, 2, 4]);
    assert_eq!(stable_order(&values(&[2, 1, 2, 1, 2]), true), vec![0, 2, 4, 1, 3]);
}

#[test]
fn order_of_nothing_and_of_one() {
    assert_eq!(stable_order(&values(&[]), false), Vec::<usize>::new());
    assert_eq!(stable_order(&values(&[7]), true), vec![0]);
}

#[test]
fn order_lists_every_place_once() {
    let list: Vec<i64> = (0..200).map(|i| (i * 7919 % 53) as i64 - 20).collect();
    let order = stable_order(&values(&list), false);
    let mut seen = vec![false; list.len()];
    for p in order.iter() {
        assert!(!seen[*p]);
        seen[*p] = true;
    }
    assert!(seen.iter().all(|s| *s));
    for pair in order.windows(2) {
        let (a, b) = (pair[0], pair[1]);
        assert!(list[a] < list[b] || (list[a] == list[b] && a < b));
    }
}
