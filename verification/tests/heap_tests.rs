use rust_lio::heap::{HeapOrder, ManualHeap};

#[derive(Clone, Copy, Debug, PartialEq)]
struct Item(i64);

impl HeapOrder for Item {
    fn greater(a: &Self, b: &Self) -> bool {
        a.0 > b.0
    }
}

fn drain(h: &mut ManualHeap<Item>) -> Vec<i64> {
    let mut out = Vec::new();
    while let Some(top) = h.top() {
        out.push(top.0);
        h.pop();
    }
    out
}

#[test]
fn pops_in_decreasing_order() {
    let mut h = ManualHeap::new(10);
    for v in [5, 1, 9, 3, 7, 9, -2] {
        h.push(Item(v));
    }
    assert_eq!(h.size(), 7);
    assert_eq!(h.top(), Some(&Item(9)));
    assert_eq!(drain(&mut h), vec![9, 9, 7, 5, 3, 1, -2]);
    assert_eq!(h.size(), 0);
}

#[test]
fn full_heap_ignores_pushes() {
    let mut h = ManualHeap::new(2);
    h.push(Item(1));
    h.push(Item(2));
    h.push(Item(100));
    assert_eq!(h.size(), 2);
    assert_eq!(drain(&mut h), vec![2, 1]);
    let mut z = ManualHeap::new(0);
    z.push(Item(4));
    assert_eq!(z.size(), 0);
    assert_eq!(z.top(), None);
}

#[test]
fn pop_on_empty_and_clear() {
    let mut h: ManualHeap<Item> = ManualHeap::new(3);
    h.pop();
    assert_eq!(h.size(), 0);
    h.push(Item(8));
    h.push(Item(4));
    h.clear();
    assert_eq!(h.size(), 0);
    assert_eq!(h.top(), None);
    h.push(Item(6));
    assert_eq!(h.top(), Some(&Item(6)));
}

#[test]
fn keeps_k_smallest_as_a_bounded_max_heap() {
    // The way a nearest-neighbour search uses it: keep the k smallest.
    let k = 3;
    let mut h: ManualHeap<Item> = ManualHeap::new(2 * k);
    for v in [10, 4, 8, 1, 12, 3, 7] {
        let add = h.size() < k || v < h.top().unwrap().0;
        if add {
            if h.size() >= k {
                h.pop();
            }
            h.push(Item(v));
        }
    }
    assert_eq!(drain(&mut h), vec![4, 3, 1]);
}
