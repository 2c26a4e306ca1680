use futures_timer::heap::Heap;

fn drain(h: &mut Heap<u64>) -> Vec<u64> {
    let mut out = Vec::new();
    while let Some(v) = h.pop() {
        out.push(v);
    }
    out
}

#[test]
fn remove_arbitrary_element() {
    let mut h = Heap::new();
    let _h0 = h.push(5u64);
    let _h1 = h.push(1u64);
    let h2 = h.push(9u64);
    let _h3 = h.push(3u64);
    assert_eq!(h.remove(h2), 9);
    assert_eq!(h.peek(), Some(&1));
    assert_eq!(drain(&mut h), vec![1, 3, 5]);
}

#[test]
fn remove_each_position() {
    for k in 0..6 {
        let mut h = Heap::new();
        let values = [4u64, 8, 2, 6, 1, 7];
        let mut slots = Vec::new();
        for v in values {
            slots.push(Some(h.push(v)));
        }
        let slot = slots[k].take().unwrap();
        assert_eq!(h.remove(slot), values[k]);
        let mut rest: Vec<u64> = values.iter().copied().filter(|v| *v != values[k]).collect();
        rest.sort();
        assert_eq!(drain(&mut h), rest);
    }
}

#[test]
fn handle_reuse_after_remove() {
    let mut h = Heap::new();
    let a = h.push(5u64);
    let b = h.push(7u64);
    assert_eq!(h.remove(a), 5);
    let c = h.push(3u64);
    assert_eq!(h.peek(), Some(&3));
    assert_eq!(h.remove(b), 7);
    assert_eq!(h.peek(), Some(&3));
    assert_eq!(h.remove(c), 3);
    assert_eq!(h.peek(), None);
}

#[test]
fn empty_heap_is_nothing() {
    let mut h: Heap<u64> = Heap::new();
    assert_eq!(h.peek(), None);
    assert_eq!(h.pop(), None);
    assert_eq!(h.pop(), None);
    assert_eq!(h.peek(), None);
    h.push(2);
    assert_eq!(h.pop(), Some(2));
    assert_eq!(h.pop(), None);
}

#[test]
fn round_trip_sorted() {
    let input = [13u64, 2, 99, 2, 0, 57, 13, 8, 1, 42, 7, 7];
    let mut h = Heap::new();
    for v in input {
        h.push(v);
    }
    let out = drain(&mut h);
    let mut sorted = input.to_vec();
    sorted.sort();
    assert_eq!(out, sorted);
}

#[test]
fn equal_keys() {
    let mut h = Heap::new();
    let a = h.push(4u64);
    let _b = h.push(4u64);
    let _c = h.push(4u64);
    assert_eq!(h.remove(a), 4);
    assert_eq!(drain(&mut h), vec![4, 4]);
}

#[test]
fn signed_keys() {
    let mut h = Heap::new();
    h.push(3i64);
    h.push(-10i64);
    h.push(i64::MAX);
    h.push(i64::MIN);
    assert_eq!(h.pop(), Some(i64::MIN));
    assert_eq!(h.pop(), Some(-10));
    assert_eq!(h.pop(), Some(3));
    assert_eq!(h.pop(), Some(i64::MAX));
    assert_eq!(h.pop(), None);
}

#[test]
fn interleaved_against_oracle() {
    let mut seed: u64 = 0x2545_f491_4f6c_dd1d;
    let mut next = move || {
        seed ^= seed << 13;
        seed ^= seed >> 7;
        seed ^= seed << 17;
        seed
    };
    let mut h = Heap::new();
    let mut live: Vec<(futures_timer::heap::Slot, u64)> = Vec::new();
    let mut oracle: Vec<u64> = Vec::new();
    for step in 0..3000u64 {
        match next() % 3 {
            0 | 1 => {
                // distinct values, so that a popped value names its slot
                let v = (next() % 200) * 10_000 + step;
                live.push((h.push(v), v));
                oracle.push(v);
            }
            _ => {
                if next() % 2 == 0 && !live.is_empty() {
                    let i = (next() as usize) % live.len();
                    let (slot, v) = live.swap_remove(i);
                    assert_eq!(h.remove(slot), v);
                    let pos = oracle.iter().position(|x| *x == v).unwrap();
                    oracle.swap_remove(pos);
                } else {
                    let got = h.pop();
                    let want = oracle.iter().copied().min();
                    assert_eq!(got, want);
                    if let Some(v) = want {
                        let pos = oracle.iter().position(|x| *x == v).unwrap();
                        oracle.swap_remove(pos);
                        // the popped value's slot is no longer valid
                        let j = live.iter().position(|(_, x)| *x == v).unwrap();
                        drop(live.swap_remove(j));
                    }
                }
            }
        }
        assert_eq!(h.peek().copied(), oracle.iter().copied().min());
        assert!(h.is_consistent());
    }
}

#[test]
fn local_repair_matches_rebuild() {
    let values = [30u32, 10, 20, 15, 12, 25, 40, 11, 13, 14];
    for k in 1..values.len() - 1 {
        let mut h = Heap::new();
        let mut slots = Vec::new();
        for v in values {
            slots.push(Some(h.push(v)));
        }
        let slot = slots[k].take().unwrap();
        assert_eq!(h.remove(slot), values[k]);
        assert!(h.is_consistent());
        let mut rebuilt = Heap::new();
        for (j, v) in values.iter().enumerate() {
            if j != k {
                rebuilt.push(*v);
            }
        }
        let mut a = Vec::new();
        while let Some(v) = h.pop() {
            a.push(v);
        }
        let mut b = Vec::new();
        while let Some(v) = rebuilt.pop() {
            b.push(v);
        }
        assert_eq!(a, b);
    }
}

#[test]
fn fresh_heap_is_consistent() {
    let mut h: Heap<u8> = Heap::new();
    assert!(h.is_consistent());
    let s = h.push(9);
    h.push(3);
    assert!(h.is_consistent());
    assert_eq!(h.remove(s), 9);
    assert!(h.is_consistent());
    assert_eq!(h.peek(), Some(&3));
}


#[test]
fn pair_keys_order_lexicographically() {
    let mut h = Heap::new();
    h.push((5u64, 2u64));
    h.push((5u64, 1u64));
    h.push((3u64, u64::MAX));
    h.push((6u64, 0u64));
    assert_eq!(h.pop(), Some((3, u64::MAX)));
    assert_eq!(h.pop(), Some((5, 1)));
    assert_eq!(h.pop(), Some((5, 2)));
    assert_eq!(h.pop(), Some((6, 0)));
    assert_eq!(h.pop(), None);
}
