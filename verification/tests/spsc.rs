use rpg::spsc::CircularBuffer;
use rpg::spsc::CircularBufferIterator;
use rpg::spsc::Layout;
use rpg::spsc::TAG_SPAN;

fn drain(x: &mut CircularBuffer<i32>) -> Vec<i32> {
    let mut it: CircularBufferIterator<'_, i32> = x.iter();
    let mut out = Vec::new();
    while let Some(v) = it.next() {
        out.push(v);
    }
    out
}

fn owners(l: &Layout) -> Vec<usize> {
    let mut all = vec![l.spare];
    all.extend(l.published.iter().copied());
    all.extend(l.recovered.iter().copied());
    all
}

fn assert_partition(x: &mut CircularBuffer<i32>, capacity: usize) {
    let l = x.layout();
    assert_eq!(l.published.len(), capacity);
    assert_eq!(l.recovered.len(), capacity);
    let mut all = owners(&l);
    all.sort();
    let every: Vec<usize> = (0..2 * capacity + 1).collect();
    assert_eq!(all, every);
}

#[test]
#[should_panic]
fn t0() {
    panic!("panic");
}

#[test]
fn t1() {
}

#[test]
fn overwritten_values_are_lost() {
    let mut x = CircularBuffer::new(4, 0 as i32);
    x.put(|_| 1);
    x.put(|_| 2);
    x.put(|_| 3);
    x.put(|_| 4);
    x.put(|_| 5);
    assert_eq!(drain(&mut x), vec![2, 3, 4, 5]);
}

#[test]
fn drain_yields_what_was_written() {
    let mut x = CircularBuffer::new(4, 0 as i32);
    x.put(|_| 1);
    x.put(|_| 2);
    x.put(|_| 3);
    assert_eq!(drain(&mut x), vec![1, 2, 3]);
}

#[test]
fn drain_claims_every_written_position_each_time() {
    // A drain hands its stock over in exchange, and the next drain walks the
    // same positions: it finds the cells that the first one gave, which still
    // hold the default.
    let mut x = CircularBuffer::new(4, 0 as i32);
    x.put(|_| 1);
    x.put(|_| 2);
    x.put(|_| 3);
    assert_eq!(drain(&mut x), vec![1, 2, 3]);
    assert_eq!(drain(&mut x), vec![0, 0, 0]);
    // and the one after that gets the first one's cells back
    assert_eq!(drain(&mut x), vec![1, 2, 3]);
}

#[test]
fn unwritten_ring_drains_empty_twice() {
    let mut x = CircularBuffer::new(3, 9 as i32);
    assert_eq!(drain(&mut x), Vec::<i32>::new());
    assert_eq!(drain(&mut x), Vec::<i32>::new());
}

#[test]
fn drain_after_many_writes_yields_the_newest() {
    for capacity in 1..6usize {
        for k in 0..20usize {
            let mut x = CircularBuffer::new(capacity, 0 as i32);
            for v in 1..=k {
                x.put(|_| v as i32);
            }
            let got = drain(&mut x);
            assert!(got.len() <= capacity);
            let first = if k > capacity { k - capacity + 1 } else { 1 };
            let want: Vec<i32> = (first..=k).map(|v| v as i32).collect();
            assert_eq!(got, want);
        }
    }
}

#[test]
fn full_rounds_between_drains_never_regress() {
    let mut x = CircularBuffer::new(7, 0 as i32);
    let mut next = 1;
    let mut prev = 0;
    for round in 0..50 {
        for _ in 0..(7 + round % 5) {
            let v = next;
            x.put(|_| v);
            next += 1;
        }
        for v in drain(&mut x) {
            assert!(v >= prev);
            prev = v;
        }
    }
    assert_eq!(prev, next - 1);
}

#[test]
fn capacity_one_yields_at_most_one() {
    let mut x = CircularBuffer::new(1, 0 as i32);
    assert_eq!(drain(&mut x), Vec::<i32>::new());
    for v in 1..10 {
        x.put(|_| v);
        assert_eq!(drain(&mut x), vec![v]);
    }
    x.put(|_| 20);
    x.put(|_| 21);
    assert_eq!(drain(&mut x), vec![21]);
    assert_partition(&mut x, 1);
}

#[test]
fn fresh_ring_layout() {
    let mut x = CircularBuffer::new(3, 0 as i32);
    let l = x.layout();
    assert_eq!(l.spare, 0);
    assert_eq!(l.published, vec![1, 2, 3]);
    assert_eq!(l.tags, vec![0, 0, 0]);
    assert_eq!(l.recovered, vec![4, 5, 6]);
}

#[test]
fn put_exchanges_spare_and_published_cell() {
    let mut x = CircularBuffer::new(3, 0 as i32);
    x.put(|_| 10);
    let l = x.layout();
    assert_eq!(l.spare, 1);
    assert_eq!(l.published, vec![0, 2, 3]);
    assert_eq!(l.tags, vec![0, 0, 0]);
    x.put(|_| 11);
    let l = x.layout();
    assert_eq!(l.spare, 2);
    assert_eq!(l.published, vec![0, 1, 3]);
    assert_eq!(l.tags, vec![0, 1, 0]);
    x.put(|_| 12);
    x.put(|_| 13);
    let l = x.layout();
    assert_eq!(l.spare, 0);
    assert_eq!(l.published, vec![3, 1, 2]);
    assert_eq!(l.tags, vec![3, 1, 2]);
    assert_eq!(l.recovered, vec![4, 5, 6]);
}

#[test]
fn drain_exchanges_stock_and_published_cells() {
    let mut x = CircularBuffer::new(3, 0 as i32);
    x.put(|_| 10);
    x.put(|_| 11);
    assert_eq!(drain(&mut x), vec![10, 11]);
    let l = x.layout();
    assert_eq!(l.spare, 2);
    // newest position first: position 1 got stock cell 4, position 0 got 5
    assert_eq!(l.published, vec![5, 4, 3]);
    assert_eq!(l.tags, vec![0, 1, 0]);
    assert_eq!(l.recovered, vec![1, 0, 6]);
}

#[test]
fn layout_leaves_the_ring_alone() {
    let mut x = CircularBuffer::new(2, 0 as i32);
    x.put(|_| 1);
    x.put(|_| 2);
    x.put(|_| 3);
    let a = owners(&x.layout());
    let b = owners(&x.layout());
    assert_eq!(a, b);
    assert_eq!(drain(&mut x), vec![2, 3]);
}

#[test]
fn cells_stay_partitioned() {
    let capacity = 4;
    let mut x = CircularBuffer::new(capacity, 0 as i32);
    assert_partition(&mut x, capacity);
    for step in 0..60 {
        x.put(|_| step);
        assert_partition(&mut x, capacity);
        if step % 3 == 0 {
            drain(&mut x);
            assert_partition(&mut x, capacity);
        }
    }
}

#[test]
fn spsc_put_returns_the_new_sequence_number() {
    let mut x = CircularBuffer::new(2, 0 as i32);
    assert_eq!(x.put(|_| 5), 1);
    assert_eq!(x.put(|_| 6), 2);
    assert_eq!(x.put(|_| 7), 3);
    drain(&mut x);
    assert_eq!(x.put(|_| 8), 4);
}

#[test]
fn spsc_setter_sees_what_the_spare_holds() {
    let mut x = CircularBuffer::new(1, 100 as i32);
    // cell 0 is the spare and holds the default
    x.put(|v| v + 1);
    // cell 1 is the spare now and holds the default too
    x.put(|v| v + 2);
    // cell 0 again, holding 101
    x.put(|v| v + 3);
    assert_eq!(drain(&mut x), vec![104]);
}

#[test]
fn tag_is_the_sequence_number_below_the_span() {
    assert_eq!(TAG_SPAN, 65536);
    let mut x = CircularBuffer::new(1, 0 as i32);
    for v in 0..(TAG_SPAN + 5) {
        x.put(|_| v as i32);
    }
    let l = x.layout();
    assert_eq!(l.tags, vec![4]);
    assert_eq!(drain(&mut x), vec![(TAG_SPAN + 4) as i32]);
}

#[test]
fn spsc_iterator_is_one_shot() {
    let mut x = CircularBuffer::new(2, 0 as i32);
    x.put(|_| 1);
    let mut it = x.iter();
    assert_eq!(it.next(), Some(1));
    assert_eq!(it.next(), None);
    assert_eq!(it.next(), None);
}
