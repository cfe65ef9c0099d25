use rpg::simple::CircularBuffer;
use rpg::simple::CircularBufferIterator;

fn collect(mut it: CircularBufferIterator<'_, i32>) -> Vec<i32> {
    let mut out = Vec::new();
    while let Some(v) = it.next() {
        out.push(v);
    }
    out
}

#[test]
fn empty_buffer() {
    let x = CircularBuffer::new(1, 0 as i32);
    let count = collect(x.iter()).into_iter().count();
    assert_eq!(count, 0);
}

#[test]
fn overload_buffer() {
    let mut x = CircularBuffer::new(2, 0 as i32);
    x.put(|_| 1);
    x.put(|_| 2);
    x.put(|_| 3);
    assert_eq!(collect(x.iter()).into_iter().count(), 2);
    assert_eq!(collect(x.iter()).into_iter().last().unwrap(), 3);
    assert_eq!(collect(x.iter()).into_iter().take(1).last().unwrap(), 2);
}

#[test]
fn sum_available() {
    let mut x = CircularBuffer::new(4, 0 as i32);
    x.put(|_| 2);
    x.put(|_| 4);
    x.put(|_| 6);
    x.put(|_| 8);
    x.put(|_| 10);
    assert_eq!(collect(x.iter()).into_iter().count(), 4);
    let sum = collect(x.iter()).into_iter().take(3).fold(0, |acc, num| acc + num);
    assert_eq!(sum, 18);
}

#[test]
fn can_put_with_env() {
    let mut x = CircularBuffer::new(1, 0 as i32);
    let mut y = 0;
    {
        let my_fn = |_v: i32| {
            let r = y;
            y += 1;
            r
        };
        x.put(my_fn);
    }
    {
        x.put(|_| {
            let r = y;
            y += 1;
            r
        });
    }
    assert_eq!(y, 2);
    assert_eq!(collect(x.iter()), vec![1]);
}

#[test]
fn simple_put_returns_the_new_sequence_number() {
    let mut x = CircularBuffer::new(3, 0 as i32);
    assert_eq!(x.put(|_| 7), 1);
    assert_eq!(x.put(|_| 8), 2);
    assert_eq!(x.put(|_| 9), 3);
    assert_eq!(x.put(|_| 10), 4);
}

#[test]
fn simple_min_pos_trails_by_the_capacity() {
    let mut x = CircularBuffer::new(3, 0 as i32);
    assert_eq!(x.min_pos(), 0);
    x.put(|_| 1);
    x.put(|_| 2);
    x.put(|_| 3);
    assert_eq!(x.min_pos(), 0);
    x.put(|_| 4);
    assert_eq!(x.min_pos(), 1);
    x.put(|_| 5);
    x.put(|_| 6);
    x.put(|_| 7);
    assert_eq!(x.min_pos(), 4);
}

#[test]
fn simple_iter_walks_oldest_first() {
    let mut x = CircularBuffer::new(3, 0 as i32);
    x.put(|_| 1);
    assert_eq!(collect(x.iter()), vec![1]);
    x.put(|_| 2);
    assert_eq!(collect(x.iter()), vec![1, 2]);
    x.put(|_| 3);
    assert_eq!(collect(x.iter()), vec![1, 2, 3]);
    x.put(|_| 4);
    assert_eq!(collect(x.iter()), vec![2, 3, 4]);
    x.put(|_| 5);
    assert_eq!(collect(x.iter()), vec![3, 4, 5]);
    x.put(|_| 6);
    assert_eq!(collect(x.iter()), vec![4, 5, 6]);
    // walking does not consume
    assert_eq!(collect(x.iter()), vec![4, 5, 6]);
}

#[test]
fn simple_setter_sees_what_the_slot_held() {
    let mut x = CircularBuffer::new(2, 10 as i32);
    x.put(|v| v + 1);
    x.put(|v| v + 2);
    x.put(|v| v * 3);
    assert_eq!(collect(x.iter()), vec![12, 33]);
}

#[test]
fn simple_iterator_is_one_shot() {
    let mut x = CircularBuffer::new(2, 0 as i32);
    x.put(|_| 1);
    x.put(|_| 2);
    x.put(|_| 3);
    let mut it = x.iter();
    assert_eq!(it.next(), Some(2));
    assert_eq!(it.next(), Some(3));
    assert_eq!(it.next(), None);
    assert_eq!(it.next(), None);
}
