use data_assimilation::lorenz96::{neighbor_indices, DIMENSION_SIZE};
use data_assimilation::schedule::ObservationCursor;

#[test]
fn neighbors_wrap_around() {
    let n = neighbor_indices(0);
    assert_eq!((n.p1, n.m1, n.m2), (1, 39, 38));
    let n = neighbor_indices(1);
    assert_eq!((n.p1, n.m1, n.m2), (2, 0, 39));
    let n = neighbor_indices(2);
    assert_eq!((n.p1, n.m1, n.m2), (3, 1, 0));
    let n = neighbor_indices(20);
    assert_eq!((n.p1, n.m1, n.m2), (21, 19, 18));
    let n = neighbor_indices(39);
    assert_eq!((n.p1, n.m1, n.m2), (0, 38, 37));
}

#[test]
fn neighbors_form_a_ring() {
    assert_eq!(DIMENSION_SIZE, 40);
    for i in 0..DIMENSION_SIZE {
        let n = neighbor_indices(i);
        assert_eq!(n.p1, (i + 1) % DIMENSION_SIZE);
        assert_eq!(n.m1, (i + DIMENSION_SIZE - 1) % DIMENSION_SIZE);
        assert_eq!(n.m2, (i + DIMENSION_SIZE - 2) % DIMENSION_SIZE);
        assert_eq!(neighbor_indices(n.m1).p1, i);
        assert_eq!(neighbor_indices(n.p1).m1, i);
        assert_eq!(neighbor_indices(n.m1).m1, n.m2);
    }
}

#[test]
fn cursor_every_observation() {
    let mut c = ObservationCursor::new(0, 1);
    assert_eq!(c.take(3), Some(0));
    assert_eq!(c.take(3), Some(1));
    assert_eq!(c.take(3), Some(2));
    assert_eq!(c.take(3), None);
    assert_eq!(c.next_index(), 3);
    assert_eq!(c.take(3), None);
    assert_eq!(c.next_index(), 3);
}

#[test]
fn cursor_every_twentieth_observation() {
    let mut c = ObservationCursor::new(19, 20);
    assert_eq!(c.stride(), 20);
    let mut used = Vec::new();
    while let Some(i) = c.take(100) {
        used.push(i);
    }
    assert_eq!(used, vec![19, 39, 59, 79, 99]);
    assert_eq!(c.next_index(), 119);
}

#[test]
fn cursor_kth_take_formula() {
    let (start, stride, n) = (3usize, 7usize, 50usize);
    let mut c = ObservationCursor::new(start, stride);
    for k in 0..20 {
        let expected = if start + k * stride < n { Some(start + k * stride) } else { None };
        assert_eq!(c.take(n), expected);
    }
}

#[test]
fn cursor_zero_stride_and_empty_data() {
    let mut c = ObservationCursor::new(2, 0);
    assert_eq!(c.take(5), Some(2));
    assert_eq!(c.take(5), Some(2));
    let mut d = ObservationCursor::new(0, 1);
    assert_eq!(d.take(0), None);
}
