use minimizer_iter::queue::MinimizerQueue;
use minimizer_iter::KeyOrder;

#[test]
fn test_queue_min_pos() {
    let mut queue = MinimizerQueue::new(3, KeyOrder::Lex);

    let vals: [u64; 12] = [1, 2, 3, 0, 7, 8, 9, 100, 3, 4, 7, 8];
    let mut mins_pos = Vec::new();

    for &val in vals.iter().take(2) {
        queue.insert(val);
    }
    for &val in vals.iter().skip(2) {
        queue.insert(val);
        mins_pos.push(queue.get_min_pos());
    }

    assert_eq!(
        mins_pos,
        vec![
            (1, 0),
            (0, 2),
            (0, 1),
            (0, 0),
            (7, 0),
            (8, 0),
            (3, 2),
            (3, 1),
            (3, 0),
            (4, 0)
        ]
    );
}

#[test]
fn test_queue_inner_min_pos() {
    let mut queue = MinimizerQueue::new(3, KeyOrder::Lex);

    let vals: [u64; 7] = [1, 2, 3, 2, 2, 3, 1];
    let mut inner = Vec::new();

    for &val in vals.iter().take(2) {
        queue.insert(val);
    }
    for &val in vals.iter().skip(2) {
        queue.insert(val);
        if queue.multiple_mins() {
            inner.push(queue.get_inner_min_pos());
        } else {
            let (x, pos) = queue.get_min_pos();
            inner.push((x, pos, None));
        }
    }

    assert_eq!(
        inner,
        vec![
            (1, 0, None),
            (2, 0, Some((2, 2))),
            (2, 1, None),
            (2, 1, None),
            (1, 2, None),
        ]
    );
}
