use inefficax::pager::{FreeQueue, Offset};

#[test]
fn test_free_queue() {
    let mut fq = FreeQueue::new();
    fq.add(Offset(0));
    fq.add(Offset(10));
    fq.add(Offset(5));
    fq.add(Offset(15));
    fq.add(Offset(5));
    fq.add(Offset(10));
    fq.add(Offset(2));

    assert_eq!(
        fq.q(),
        vec![Offset(0), Offset(2), Offset(5), Offset(10), Offset(15)]
    );
}

#[test]
fn free_queue_holds_each_offset_once() {
    let mut fq = FreeQueue::new();
    fq.add(Offset(8192));
    fq.add(Offset(8192));
    fq.add(Offset(8192));
    assert_eq!(fq.q(), vec![Offset(8192)]);
    assert_eq!(FreeQueue::new().q(), vec![]);
}
