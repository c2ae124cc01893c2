use slice_pool::refd::SlicePoolRef;

#[test]
fn borrowed_pool_allocates_views_of_the_slice() {
    let mut values = [10, 20, 30, 40, 50, 60, 70, 80, 90, 100];
    let mut memory = SlicePoolRef::new(&mut values);
    assert_eq!(memory.len(), 10);
    assert!(memory.allocate(11).is_none());
    assert!(memory.allocate(0).is_none());

    let first = memory.allocate(2).unwrap();
    assert_eq!(*memory.slice(&first), [10, 20]);
    let second = memory.allocate(5).unwrap();
    assert_eq!(*memory.slice(&second), [30, 40, 50, 60, 70]);
    assert_eq!(memory.chain().len(), 3);

    memory.release(second);
    assert_eq!(memory.chain().len(), 2);
    let third = memory.allocate(1).unwrap();
    assert_eq!(*memory.slice(&third), [30]);
    assert_eq!(third.offset(), 2);
    assert_eq!(third.len(), 1);
    assert_eq!(memory.chain().len(), 3);
    assert!(memory.owns(&first));
    assert!(memory.owns(&third));
}

#[test]
fn borrowed_pool_writes_reach_the_lender() {
    let mut values = vec![10, 20, 30, 40];
    {
        let mut memory = SlicePoolRef::new(&mut values);
        let first = memory.allocate(2).unwrap();
        let second = memory.allocate(2).unwrap();
        memory.set(&first, 1, 15);
        memory.slice_mut(&second)[0] = 35;
        assert_eq!(*memory.get(&first, 1), 15);
        assert_eq!(*memory.slice(&first), [10, 15]);
        assert_eq!(*memory.slice(&second), [35, 40]);
        memory.release(first);
        memory.release(second);
        assert_eq!(memory.chain().len(), 1);
    }
    assert_eq!(values, [10, 15, 35, 40]);
}

#[test]
fn borrowed_pool_fragmentation() {
    let mut values = [10, 20, 30, 40, 50, 60, 70, 80, 90, 100];
    let mut pool = SlicePoolRef::new(&mut values);

    let val1 = pool.allocate(2).unwrap();
    assert_eq!(*pool.slice(&val1), [10, 20]);
    let val2 = pool.allocate(4).unwrap();
    assert_eq!(*pool.slice(&val2), [30, 40, 50, 60]);
    let val3 = pool.allocate(2).unwrap();
    assert_eq!(*pool.slice(&val3), [70, 80]);

    pool.release(val2);

    let val4 = pool.allocate(2).unwrap();
    assert_eq!(*pool.slice(&val4), [90, 100]);
    let val5 = pool.allocate(4).unwrap();
    assert_eq!(*pool.slice(&val5), [30, 40, 50, 60]);
}
