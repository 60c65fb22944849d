use flatnav::{pad_to, InMemStorage};

#[test]
fn test_storage_basic() {
    let mut storage = InMemStorage::<u32, u8>::new(4, 3, 2);

    assert_eq!(storage.len(), 0);

    let id = storage.add_node(10, &[1, 2, 3, 4], &[10, 20, 30]);
    assert_eq!(id, 0);
    let id = storage.add_node(20, &[5, 6, 7, 8], &[40, 50, 60]);
    assert_eq!(id, 1);
    let id = storage.add_node(30, &[9, 10, 11, 12], &[70, 80, 90]);
    assert_eq!(id, 2);

    assert_eq!(storage.len(), 3);

    assert_eq!(storage.label(0), 10);
    assert_eq!(storage.nbrs(0), &[1, 2, 3, 4]);
    assert_eq!(storage.data(0), &[10, 20, 30]);

    assert_eq!(storage.label(1), 20);
    assert_eq!(storage.nbrs(1), &[5, 6, 7, 8]);
    assert_eq!(storage.data(1), &[40, 50, 60]);

    assert_eq!(storage.label(2), 30);
    assert_eq!(storage.nbrs(2), &[9, 10, 11, 12]);
    assert_eq!(storage.data(2), &[70, 80, 90]);
}

#[test]
fn test_storage_large() {
    const MAX_NBRS: usize = 3;
    const DATA_DIM: usize = 5;
    let mut storage = InMemStorage::<u8, i8>::new(MAX_NBRS, DATA_DIM, 100);

    for i in 0..200 {
        let label = i * 11;
        let nbrs: Vec<u8> = (i..i + MAX_NBRS).map(|x| x as u8).collect();
        let data: Vec<i8> = (i..i + DATA_DIM)
            .map(|x| ((x as i32) - 127) as i8)
            .collect();
        storage.add_node(label as u64, &nbrs, &data);
    }

    for i in 0..200 {
        let label = i * 11;
        let nbrs: Vec<u8> = (i..i + MAX_NBRS).map(|x| x as u8).collect();
        let data: Vec<i8> = (i..i + DATA_DIM)
            .map(|x| ((x as i32) - 127) as i8)
            .collect();

        assert_eq!(storage.label(i), label as u64);
        assert_eq!(storage.nbrs(i), &nbrs);
        assert_eq!(storage.data(i), &data);
    }
}

#[test]
fn storage_setters_touch_one_slot() {
    let mut storage = InMemStorage::<u32, i32>::new(3, 2, 4);
    storage.add_node(7, &[1, 2, 3], &[5, 6]);
    storage.add_node(8, &[4, 5, 6], &[7, 8]);
    storage.set_nbr(0, 1, 99);
    assert_eq!(storage.nbrs(0), &[1, 99, 3]);
    assert_eq!(storage.nbrs(1), &[4, 5, 6]);
    storage.set_nbrs(1, &[0, 0, 1]);
    assert_eq!(storage.nbrs(1), &[0, 0, 1]);
    assert_eq!(storage.nbrs(0), &[1, 99, 3]);
    assert_eq!(storage.data(1), &[7, 8]);
    assert_eq!(storage.label(1), 8);
}

#[test]
fn storage_layout_sizes() {
    // label 8 bytes, then 4 ids of 4 bytes at offset 8, then 3 bytes at offset 24; padded to 32.
    let storage = InMemStorage::<u32, u8>::new(4, 3, 2);
    assert_eq!(storage.node_size_bytes(), 32);
    assert_eq!(storage.max_nbrs(), 4);
    assert_eq!(storage.data_dim(), 3);
    // label 8 bytes, then 3 ids of 1 byte at offset 8, then 5 bytes at offset 11; padded to 16.
    let storage = InMemStorage::<u8, i8>::new(3, 5, 0);
    assert_eq!(storage.node_size_bytes(), 16);
}

#[test]
fn pad_to_rounds_up() {
    assert_eq!(pad_to(8, 4), 8);
    assert_eq!(pad_to(9, 4), 12);
    assert_eq!(pad_to(0, 8), 0);
    assert_eq!(pad_to(27, 8), 32);
    assert_eq!(pad_to(5, 1), 5);
}
