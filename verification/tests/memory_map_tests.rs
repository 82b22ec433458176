use mmkv::memory_map::MemoryMap;

#[test]
fn test_mmap() {
    let mut mm = MemoryMap::new(vec![0u8; 1024]);
    assert_eq!(mm.write_offset(), 8);
    mm.append(vec![1, 2, 3]);
    mm.append(vec![4]);
    assert_eq!(mm.write_offset(), 12);

    let read = mm.read(8, 10);
    assert_eq!(read.len(), 2);
    assert_eq!(read[0], 1);
    assert_eq!(read[1], 2);
    let read = mm.read(mm.write_offset() - 1, mm.write_offset());
    assert_eq!(read[0], 4);

    mm.reset();
    mm.append(vec![5, 4, 3, 2, 1]);
    assert_eq!(mm.write_offset(), 13);
    let read = mm.read(8, 9);
    assert_eq!(read[0], 5);

    let read = mm.read(9, 10);
    assert_eq!(read[0], 4);
}

#[test]
fn mmap_round_trips_through_bytes() {
    let mut mm = MemoryMap::new(vec![0u8; 64]);
    mm.append(vec![9, 8, 7]);
    let bytes = mm.into_bytes();
    assert_eq!(bytes.len(), 64);
    let mm2 = MemoryMap::new(bytes);
    assert_eq!(mm2.write_offset(), 11);
    assert_eq!(mm2.read(8, 11), &[9, 8, 7]);
}

#[test]
fn mmap_distrusts_an_oversized_header() {
    // a header claiming more content than the image holds is reset
    let mut image = vec![0u8; 32];
    image[7] = 0xff;
    let mm = MemoryMap::new(image);
    assert_eq!(mm.write_offset(), 8);
}
