use vss_store::codec::{blob_to_vector, vector_to_blob};
use vss_store::index::nearest;

#[test]
fn blob_is_little_endian() {
    assert_eq!(vector_to_blob(&[0x0102_0304, 0xAABB_CCDD]), vec![4, 3, 2, 1, 0xDD, 0xCC, 0xBB, 0xAA]);
    assert_eq!(vector_to_blob(&[1.0f32.to_bits()]), vec![0x00, 0x00, 0x80, 0x3F]);
}

#[test]
fn blob_decodes_whole_words_only() {
    assert_eq!(blob_to_vector(&[4, 3, 2, 1, 9, 9]), vec![0x0102_0304]);
    assert_eq!(blob_to_vector(&[]), Vec::<u32>::new());
}

#[test]
fn blob_round_trip() {
    let v: Vec<u32> = [0.05f32, -0.61, 1e30, 0.0].iter().map(|x| x.to_bits()).collect();
    assert_eq!(blob_to_vector(&vector_to_blob(&v)), v);
    let b: Vec<u8> = (0u8..16).collect();
    assert_eq!(vector_to_blob(&blob_to_vector(&b)), b);
}

#[test]
fn nearest_picks_smallest_in_order() {
    let cands = vec![(5u32, 1u64), (2, 2), (9, 3), (2, 0), (7, 4)];
    assert_eq!(nearest(&cands, 3), vec![(2, 0), (2, 2), (5, 1)]);
    assert_eq!(nearest(&cands, 0), vec![]);
    assert_eq!(nearest(&cands, 10), vec![(2, 0), (2, 2), (5, 1), (7, 4), (9, 3)]);
    assert_eq!(nearest(&vec![], 3), vec![]);
}
