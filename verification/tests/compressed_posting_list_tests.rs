use bitpacking::BitPacker;
use shard_core::compressed_posting_list::CompressedPostingList;
use shard_core::posting_list::PostingList;

fn posting(ids: &[u32]) -> PostingList {
    let mut list = PostingList::new(ids[0]);
    for id in ids {
        list.insert(*id);
    }
    list
}

fn empty_posting() -> PostingList {
    let mut list = PostingList::new(0);
    list.remove(0);
    list
}

#[test]
fn test_compression() {
    let mut chunk: Vec<u32> = Vec::new();
    for i in 0..bitpacking::BitPacker4x::BLOCK_LEN as u32 {
        chunk.push(1000 + 2 * i);
    }
    let initial = 1000;

    let bitpacker = bitpacking::BitPacker4x::new();
    let chunk_bits: u8 = bitpacker.num_bits_sorted(initial, &chunk);
    let chunk_size = bitpacking::BitPacker4x::compressed_block_size(chunk_bits);
    println!("BLOCK_SIZE: {}", bitpacking::BitPacker4x::BLOCK_LEN * 4);
    println!("chunk_bits: {}", chunk_bits);
    println!("chunk_size: {}", chunk_size);

    let mut compressed_chunk = vec![0u8; chunk_size].into_boxed_slice();
    let compressed_size =
        bitpacker.compress_sorted(initial, &chunk, &mut compressed_chunk, chunk_bits);
    println!("compressed_size: {}", compressed_size);

    let mut decompressed = vec![0u32; bitpacking::BitPacker4x::BLOCK_LEN];
    bitpacker.decompress_sorted(initial, &compressed_chunk, &mut decompressed, chunk_bits);
    assert_eq!(decompressed, chunk);

    let packed = CompressedPostingList::new(posting(&chunk));
    assert_eq!(packed.iter(|_| true), chunk);
}

#[test]
fn round_trip_of_a_short_list() {
    let mut ids = vec![10, 42, 42, 137, 9000, 9001];
    ids.sort_unstable();
    ids.dedup();
    let packed = CompressedPostingList::new(posting(&ids));
    assert_eq!(packed.iter(|_| true), vec![10, 42, 137, 9000, 9001]);
    assert_eq!(packed.len(), 5);
    assert!(packed.contains(&9000));
    assert!(!packed.contains(&11));
    assert!(packed.contains(&10));
    assert!(packed.contains(&9001));
    assert!(!packed.contains(&9002));
}

#[test]
fn try_new_agrees_with_new() {
    let ids = vec![10, 42, 137, 9000, 9001];
    assert!(CompressedPostingList::check_blocks(&posting(&ids)));
    let packed = CompressedPostingList::try_new(posting(&ids)).unwrap();
    assert_eq!(packed.iter(|_| true), ids);
}

#[test]
fn round_trip_over_several_blocks() {
    let ids: Vec<u32> = (0..300u32).map(|i| i * i + 7).collect();
    let packed = CompressedPostingList::try_new(posting(&ids)).unwrap();
    assert_eq!(packed.len(), 300);
    assert_eq!(packed.iter(|_| true), ids);
    for id in &ids {
        assert!(packed.contains(id));
    }
    assert!(!packed.contains(&9));
    // the filling of the last block does not count
    assert_eq!(packed.iter(|id| id >= 299 * 299 + 7), vec![299 * 299 + 7]);
}

#[test]
fn round_trip_of_exactly_one_block() {
    let ids: Vec<u32> = (0..128u32).map(|i| 3 * i).collect();
    let packed = CompressedPostingList::try_new(posting(&ids)).unwrap();
    assert_eq!(packed.len(), 128);
    assert_eq!(packed.iter(|_| true), ids);
}

#[test]
fn round_trip_with_the_widest_gap() {
    let ids = vec![0, u32::MAX];
    let packed = CompressedPostingList::try_new(posting(&ids)).unwrap();
    assert_eq!(packed.iter(|_| true), ids);
    assert!(packed.contains(&u32::MAX));
    assert!(!packed.contains(&1));
}

#[test]
fn empty_list_packs_to_nothing() {
    let packed = CompressedPostingList::new(empty_posting());
    assert_eq!(packed.len(), 0);
    assert_eq!(packed.iter(|_| true), Vec::<u32>::new());
    assert!(!packed.contains(&0));
    let by_default = CompressedPostingList::default();
    assert_eq!(by_default.len(), 0);
    assert_eq!(by_default.size(), packed.size());
}

#[test]
fn iter_keeps_what_the_filter_accepts() {
    let ids: Vec<u32> = (0..200u32).collect();
    let packed = CompressedPostingList::new(posting(&ids));
    let even: Vec<u32> = (0..200u32).filter(|id| id % 2 == 0).collect();
    assert_eq!(packed.iter(|id| id % 2 == 0), even);
    assert_eq!(packed.iter(|_| false), Vec::<u32>::new());
}

#[test]
fn size_counts_sixteen_bytes_per_bit() {
    let word = std::mem::size_of::<Vec<u8>>();
    let narrow: Vec<u32> = (0..128u32).map(|i| 1000 + 2 * i).collect();
    let packed = CompressedPostingList::new(posting(&narrow));
    // gaps of 2 take 2 bits: 32 bytes of deltas
    assert_eq!(packed.size(), 4 + word + (32 + word + 4));
    let wide: Vec<u32> = (0..128u32).map(|i| 1000 + 1000 * i).collect();
    let packed = CompressedPostingList::new(posting(&wide));
    // gaps of 1000 take 10 bits: 160 bytes of deltas
    assert_eq!(packed.size(), 4 + word + (160 + word + 4));
}

#[test]
fn size_does_not_shrink_with_the_gap() {
    let mut last = 0;
    for gap in [1u32, 2, 3, 4, 7, 8, 100, 1000, 70000] {
        let ids: Vec<u32> = (0..128u32).map(|i| gap * i).collect();
        let size = CompressedPostingList::new(posting(&ids)).size();
        assert!(size >= last);
        last = size;
    }
}

#[test]
fn a_run_of_neighbours_takes_one_bit() {
    let word = std::mem::size_of::<Vec<u8>>();
    let ids: Vec<u32> = (5..133u32).collect();
    let packed = CompressedPostingList::new(posting(&ids));
    assert_eq!(packed.size(), 4 + word + (16 + word + 4));
}
