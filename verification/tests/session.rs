use zsync::rcksum::client::{Config, Context};
use zsync::rcksum::map::ZBlock;
use zsync::rcksum::types::{MD4Digest, PartialChecksum, Rsum};

fn expect(content: &[u8], length: usize) -> ZBlock {
    ZBlock {
        rsum: Rsum::calculate(content),
        checksum: PartialChecksum { value: MD4Digest::calculate(content), length },
    }
}

fn three_block_session(seq_matches: usize) -> Context {
    let config: Config = Config::new(seq_matches, 5, 16).unwrap();
    let mut client: Context = Context::new(config, 3);
    client.insert_block(0, expect(&[1; 16], 5));
    client.insert_block(1, expect(&[2; 16], 5));
    client.insert_block(2, expect(&[3; 16], 5));
    client
}

fn three_block_candidate() -> Vec<u8> {
    let mut data: Vec<u8> = vec![9, 9];
    data.extend_from_slice(&[1; 16]);
    data.extend_from_slice(&[2; 16]);
    data.extend_from_slice(&[3; 16]);
    data
}

fn three_block_target() -> Vec<u8> {
    let mut target: Vec<u8> = Vec::new();
    target.extend_from_slice(&[1; 16]);
    target.extend_from_slice(&[2; 16]);
    target.extend_from_slice(&[3; 16]);
    target
}

#[test]
fn rcksum_sanity() {
    let block_1 = ZBlock {
        rsum: Rsum::calculate(&[1; 16]), //(16, 136)
        checksum: PartialChecksum {
            value: MD4Digest::calculate(&[1; 16]).into(),
            length: 5,
        },
    };

    let block_2 = ZBlock {
        rsum: Rsum::calculate(&[2; 16]),
        checksum: PartialChecksum {
            value: MD4Digest::calculate(&[2; 16]).into(),
            length: 5,
        },
    };
    let block_3 = ZBlock {
        rsum: Rsum::calculate(&[3; 16]),
        checksum: PartialChecksum {
            value: MD4Digest::calculate(&[3; 16]).into(),
            length: 5,
        },
    };

    let block_list = vec![
        block_1, block_2, block_2, block_2, block_1, block_3, block_3, block_3, block_3, block_1,
    ];

    let config = Config::new(1, 5, 16).unwrap();
    let mut client = Context::new(config, 30);

    for i in 0..block_list.len() {
        client.insert_block(i, block_list[i]);
    }

    let mut concat_vec = Vec::new();
    concat_vec.push(9);
    concat_vec.push(9);

    for _i in 0..16 {
        concat_vec.push(1);
    }
    concat_vec.push(0);
    concat_vec.push(2);
    for _i in 0..16 {
        concat_vec.push(2);
    }
    for _i in 0..16 {
        concat_vec.push(3);
    }

    let matched = client.submit_source_data(&concat_vec);
    assert_eq!(matched, 10);
    for i in 0..block_list.len() {
        assert!(!client.blockmap().contains(i));
    }
    let output = client.output();
    assert_eq!(output.len(), 30 * 16);
    let contents: [u8; 10] = [1, 2, 2, 2, 1, 3, 3, 3, 3, 1];
    for (i, c) in contents.iter().enumerate() {
        assert_eq!(&output[i * 16..(i + 1) * 16], &[*c; 16]);
    }
    assert_eq!(&output[160..], &[0u8; 320][..]);
    assert_eq!(client.skip_bytes(), 0);
}

#[test]
fn config_accepts_what_a_session_can_use() {
    assert!(Config::new(1, 5, 16).is_some());
    assert!(Config::new(2, 16, 1).is_some());
    assert!(Config::new(1, 0, 4096).is_some());
    let c: Config = Config::new(2, 7, 64).unwrap();
    assert_eq!(c.seq_matches(), 2);
    assert_eq!(c.checksum_bytes(), 7);
    assert_eq!(c.blocksize(), 64);
}

#[test]
fn config_rejects_the_rest() {
    assert!(Config::new(0, 5, 16).is_none());
    assert!(Config::new(3, 5, 16).is_none());
    assert!(Config::new(1, 5, 0).is_none());
    assert!(Config::new(1, 5, 3).is_none());
    assert!(Config::new(1, 5, 24).is_none());
    assert!(Config::new(1, 5, usize::MAX).is_none());
    let half: usize = usize::MAX / 2 + 1;
    assert!(Config::new(1, 5, half).is_some());
    assert!(Config::new(2, 5, half).is_none());
}

#[test]
fn new_session_is_blank() {
    let config: Config = Config::new(1, 5, 16).unwrap();
    let client: Context = Context::new(config, 3);
    assert_eq!(client.output(), &vec![0u8; 48]);
    assert_eq!(client.skip_bytes(), 0);
    assert_eq!(client.blockmap().num_blocks(), 3);
    assert_eq!(client.config().blocksize(), 16);
    assert!(!client.blockmap().contains(0));
    let none: Context = Context::new(config, 0);
    assert_eq!(none.output().len(), 0);
}

#[test]
fn scan_finds_three_blocks() {
    let mut client: Context = three_block_session(1);
    let data: Vec<u8> = three_block_candidate();
    let matched: usize = client.submit_source_data(&data);
    assert_eq!(matched, 3);
    let output: &Vec<u8> = client.output();
    assert_eq!(&output[0..16], &[1u8; 16]);
    assert_eq!(&output[16..32], &[2u8; 16]);
    assert_eq!(&output[32..48], &[3u8; 16]);
    assert!(!output.contains(&9));
    assert_eq!(output, &three_block_target());
    for id in 0..3usize {
        assert!(!client.blockmap().contains(id));
    }
    assert_eq!(client.skip_bytes(), 0);
}

#[test]
fn scan_with_two_blocks_in_a_row() {
    // the cursor stops two blocks before the end: the last block is not reached
    let mut client: Context = three_block_session(2);
    let data: Vec<u8> = three_block_candidate();
    assert_eq!(client.submit_source_data(&data), 2);
    assert_eq!(&client.output()[0..32], &three_block_target()[0..32]);
    assert_eq!(&client.output()[32..48], &[0u8; 16]);
    assert!(client.blockmap().contains(2));
    assert_eq!(client.skip_bytes(), 16);

    // with one block of padding behind the data it is
    let mut client: Context = three_block_session(2);
    let mut padded: Vec<u8> = three_block_candidate();
    padded.extend_from_slice(&[0; 16]);
    assert_eq!(client.submit_source_data(&padded), 3);
    assert_eq!(client.output(), &three_block_target());
    assert!(!client.output().contains(&9));
    assert_eq!(client.skip_bytes(), 0);
}

#[test]
fn scan_gives_the_same_with_one_or_two_blocks_in_a_row() {
    let mut padded: Vec<u8> = vec![4, 5, 6];
    padded.extend_from_slice(&[3; 16]);
    padded.extend_from_slice(&[7; 5]);
    padded.extend_from_slice(&[1; 16]);
    padded.extend_from_slice(&[2; 16]);
    padded.extend_from_slice(&[8; 40]);
    let mut one: Context = three_block_session(1);
    let mut two: Context = three_block_session(2);
    assert_eq!(one.submit_source_data(&padded), 3);
    assert_eq!(two.submit_source_data(&padded), 3);
    assert_eq!(one.output(), two.output());
    assert_eq!(one.output(), &three_block_target());
}

#[test]
fn scan_of_unrelated_data_changes_nothing() {
    let mut client: Context = three_block_session(1);
    let data: Vec<u8> = vec![99; 64];
    assert_eq!(client.submit_source_data(&data), 0);
    assert_eq!(client.output(), &vec![0u8; 48]);
    for id in 0..3usize {
        assert!(client.blockmap().contains(id));
    }
    assert_eq!(client.skip_bytes(), 0);
}

#[test]
fn scan_of_the_shortest_buffer() {
    let mut client: Context = three_block_session(1);
    assert_eq!(client.submit_source_data(&[2; 16]), 1);
    assert_eq!(&client.output()[16..32], &[2u8; 16]);
    assert_eq!(&client.output()[0..16], &[0u8; 16]);
    assert_eq!(client.skip_bytes(), 0);
}

#[test]
fn scan_remembers_where_it_stopped() {
    // a match at position 2, then no room for another block within the bound
    let mut client: Context = three_block_session(1);
    let mut data: Vec<u8> = vec![9, 9];
    data.extend_from_slice(&[1; 16]);
    data.extend_from_slice(&[9; 10]);
    // limit is 12, the cursor stays at 2
    assert_eq!(client.submit_source_data(&data), 1);
    assert_eq!(client.skip_bytes(), 10);
}

#[test]
fn scan_does_not_match_a_block_twice() {
    let mut client: Context = three_block_session(1);
    let mut data: Vec<u8> = Vec::new();
    data.extend_from_slice(&[1; 16]);
    data.extend_from_slice(&[1; 16]);
    data.extend_from_slice(&[1; 16]);
    assert_eq!(client.submit_source_data(&data), 1);
    assert_eq!(client.submit_source_data(&data), 0);
    assert_eq!(&client.output()[0..16], &[1u8; 16]);
    assert_eq!(&client.output()[16..48], &[0u8; 32]);
}

#[test]
fn scan_writes_repeated_content_everywhere() {
    let config: Config = Config::new(1, 16, 4).unwrap();
    let mut client: Context = Context::new(config, 5);
    for id in [0usize, 2, 4].iter() {
        client.insert_block(*id, expect(&[6, 6, 6, 6], 16));
    }
    client.insert_block(1, expect(&[1, 2, 3, 4], 16));
    let data: Vec<u8> = vec![0, 6, 6, 6, 6, 0, 0, 0];
    assert_eq!(client.submit_source_data(&data), 3);
    assert_eq!(
        client.output(),
        &vec![6u8, 6, 6, 6, 0, 0, 0, 0, 6, 6, 6, 6, 0, 0, 0, 0, 6, 6, 6, 6]
    );
    assert!(client.blockmap().contains(1));
    assert!(!client.blockmap().contains(3));
}

#[test]
fn scan_ignores_a_weak_hit_with_another_digest() {
    // other bytes with the same sum and the same weighted sum
    let a: [u8; 4] = [1, 0, 0, 1];
    let b: [u8; 4] = [0, 1, 1, 0];
    assert_eq!(Rsum::calculate(&a), Rsum::calculate(&b));
    let config: Config = Config::new(1, 16, 4).unwrap();
    let mut client: Context = Context::new(config, 1);
    client.insert_block(0, expect(&a, 16));
    assert_eq!(client.submit_source_data(&[0, 1, 1, 0, 5, 5]), 0);
    assert!(client.blockmap().contains(0));
    assert_eq!(client.output(), &vec![0u8; 4]);
    assert_eq!(client.submit_source_data(&[5, 1, 0, 0, 1, 5]), 1);
    assert_eq!(client.output(), &vec![1u8, 0, 0, 1]);
}

#[test]
fn remote_block_is_taken_when_its_digest_agrees() {
    let mut client: Context = three_block_session(1);
    client.submit_remote_block(1, &[2; 16]);
    assert_eq!(&client.output()[16..32], &[2u8; 16]);
    assert_eq!(&client.output()[0..16], &[0u8; 16]);
    assert_eq!(&client.output()[32..48], &[0u8; 16]);
    assert!(!client.blockmap().contains(1));
    assert!(client.blockmap().contains(0));
    assert!(client.blockmap().contains(2));
    assert!(client
        .blockmap()
        .search_weak(Rsum::calculate(&[2; 16]))
        .is_none());
}

#[test]
fn remote_block_is_left_when_its_digest_differs() {
    let mut client: Context = three_block_session(1);
    client.submit_remote_block(1, &[99; 16]);
    client.submit_remote_block(0, &[2; 16]);
    assert_eq!(client.output(), &vec![0u8; 48]);
    for id in 0..3usize {
        assert!(client.blockmap().contains(id));
    }
}

#[test]
fn remote_block_is_not_written_again() {
    let mut client: Context = three_block_session(1);
    assert_eq!(client.submit_source_data(&[1; 16]), 1);
    client.submit_remote_block(0, &[1; 16]);
    assert_eq!(&client.output()[0..16], &[1u8; 16]);
    assert!(!client.blockmap().contains(0));
}

#[test]
fn remote_block_is_judged_by_the_configured_length() {
    // the expectation holds only the first five bytes of the digest
    let config: Config = Config::new(1, 5, 16).unwrap();
    let mut client: Context = Context::new(config, 1);
    let full: MD4Digest = MD4Digest::calculate(&[2; 16]);
    let mut bytes: [u8; 16] = [0; 16];
    bytes[..5].copy_from_slice(&full.0[..5]);
    client.insert_block(
        0,
        ZBlock {
            rsum: Rsum::calculate(&[2; 16]),
            checksum: PartialChecksum { value: bytes.into(), length: 5 },
        },
    );
    client.submit_remote_block(0, &[2; 16]);
    assert_eq!(client.output(), &vec![2u8; 16]);
    assert!(!client.blockmap().contains(0));
}

#[test]
fn scan_in_two_calls_split_behind_a_match() {
    let data: Vec<u8> = three_block_candidate();
    let mut whole: Context = three_block_session(1);
    assert_eq!(whole.submit_source_data(&data), 3);

    let mut parts: Context = three_block_session(1);
    let first: usize = parts.submit_source_data(&data[..18]);
    let second: usize = parts.submit_source_data(&data[18..]);
    assert_eq!(first + second, 3);
    assert_eq!(parts.output(), whole.output());
}

#[test]
fn scan_in_two_calls_split_inside_a_block() {
    // neither part holds the second block whole
    let data: Vec<u8> = three_block_candidate();
    let mut parts: Context = three_block_session(1);
    let first: usize = parts.submit_source_data(&data[..25]);
    let second: usize = parts.submit_source_data(&data[25..]);
    assert_eq!(first, 1);
    assert_eq!(second, 1);
    assert!(parts.blockmap().contains(1));
    assert_eq!(&parts.output()[16..32], &[0u8; 16]);
    assert_eq!(&parts.output()[0..16], &[1u8; 16]);
    assert_eq!(&parts.output()[32..48], &[3u8; 16]);
}

#[test]
fn scan_in_two_calls_split_in_a_quiet_stretch() {
    // block, twenty stray bytes, block: split in the middle of the stray bytes
    let mut data: Vec<u8> = Vec::new();
    data.extend_from_slice(&[1; 16]);
    data.extend_from_slice(&[9; 20]);
    data.extend_from_slice(&[3; 16]);
    let mut whole: Context = three_block_session(1);
    assert_eq!(whole.submit_source_data(&data), 2);

    let mut parts: Context = three_block_session(1);
    let first: usize = parts.submit_source_data(&data[..34]);
    let second: usize = parts.submit_source_data(&data[34..]);
    assert_eq!(first, 1);
    assert_eq!(second, 1);
    assert_eq!(parts.output(), whole.output());
    assert_eq!(parts.skip_bytes(), whole.skip_bytes());
}

#[test]
fn session_is_complete_when_nothing_is_looked_for() {
    let config: Config = Config::new(1, 5, 16).unwrap();
    let blank: Context = Context::new(config, 3);
    assert!(blank.is_complete());

    let mut client: Context = three_block_session(1);
    assert!(!client.is_complete());
    assert_eq!(client.submit_source_data(&three_block_candidate()), 3);
    assert!(client.is_complete());
    assert!(client.blockmap().is_empty());

    let mut other: Context = three_block_session(1);
    other.submit_remote_block(0, &[1; 16]);
    other.submit_remote_block(1, &[2; 16]);
    assert!(!other.is_complete());
    other.submit_remote_block(2, &[3; 16]);
    assert!(other.is_complete());
    assert_eq!(other.output(), &three_block_target());
}

#[test]
fn found_blocks_have_what_is_expected_of_them() {
    let mut client: Context = three_block_session(1);
    let mut data: Vec<u8> = vec![7; 5];
    data.extend_from_slice(&[3; 16]);
    data.extend_from_slice(&[1; 16]);
    data.extend_from_slice(&[7; 3]);
    let before: Vec<u8> = client.output().clone();
    assert_eq!(client.submit_source_data(&data), 2);
    for id in 0..3usize {
        let bytes: &[u8] = &client.output()[id * 16..(id + 1) * 16];
        if client.blockmap().contains(id) {
            assert_eq!(bytes, &before[id * 16..(id + 1) * 16]);
        } else {
            let expected = client.blockmap().block(id);
            assert_eq!(Rsum::calculate(bytes), expected.rsum);
            let digest: PartialChecksum = PartialChecksum {
                value: MD4Digest::calculate(bytes),
                length: 5,
            };
            assert!(digest == expected.checksum);
        }
    }
    assert!(client.blockmap().contains(1));
}

#[test]
fn digested_block_is_judged_by_the_digest_given() {
    let mut client: Context = three_block_session(1);
    // bytes that are not the block, under the digest of the block
    let digest: MD4Digest = MD4Digest::calculate(&[2; 16]);
    assert!(!client.submit_digested_block(0, digest, &[5; 16]));
    assert_eq!(client.output(), &vec![0u8; 48]);
    assert!(client.submit_digested_block(1, digest, &[5; 16]));
    assert_eq!(&client.output()[16..32], &[5u8; 16]);
    assert!(!client.blockmap().contains(1));
    // once taken, not taken again
    assert!(!client.submit_digested_block(1, digest, &[6; 16]));
    assert_eq!(&client.output()[16..32], &[5u8; 16]);
    // only the first five bytes of the digest count here
    let mut other: [u8; 16] = MD4Digest::calculate(&[3; 16]).0;
    other[5] ^= 0xff;
    other[15] ^= 0xff;
    assert!(client.submit_digested_block(2, MD4Digest(other), &[3; 16]));
    other[4] ^= 0xff;
    assert!(!client.submit_digested_block(0, MD4Digest(other), &[1; 16]));
}
