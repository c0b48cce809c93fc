use hash32::FnvHasher;
use hash32::Hasher;
use hash32::Murmur3Hasher;

const MESSAGE: &[u8] = b"abcdbcdecdefdefgefghfghighijhijkijkljklmklmnlmnomnopnopq";

fn murmur3_one_shot(data: &[u8]) -> u32 {
    let mut hasher: Murmur3Hasher = Default::default();
    hasher.write(data);
    hasher.finish32()
}

#[test]
fn murmurhash3_partitions_agree_with_one_shot() {
    let expected = murmur3_one_shot(MESSAGE);
    assert_eq!(expected, 0xEE925B90);

    // One byte per write.
    let mut byte_by_byte: Murmur3Hasher = Default::default();
    for byte in MESSAGE {
        byte_by_byte.write(&[*byte]);
    }
    assert_eq!(byte_by_byte.finish32(), expected);

    // Chunks of three, so every block boundary falls inside a chunk.
    let mut threes: Murmur3Hasher = Default::default();
    for chunk in MESSAGE.chunks(3) {
        threes.write(chunk);
    }
    assert_eq!(threes.finish32(), expected);

    // Uneven split with empty writes mixed in.
    let mut uneven: Murmur3Hasher = Default::default();
    uneven.write(b"");
    uneven.write(&MESSAGE[..5]);
    uneven.write(&MESSAGE[5..6]);
    uneven.write(b"");
    uneven.write(&MESSAGE[6..]);
    assert_eq!(uneven.finish32(), expected);
}

#[test]
fn murmurhash3_partial_block_split_agrees() {
    let mut split: Murmur3Hasher = Default::default();
    split.write(&[0x21]);
    split.write(&[0x43, 0x65]);
    assert_eq!(u64::from(split.finish32()), 0x7E4A8634);
}

#[test]
fn hash_of_chunks_matches_one_shot() {
    let chunks: Vec<Vec<u8>> = vec![
        b"abcdbcde".to_vec(),
        Vec::new(),
        b"cdefdefgefghfghighijhijk".to_vec(),
        b"i".to_vec(),
        b"jkljklmklmnlmnomnopnopq".to_vec(),
    ];
    let mut hasher: Murmur3Hasher = Default::default();
    let hash = hash32::hash_of_chunks(&mut hasher, &chunks);
    assert_eq!(hash, murmur3_one_shot(MESSAGE));

    let mut fnv: FnvHasher = Default::default();
    let fnv_chunked = hash32::hash_of_chunks(&mut fnv, &chunks);
    let mut fnv_whole: FnvHasher = Default::default();
    fnv_whole.write(MESSAGE);
    assert_eq!(fnv_chunked, fnv_whole.finish32());
}

#[test]
fn finish32_is_idempotent() {
    let mut hasher: Murmur3Hasher = Default::default();
    hasher.write(&[0x21, 0x43, 0x65]);
    let first = hasher.finish32();
    assert_eq!(hasher.finish32(), first);
    assert_eq!(hasher.finish32(), first);

    let (left, right) = hash32::finish32_twice(&hasher);
    assert_eq!(left, right);
    assert_eq!(left, first);
}

#[test]
fn write_continues_after_finish32() {
    let mut probed: Murmur3Hasher = Default::default();
    probed.write(&MESSAGE[..7]);
    let mid = probed.finish32();
    probed.write(&MESSAGE[7..]);
    assert_eq!(probed.finish32(), murmur3_one_shot(MESSAGE));
    assert_eq!(mid, murmur3_one_shot(&MESSAGE[..7]));

    let mut stepped: Murmur3Hasher = Default::default();
    stepped.write(&MESSAGE[..13]);
    let (before, after) = hash32::write_after_finish32(&mut stepped, &MESSAGE[13..]);
    assert_eq!(before, murmur3_one_shot(&MESSAGE[..13]));
    assert_eq!(after, murmur3_one_shot(MESSAGE));
}

#[test]
fn finish_zero_extends_finish32() {
    let mut murmur: Murmur3Hasher = Default::default();
    murmur.write(MESSAGE);
    assert_eq!(murmur.finish(), u64::from(murmur.finish32()));
    assert_eq!(murmur.finish() >> 32, 0);

    let empty: Murmur3Hasher = Default::default();
    assert_eq!(empty.finish(), u64::from(empty.finish32()));
}
