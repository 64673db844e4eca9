use snowball::bytes::{compare_bytes, Position};
use snowball::hashing::{
    shared_cloak, hash_bytes, hash_data, id_digest, ids_digest, nonce_seed, pad_block, same_hash,
    session_id, session_key_seed,
};
use snowball::leader::leader_id;
use snowball::participant::{
    contains, exclude, insert_sorted, is_subset, same_set, sort_dedup, ParticipantID,
};
use snowball::scalar::{add, from_digest, from_u64, is_canonical, reduce, sub, to_i64, zero};

fn pid(key: u8, seed: u8) -> ParticipantID {
    ParticipantID::new([key; 65], [seed; 32])
}

const ORDER: [u8; 32] = [
    0xed, 0xd3, 0xf5, 0x5c, 0x1a, 0x63, 0x12, 0x58, 0xd6, 0x9c, 0xf7, 0xa2, 0xde, 0xf9, 0xde, 0x14,
    0x00, 0x00, 0x00, 0x00, 0x00, 0x00, 0x00, 0x00, 0x00, 0x00, 0x00, 0x00, 0x00, 0x00, 0x00, 0x10,
];

const A: [u8; 32] = [
    0xef, 0xcd, 0xab, 0x89, 0x67, 0x45, 0x23, 0x01, 0xef, 0xcd, 0xab, 0x89, 0x67, 0x45, 0x23, 0x01,
    0xef, 0xcd, 0xab, 0x89, 0x67, 0x45, 0x23, 0x01, 0xef, 0xcd, 0xab, 0x89, 0x67, 0x45, 0x23, 0x01,
];

const B: [u8; 32] = [
    0x21, 0x43, 0x65, 0x87, 0xa9, 0xcb, 0xed, 0x0f, 0x21, 0x43, 0x65, 0x87, 0xa9, 0xcb, 0xed, 0x0f,
    0x21, 0x43, 0x65, 0x87, 0xa9, 0xcb, 0xed, 0x0f, 0x21, 0x43, 0x65, 0x87, 0xa9, 0xcb, 0xed, 0x0f,
];

#[test]
fn compare_bytes_is_lexicographic() {
    assert_eq!(compare_bytes(&[1, 2, 3], &[1, 2, 3]), Position::Same);
    assert_eq!(compare_bytes(&[1, 2, 3], &[1, 3, 0]), Position::Before);
    assert_eq!(compare_bytes(&[2, 0, 0], &[1, 255, 255]), Position::After);
    assert_eq!(compare_bytes(&[0, 0, 255], &[0, 1, 0]), Position::Before);
    assert_eq!(compare_bytes(&[], &[]), Position::Same);
}

#[test]
fn identities_order_by_key_then_seed() {
    assert_eq!(pid(1, 9).compare(&pid(2, 0)), Position::Before);
    assert_eq!(pid(2, 0).compare(&pid(1, 9)), Position::After);
    assert_eq!(pid(1, 1).compare(&pid(1, 2)), Position::Before);
    assert_eq!(pid(1, 2).compare(&pid(1, 2)), Position::Same);
    assert!(pid(1, 2).same(&pid(1, 2)));
    assert!(!pid(1, 2).same(&pid(1, 3)));
    // the library's order is the order that the derived impl gives
    assert!(pid(1, 9) < pid(2, 0));
    assert!(pid(1, 1) < pid(1, 2));
    let mut high = [0u8; 65];
    high[64] = 1;
    let mut low = [0u8; 65];
    low[0] = 1;
    let a = ParticipantID::new(high, [0; 32]);
    let b = ParticipantID::new(low, [0; 32]);
    assert_eq!(a.compare(&b), Position::Before);
    assert!(a < b);
}

#[test]
fn sort_dedup_gives_each_identity_once_in_order() {
    let list = vec![pid(3, 0), pid(1, 0), pid(2, 5), pid(1, 0), pid(2, 1), pid(3, 0)];
    let sorted = sort_dedup(&list);
    assert_eq!(sorted, vec![pid(1, 0), pid(2, 1), pid(2, 5), pid(3, 0)]);
    let mut expected = list.clone();
    expected.sort();
    expected.dedup();
    assert_eq!(sorted, expected);
    assert_eq!(sort_dedup(&Vec::new()), Vec::new());
}

#[test]
fn sort_dedup_does_not_depend_on_the_order() {
    let a = vec![pid(1, 0), pid(2, 0), pid(3, 0), pid(4, 0)];
    let b = vec![pid(4, 0), pid(2, 0), pid(1, 0), pid(3, 0), pid(2, 0)];
    assert_eq!(sort_dedup(&a), sort_dedup(&b));
}

#[test]
fn insert_sorted_keeps_order_and_skips_what_is_there() {
    let mut list = vec![pid(1, 0), pid(3, 0)];
    insert_sorted(&mut list, pid(2, 0));
    assert_eq!(list, vec![pid(1, 0), pid(2, 0), pid(3, 0)]);
    insert_sorted(&mut list, pid(2, 0));
    assert_eq!(list, vec![pid(1, 0), pid(2, 0), pid(3, 0)]);
    insert_sorted(&mut list, pid(0, 0));
    insert_sorted(&mut list, pid(9, 0));
    assert_eq!(list, vec![pid(0, 0), pid(1, 0), pid(2, 0), pid(3, 0), pid(9, 0)]);
}

#[test]
fn lists_of_identities() {
    let list = vec![pid(1, 0), pid(2, 0), pid(3, 0), pid(2, 0)];
    assert!(contains(&list, &pid(2, 0)));
    assert!(!contains(&list, &pid(2, 1)));
    assert_eq!(exclude(&list, &vec![pid(2, 0)]), vec![pid(1, 0), pid(3, 0)]);
    assert_eq!(exclude(&list, &vec![]), list);
    assert_eq!(exclude(&list, &vec![pid(7, 0)]), list);
    assert!(is_subset(&vec![pid(3, 0), pid(1, 0)], &list));
    assert!(!is_subset(&list, &vec![pid(3, 0), pid(1, 0)]));
    assert!(same_set(&list, &vec![pid(3, 0), pid(2, 0), pid(1, 0)]));
    assert!(!same_set(&list, &vec![pid(3, 0), pid(1, 0)]));
    assert!(same_set(&Vec::new(), &Vec::new()));
}

#[test]
fn hash_is_sha3_256() {
    assert_eq!(
        hash_bytes(&Vec::new()),
        [
            0xa7, 0xff, 0xc6, 0xf8, 0xbf, 0x1e, 0xd7, 0x66, 0x51, 0xc1, 0x47, 0x56, 0xa0, 0x61,
            0xd6, 0x62, 0xf5, 0x80, 0xff, 0x4d, 0xe4, 0x3b, 0x49, 0xfa, 0x82, 0xd8, 0x0a, 0x4b,
            0x80, 0xf8, 0x43, 0x4a
        ]
    );
}

const SID: [u8; 32] = [
    0x90, 0xd4, 0x08, 0xf7, 0x8c, 0x35, 0x30, 0xe2, 0xa0, 0x0b, 0x01, 0xdd, 0xf1, 0x8c, 0x77, 0xce,
    0x65, 0x6b, 0x81, 0xf2, 0x6e, 0xd5, 0x67, 0x0e, 0xfb, 0x3a, 0x3c, 0xdb, 0x63, 0x54, 0xff, 0x8c,
];

#[test]
fn session_id_of_three_participants_with_zero_seeds() {
    let prev = [0xaau8; 32];
    let list = vec![pid(1, 0), pid(2, 0), pid(3, 0)];
    assert_eq!(session_id(&prev, 1, &list), SID);
}

#[test]
fn session_id_does_not_depend_on_the_order() {
    let prev = [0xaau8; 32];
    assert_eq!(session_id(&prev, 1, &vec![pid(3, 0), pid(1, 0), pid(2, 0)]), SID);
    assert_eq!(session_id(&prev, 1, &vec![pid(2, 0), pid(3, 0), pid(1, 0), pid(3, 0)]), SID);
}

#[test]
fn session_id_changes_with_each_of_its_parts() {
    let prev = [0xaau8; 32];
    let list = vec![pid(1, 0), pid(2, 0), pid(3, 0)];
    assert_ne!(session_id(&prev, 2, &list), SID);
    assert_ne!(session_id(&[0xabu8; 32], 1, &list), SID);
    assert_ne!(session_id(&prev, 1, &vec![pid(1, 0), pid(2, 0), pid(3, 1)]), SID);
    assert_ne!(session_id(&prev, 1, &vec![pid(1, 0), pid(2, 0)]), SID);
    assert_ne!(session_id(&prev, 256, &list), session_id(&prev, 1, &list));
}

#[test]
fn nonce_seed_follows_the_session_id() {
    let skey = [7u8; 32];
    let seed = nonce_seed(&SID, &skey);
    assert_eq!(
        seed,
        [
            0xce, 0xdf, 0x70, 0x2c, 0x6d, 0xe5, 0x9b, 0xdb, 0x5e, 0xcb, 0x6d, 0x60, 0x77, 0xd1,
            0x95, 0xeb, 0x8b, 0x02, 0xf8, 0xe8, 0xb3, 0x7a, 0x33, 0xb5, 0xd7, 0xb3, 0x82, 0x78,
            0x24, 0xc0, 0x34, 0x15
        ]
    );
    let nonce = from_digest(&seed);
    assert!(is_canonical(&nonce));
    for i in 0..32 {
        let mut other = SID;
        other[i] ^= 1;
        assert_ne!(nonce_seed(&other, &skey), seed);
        assert_ne!(from_digest(&nonce_seed(&other, &skey)), nonce);
    }
    assert_ne!(nonce_seed(&SID, &[8u8; 32]), seed);
}

#[test]
fn session_key_seed_is_the_hash_of_id_and_secret() {
    assert_eq!(
        session_key_seed(&SID, &[7u8; 32]),
        [
            0xb6, 0x9d, 0xfb, 0x44, 0xa7, 0xce, 0x98, 0xec, 0xe7, 0x10, 0xac, 0xcd, 0x76, 0x48,
            0xd1, 0xe2, 0x79, 0x4e, 0xe3, 0xbd, 0x0f, 0x9b, 0xf3, 0xfb, 0xe0, 0x4d, 0xc2, 0x3f,
            0x92, 0x46, 0xee, 0x22
        ]
    );
    assert_ne!(session_key_seed(&SID, &[7u8; 32]), nonce_seed(&SID, &[7u8; 32]));
}

#[test]
fn a_cloak_is_the_hash_of_secret_and_id() {
    assert_eq!(
        shared_cloak(&[9u8; 32], &SID),
        [
            0xbf, 0x1a, 0x9c, 0x37, 0xb4, 0x05, 0xbb, 0xf3, 0x20, 0xd8, 0x7d, 0x26, 0x12, 0x3e,
            0xb1, 0x99, 0xfb, 0xf9, 0xe5, 0xbe, 0xbd, 0x26, 0xea, 0xe9, 0xdb, 0x9b, 0x83, 0x9f,
            0x5d, 0x14, 0xc7, 0x2f
        ]
    );
}

#[test]
fn digests_of_identities() {
    assert_eq!(
        id_digest(&pid(1, 0)),
        [
            0x5d, 0xeb, 0xfa, 0x73, 0x0c, 0xa5, 0x96, 0x14, 0xbe, 0xa6, 0x66, 0x4e, 0x40, 0xda,
            0x89, 0x9c, 0x4a, 0xf9, 0x06, 0x09, 0xb7, 0x22, 0xf0, 0x6a, 0x3a, 0x13, 0x27, 0x42,
            0xcf, 0xad, 0x85, 0x41
        ]
    );
    let all = [
        0x44, 0xaf, 0x53, 0x17, 0x69, 0x6e, 0x92, 0x3d, 0x4a, 0x53, 0xd3, 0xef, 0x13, 0xb5, 0xd7,
        0x0e, 0x9e, 0xaa, 0x0c, 0x86, 0x1f, 0xb9, 0xfe, 0x1c, 0x1b, 0xc6, 0xba, 0xc7, 0x32, 0x5d,
        0xf9, 0xd8,
    ];
    assert_eq!(ids_digest(&vec![pid(1, 0), pid(2, 0), pid(3, 0)]), all);
    assert_eq!(ids_digest(&vec![pid(3, 0), pid(2, 0), pid(1, 0), pid(2, 0)]), all);
}

#[test]
fn commitment_hashes_tag_cells_and_scalars() {
    let cmt = hash_data(&vec![1, 2, 3, 4], &[5u8; 32], &[6u8; 32]);
    assert_eq!(
        cmt,
        [
            0x3a, 0xe5, 0x94, 0x9a, 0x0c, 0x4b, 0x53, 0x91, 0x25, 0x8d, 0xa3, 0x8e, 0x56, 0x7c,
            0xfe, 0x82, 0x7b, 0xfe, 0x4a, 0x7f, 0x29, 0xb0, 0xdc, 0xda, 0x6a, 0x38, 0xe0, 0x7d,
            0x92, 0x03, 0x76, 0xa9
        ]
    );
    assert_ne!(hash_data(&vec![1, 2, 3, 5], &[5u8; 32], &[6u8; 32]), cmt);
    assert_ne!(hash_data(&vec![1, 2, 3, 4], &[6u8; 32], &[5u8; 32]), cmt);
    assert!(same_hash(&cmt, &hash_data(&vec![1, 2, 3, 4], &[5u8; 32], &[6u8; 32])));
    assert!(!same_hash(&cmt, &[0u8; 32]));
}

#[test]
fn pad_block_hashes_cloak_row_and_chunk() {
    assert_eq!(
        pad_block(&[0x11u8; 32], 3, 258),
        [
            0x42, 0x4c, 0xe6, 0x6c, 0x95, 0xdf, 0xd9, 0xfe, 0x3d, 0xd1, 0x40, 0x65, 0xba, 0x95,
            0x86, 0xcf, 0x13, 0x0c, 0xa2, 0x06, 0x53, 0x56, 0x24, 0x7e, 0x7d, 0xef, 0x90, 0x4b,
            0xc3, 0x63, 0x41, 0x91
        ]
    );
    assert_ne!(pad_block(&[0x11u8; 32], 258, 3), pad_block(&[0x11u8; 32], 3, 258));
}

#[test]
fn scalars_below_the_order_are_canonical() {
    let mut below = ORDER;
    below[0] -= 1;
    assert!(is_canonical(&below));
    assert!(!is_canonical(&ORDER));
    assert!(!is_canonical(&[0xff; 32]));
    assert!(is_canonical(&[0; 32]));
    assert_eq!(zero(), [0u8; 32]);
}

#[test]
fn scalar_sums_wrap_at_the_order() {
    let mut below = ORDER;
    below[0] -= 1;
    assert_eq!(add(&below, &from_u64(1)), [0u8; 32]);
    assert_eq!(add(&below, &from_u64(5)), from_u64(4));
    assert_eq!(
        add(&A, &B),
        [
            0x23, 0x3d, 0x1b, 0xb4, 0xf6, 0xad, 0xfe, 0xb8, 0x39, 0x74, 0x19, 0x6e, 0x32, 0x17,
            0x32, 0xfc, 0x0f, 0x11, 0x11, 0x11, 0x11, 0x11, 0x11, 0x11, 0x10, 0x11, 0x11, 0x11,
            0x11, 0x11, 0x11, 0x01
        ]
    );
    assert_eq!(add(&A, &B), add(&B, &A));
    assert_eq!(add(&A, &zero()), A);
}

#[test]
fn scalar_differences_wrap_at_the_order() {
    let mut below = ORDER;
    below[0] -= 1;
    assert_eq!(sub(&zero(), &from_u64(1)), below);
    assert_eq!(
        sub(&A, &B),
        [
            0xbb, 0x5e, 0x3c, 0x5f, 0xd8, 0xdc, 0x47, 0x49, 0xa4, 0x27, 0x3e, 0xa5, 0x9c, 0x73,
            0x14, 0x06, 0xce, 0x8a, 0x46, 0x02, 0xbe, 0x79, 0x35, 0xf1, 0xcd, 0x8a, 0x46, 0x02,
            0xbe, 0x79, 0x35, 0x01
        ]
    );
    assert_eq!(
        sub(&B, &A),
        [
            0x32, 0x75, 0xb9, 0xfd, 0x41, 0x86, 0xca, 0x0e, 0x32, 0x75, 0xb9, 0xfd, 0x41, 0x86,
            0xca, 0x0e, 0x32, 0x75, 0xb9, 0xfd, 0x41, 0x86, 0xca, 0x0e, 0x32, 0x75, 0xb9, 0xfd,
            0x41, 0x86, 0xca, 0x0e
        ]
    );
    assert_eq!(add(&sub(&A, &B), &B), A);
    assert_eq!(sub(&A, &A), zero());
}

#[test]
fn reduce_brings_any_bytes_into_the_field() {
    assert_eq!(reduce(&ORDER), [0u8; 32]);
    assert_eq!(
        reduce(&[0xff; 32]),
        [
            0x1c, 0x95, 0x98, 0x8d, 0x74, 0x31, 0xec, 0xd6, 0x70, 0xcf, 0x7d, 0x73, 0xf4, 0x5b,
            0xef, 0xc6, 0xfe, 0xff, 0xff, 0xff, 0xff, 0xff, 0xff, 0xff, 0xff, 0xff, 0xff, 0xff,
            0xff, 0xff, 0xff, 0x0f
        ]
    );
    assert_eq!(reduce(&A), A);
    // sums are taken of what the bytes stand for
    assert_eq!(add(&ORDER, &from_u64(3)), from_u64(3));
}

#[test]
fn counts_go_into_scalars_and_back() {
    assert_eq!(from_u64(0), [0u8; 32]);
    let s = from_u64(0x0102030405060708);
    assert_eq!(&s[..8], &[8, 7, 6, 5, 4, 3, 2, 1]);
    assert_eq!(&s[8..], &[0u8; 24]);
    assert_eq!(to_i64(&s), Some(0x0102030405060708));
    assert_eq!(to_i64(&from_u64(i64::MAX as u64)), Some(i64::MAX));
    assert_eq!(to_i64(&from_u64(i64::MAX as u64 + 1)), None);
    assert_eq!(to_i64(&A), None);
    assert_eq!(to_i64(&add(&ORDER, &from_u64(42))), Some(42));
    assert_eq!(to_i64(&sub(&zero(), &from_u64(1))), None);
}

#[test]
fn a_hash_gives_a_scalar_by_clearing_four_bits() {
    let h = [0xffu8; 32];
    let s = from_digest(&h);
    assert_eq!(&s[..31], &[0xffu8; 31]);
    assert_eq!(s[31], 0x0f);
    assert!(is_canonical(&s));
    assert_eq!(from_digest(&A), A);
}

#[test]
fn leader_is_nearest_to_the_hash_of_all() {
    let list = vec![pid(1, 0), pid(2, 0), pid(3, 0)];
    assert_eq!(leader_id(&list), Some(pid(1, 0)));
    assert_eq!(leader_id(&vec![pid(3, 0), pid(1, 0), pid(2, 0)]), Some(pid(1, 0)));
    assert_eq!(leader_id(&Vec::new()), None);
    assert_eq!(leader_id(&vec![pid(5, 5)]), Some(pid(5, 5)));
}

#[test]
fn leader_has_the_smallest_distance() {
    let list: Vec<ParticipantID> = (1..=8).map(|i| pid(i, i)).collect();
    let all = ids_digest(&list);
    let distance = |p: &ParticipantID| -> Vec<u8> {
        id_digest(p).iter().zip(all.iter()).map(|(a, b)| a ^ b).collect()
    };
    let leader = leader_id(&list).unwrap();
    for p in &list {
        assert!(distance(&leader) <= distance(p));
    }
    let mut reversed = list.clone();
    reversed.reverse();
    assert_eq!(leader_id(&reversed), Some(leader));
}
