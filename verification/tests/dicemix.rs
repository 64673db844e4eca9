use snowball::dicemix::{
    dc_decode, dc_encode_scalar, dc_scalar_open, encode_matrix, find_cloak, find_contribution,
    lay_pads, matrix_size, position, split_rows, xor_pad, Cloak, Contribution, MAX_UTXOS,
};
use snowball::blame::{judge, read_contribution, uncloak};
use snowball::lists::{came_out, select_parsed};
use snowball::hashing::{shared_cloak, pad_block};
use snowball::types::{KeyEntry, Verdict};
use snowball::participant::ParticipantID;
use snowball::scalar::{add, from_digest, from_u64, sub, to_i64, zero, Scalar};

const SID: [u8; 32] = [0x5a; 32];

fn pid(i: usize) -> ParticipantID {
    ParticipantID::new([(i + 1) as u8; 65], [0; 32])
}

fn team(n: usize) -> Vec<ParticipantID> {
    (0..n).map(pid).collect()
}

/// The secret that the participants at `i` and `j` share.
fn shared(i: usize, j: usize) -> [u8; 32] {
    let (a, b) = if i < j { (i, j) } else { (j, i) };
    let mut s = [0x33u8; 32];
    s[0] = a as u8;
    s[1] = b as u8;
    s
}

/// The cloaks that the participant at `i` shares with the others of `n`.
fn cloaks_of(i: usize, n: usize) -> Vec<Cloak> {
    (0..n)
        .filter(|j| *j != i)
        .map(|j| Cloak { id: pid(j), key: shared_cloak(&shared(i, j), &SID) })
        .collect()
}

/// The outputs of the participant at `i`: `count` rows of `size` bytes.
fn utxos_of(i: usize, count: usize, size: usize) -> Vec<Vec<u8>> {
    (0..count)
        .map(|slot| (0..size).map(|b| (1 + i * 37 + slot * 11 + b * 3) as u8 | 1).collect())
        .collect()
}

fn contribution(i: usize, n: usize, utxos: &Vec<Vec<u8>>, n_chunks: usize) -> Contribution {
    let matrix = encode_matrix(&team(n), utxos, &pid(i), &cloaks_of(i, n), n_chunks);
    Contribution {
        id: pid(i),
        matrix,
        gamma_sum: zero(),
        fee_sum: zero(),
        cloaks: Vec::new(),
    }
}

#[test]
fn cloaks_cancel_for_three_to_eight_participants() {
    let size = 70;
    let n_chunks = 3;
    for n in 3..=8 {
        let mut all = Vec::new();
        for i in 0..n {
            all.push(contribution(i, n, &utxos_of(i, 1 + i % MAX_UTXOS, size), n_chunks));
        }
        let sum = dc_decode(&team(n), &all, &Vec::new(), n, n_chunks);
        assert_eq!(sum.len(), n * MAX_UTXOS * n_chunks * 32);
        let rows = split_rows(&sum, n_chunks, size);
        assert_eq!(rows.len(), n * MAX_UTXOS);
        for i in 0..n {
            let mine = utxos_of(i, 1 + i % MAX_UTXOS, size);
            for slot in 0..MAX_UTXOS {
                if slot < mine.len() {
                    assert_eq!(rows[i * MAX_UTXOS + slot], mine[slot]);
                } else {
                    assert_eq!(rows[i * MAX_UTXOS + slot], vec![0u8; size]);
                }
            }
        }
        // what lies beyond the width of an output is zero
        let wide = split_rows(&sum, n_chunks, n_chunks * 32);
        for row in &wide {
            assert_eq!(&row[size..], &vec![0u8; n_chunks * 32 - size][..]);
        }
    }
}

#[test]
fn the_order_of_the_contributions_makes_no_difference() {
    let n = 4;
    let mut all = Vec::new();
    for i in 0..n {
        all.push(contribution(i, n, &utxos_of(i, 2, 64), 2));
    }
    let sum = dc_decode(&team(n), &all, &Vec::new(), n, 2);
    all.reverse();
    let mut list = team(n);
    list.swap(0, 3);
    assert_eq!(dc_decode(&list, &all, &Vec::new(), n, 2), sum);
}

#[test]
fn a_matrix_alone_shows_nothing() {
    let n = 3;
    let utxos = utxos_of(0, 1, 64);
    let cloaked = encode_matrix(&team(n), &utxos, &pid(0), &cloaks_of(0, n), 2);
    let plain = encode_matrix(&team(n), &utxos, &pid(0), &Vec::new(), 2);
    assert_eq!(&plain[..64], &utxos[0][..]);
    assert_eq!(&plain[64..], &vec![0u8; 3 * 5 * 64 - 64][..]);
    assert_ne!(cloaked, plain);
    // every cell is under the pads of both peers
    for block in 0..(3 * 5 * 2) {
        let pad1 = pad_block(&shared_cloak(&shared(0, 1), &SID), (block / 2) as u64, (block % 2) as u64);
        let pad2 = pad_block(&shared_cloak(&shared(0, 2), &SID), (block / 2) as u64, (block % 2) as u64);
        for b in 0..32 {
            let idx = block * 32 + b;
            assert_eq!(cloaked[idx], plain[idx] ^ pad1[b] ^ pad2[b]);
        }
    }
}

#[test]
fn own_rows_stand_at_the_place_in_the_list() {
    let n = 3;
    let utxos = vec![vec![7u8; 32]];
    for i in 0..n {
        let plain = encode_matrix(&team(n), &utxos, &pid(i), &Vec::new(), 1);
        for row in 0..(n * 5) {
            let want = if row == i * 5 { vec![7u8; 32] } else { vec![0u8; 32] };
            assert_eq!(&plain[row * 32..(row + 1) * 32], &want[..]);
        }
    }
    // who is not in the list has no rows
    let stranger = encode_matrix(&team(n), &utxos, &pid(9), &Vec::new(), 1);
    assert_eq!(stranger, vec![0u8; n * 5 * 32]);
}

#[test]
fn long_outputs_are_cut_and_more_than_five_are_left_out() {
    let n = 3;
    let utxos: Vec<Vec<u8>> = (0..7).map(|s| vec![s as u8 + 1; 40]).collect();
    let plain = encode_matrix(&team(n), &utxos, &pid(1), &Vec::new(), 1);
    assert_eq!(plain.len(), n * 5 * 32);
    for slot in 0..5 {
        let row = 5 + slot;
        assert_eq!(&plain[row * 32..(row + 1) * 32], &vec![slot as u8 + 1; 32][..]);
    }
    assert_eq!(&plain[..5 * 32], &vec![0u8; 5 * 32][..]);
    assert_eq!(&plain[10 * 32..], &vec![0u8; 5 * 32][..]);
    assert_eq!(encode_matrix(&team(n), &utxos, &pid(1), &cloaks_of(1, n), 0), Vec::<u8>::new());
}

#[test]
fn revealed_cloaks_take_the_place_of_who_left() {
    // four made their matrices; the last never opened its own
    let n = 4;
    let size = 64;
    let excl = vec![pid(3)];
    let mut all = Vec::new();
    for i in 0..3 {
        let mut c = contribution(i, n, &utxos_of(i, 2, size), 2);
        c.cloaks = vec![Cloak { id: pid(3), key: shared_cloak(&shared(i, 3), &SID) }];
        all.push(c);
    }
    let survivors = team(3);
    let sum = dc_decode(&survivors, &all, &excl, n, 2);
    let rows = split_rows(&sum, 2, size);
    assert_eq!(rows.len(), n * 5);
    for i in 0..3 {
        let mine = utxos_of(i, 2, size);
        assert_eq!(rows[i * 5], mine[0]);
        assert_eq!(rows[i * 5 + 1], mine[1]);
        assert_eq!(rows[i * 5 + 2], vec![0u8; size]);
    }
    for slot in 0..5 {
        assert_eq!(rows[15 + slot], vec![0u8; size]);
    }
    // without the revealed cloaks the rows stay hidden
    let hidden = split_rows(&dc_decode(&survivors, &all, &Vec::new(), n, 2), 2, size);
    assert_ne!(hidden[0], utxos_of(0, 2, size)[0]);
}

#[test]
fn a_pad_laid_twice_is_gone() {
    let key = shared_cloak(&shared(0, 1), &SID);
    let plain: Vec<u8> = (0..(2 * 5 * 64)).map(|i| i as u8).collect();
    let mut cells = plain.clone();
    xor_pad(&mut cells, &key, 2);
    assert_ne!(cells, plain);
    assert_eq!(&cells[32..64].iter().zip(&plain[32..64]).map(|(a, b)| a ^ b).collect::<Vec<u8>>()[..],
        &pad_block(&key, 0, 1)[..]);
    assert_eq!(&cells[128..160].iter().zip(&plain[128..160]).map(|(a, b)| a ^ b).collect::<Vec<u8>>()[..],
        &pad_block(&key, 2, 0)[..]);
    xor_pad(&mut cells, &key, 2);
    assert_eq!(cells, plain);
}

fn scalar_pad(i: usize, j: usize, fee: bool) -> Scalar {
    from_digest(&pad_block(&shared_cloak(&shared(i, j), &SID), u64::MAX, if fee { 1 } else { 0 }))
}

#[test]
fn a_cloaked_scalar_is_the_scalar_with_signed_pads() {
    let n = 3;
    let x = from_u64(1000);
    // the first adds both pads, the last takes both off
    let first = dc_encode_scalar(&x, &team(n), &pid(0), &cloaks_of(0, n), false);
    assert_eq!(first, add(&add(&x, &scalar_pad(0, 1, false)), &scalar_pad(0, 2, false)));
    let middle = dc_encode_scalar(&x, &team(n), &pid(1), &cloaks_of(1, n), false);
    assert_eq!(middle, add(&sub(&x, &scalar_pad(0, 1, false)), &scalar_pad(1, 2, false)));
    let last = dc_encode_scalar(&x, &team(n), &pid(2), &cloaks_of(2, n), true);
    assert_eq!(last, sub(&sub(&x, &scalar_pad(0, 2, true)), &scalar_pad(1, 2, true)));
    assert_ne!(first, x);
    assert_ne!(scalar_pad(0, 1, false), scalar_pad(0, 1, true));
}

#[test]
fn cloaked_scalars_sum_to_the_sum_of_the_plain() {
    for n in 3..=8usize {
        let mut all = Vec::new();
        let mut gamma_total = zero();
        let mut fee_total = 0u64;
        for i in 0..n {
            let gamma = from_digest(&[(i * 17 + 3) as u8; 32]);
            let fee = 10 + i as u64;
            gamma_total = add(&gamma_total, &gamma);
            fee_total += fee;
            all.push(Contribution {
                id: pid(i),
                matrix: Vec::new(),
                gamma_sum: dc_encode_scalar(&gamma, &team(n), &pid(i), &cloaks_of(i, n), false),
                fee_sum: dc_encode_scalar(&from_u64(fee), &team(n), &pid(i), &cloaks_of(i, n), true),
                cloaks: Vec::new(),
            });
            assert_ne!(all[i].fee_sum, from_u64(fee));
        }
        assert_eq!(dc_scalar_open(&team(n), &all, &Vec::new(), false), gamma_total);
        let fee = dc_scalar_open(&team(n), &all, &Vec::new(), true);
        assert_eq!(to_i64(&fee), Some(fee_total as i64));
    }
}

#[test]
fn scalars_open_without_who_left() {
    let n = 4;
    let excl = vec![pid(3)];
    let mut all = Vec::new();
    for i in 0..3 {
        all.push(Contribution {
            id: pid(i),
            matrix: Vec::new(),
            gamma_sum: zero(),
            fee_sum: dc_encode_scalar(&from_u64(5 + i as u64), &team(n), &pid(i), &cloaks_of(i, n), true),
            cloaks: vec![Cloak { id: pid(3), key: shared_cloak(&shared(i, 3), &SID) }],
        });
    }
    let fee = dc_scalar_open(&team(3), &all, &excl, true);
    assert_eq!(to_i64(&fee), Some(18));
    assert_ne!(to_i64(&dc_scalar_open(&team(3), &all, &Vec::new(), true)), Some(18));
}

#[test]
fn lookups_find_the_first_entry() {
    let cloaks = vec![
        Cloak { id: pid(1), key: [1; 32] },
        Cloak { id: pid(2), key: [2; 32] },
        Cloak { id: pid(1), key: [3; 32] },
    ];
    assert_eq!(find_cloak(&cloaks, &pid(1)), Some([1; 32]));
    assert_eq!(find_cloak(&cloaks, &pid(2)), Some([2; 32]));
    assert_eq!(find_cloak(&cloaks, &pid(3)), None);
    assert_eq!(position(&team(4), &pid(2)), 2);
    assert_eq!(position(&team(4), &pid(9)), 4);
    let all = vec![
        Contribution { id: pid(5), matrix: vec![], gamma_sum: zero(), fee_sum: zero(), cloaks: vec![] },
        Contribution { id: pid(6), matrix: vec![], gamma_sum: zero(), fee_sum: zero(), cloaks: vec![] },
    ];
    assert_eq!(find_contribution(&all, &pid(6)), 1);
    assert_eq!(find_contribution(&all, &pid(7)), 2);
}

#[test]
fn a_short_matrix_counts_as_zeros_past_its_end() {
    let n = 3;
    let mut all = Vec::new();
    for i in 0..n {
        all.push(contribution(i, n, &utxos_of(i, 1, 32), 1));
    }
    let whole = dc_decode(&team(n), &all, &Vec::new(), n, 1);
    let cut: Vec<u8> = all[2].matrix[..100].to_vec();
    let tail: Vec<u8> = all[2].matrix[100..].to_vec();
    all[2].matrix = cut;
    let short = dc_decode(&team(n), &all, &Vec::new(), n, 1);
    assert_eq!(&short[..100], &whole[..100]);
    let diff: Vec<u8> = short[100..].iter().zip(&whole[100..]).map(|(a, b)| a ^ b).collect();
    assert_eq!(diff, tail);
}

#[test]
fn blame_reads_what_a_participant_put_in() {
    let n = 4;
    let size = 70;
    let n_chunks = 3;
    for i in 0..n {
        let utxos = utxos_of(i, 1 + i, size);
        let gamma = from_digest(&[(i * 17 + 3) as u8; 32]);
        let mut c = contribution(i, n, &utxos, n_chunks);
        c.gamma_sum = dc_encode_scalar(&gamma, &team(n), &pid(i), &cloaks_of(i, n), false);
        c.fee_sum = dc_encode_scalar(&from_u64(12), &team(n), &pid(i), &cloaks_of(i, n), true);
        let secrets: Vec<KeyEntry> = (0..n)
            .filter(|j| *j != i)
            .map(|j| KeyEntry { id: pid(j), value: shared(i, j) })
            .collect();
        let (rows, g, f) = uncloak(&team(n), &c, &secrets, &SID, size, n_chunks).unwrap();
        assert_eq!(rows, utxos);
        assert_eq!(g, gamma);
        assert_eq!(f, from_u64(12));
        // with the secret of another pair nothing sensible comes out
        let mut wrong = secrets.clone();
        wrong[0].value[5] ^= 1;
        let (rows, g, _) = uncloak(&team(n), &c, &wrong, &SID, size, n_chunks).unwrap();
        assert_ne!(rows, utxos);
        assert_ne!(g, gamma);
    }
}

#[test]
fn blame_reads_nothing_of_a_stranger_or_a_wrong_matrix() {
    let n = 3;
    let c = contribution(0, n, &utxos_of(0, 1, 64), 2);
    let secrets: Vec<KeyEntry> =
        (1..n).map(|j| KeyEntry { id: pid(j), value: shared(0, j) }).collect();
    assert!(uncloak(&team(n), &c, &secrets, &SID, 64, 2).is_some());
    // not in the list
    let others = vec![pid(1), pid(2), pid(3)];
    assert_eq!(uncloak(&others, &c, &secrets, &SID, 64, 2), None);
    // a matrix for another count of participants, or of another width
    assert_eq!(uncloak(&team(4), &c, &secrets, &SID, 64, 2), None);
    assert_eq!(uncloak(&team(n), &c, &secrets, &SID, 64, 3), None);
    let mut short = contribution(0, n, &utxos_of(0, 1, 64), 2);
    short.matrix.pop();
    assert_eq!(uncloak(&team(n), &short, &secrets, &SID, 64, 2), None);
}

#[test]
fn blame_reads_rows_in_place_and_drops_empty_ones() {
    // outputs in the first and the third row of the second participant
    let n = 3;
    let mut cells = vec![0u8; n * 5 * 32];
    cells[5 * 32..6 * 32].copy_from_slice(&[7u8; 32]);
    cells[7 * 32..8 * 32].copy_from_slice(&[9u8; 32]);
    // and something in the rows of another, which are not its own
    cells[0] = 1;
    let c = Contribution {
        id: pid(1),
        matrix: cells,
        gamma_sum: zero(),
        fee_sum: zero(),
        cloaks: Vec::new(),
    };
    let (rows, g, f) = uncloak(&team(n), &c, &Vec::new(), &SID, 32, 1).unwrap();
    assert_eq!(rows, vec![vec![7u8; 32], vec![9u8; 32]]);
    assert_eq!(g, zero());
    assert_eq!(f, zero());
    let (rows, _, _) = uncloak(&team(n), &c, &Vec::new(), &SID, 8, 1).unwrap();
    assert_eq!(rows, vec![vec![7u8; 8], vec![9u8; 8]]);
}

#[test]
fn own_outputs_are_looked_for_in_their_rows() {
    let mine = vec![vec![1u8, 2, 3], vec![4u8; 6]];
    let mut rows = vec![vec![0u8; 4]; 10];
    rows[5] = vec![1, 2, 3, 0];
    rows[6] = vec![4; 4];
    assert!(came_out(&rows, 1, &mine, 4));
    // at another place they are not
    assert!(!came_out(&rows, 0, &mine, 4));
    // nor where a byte has changed, in the output or in what fills the row
    rows[5][3] = 1;
    assert!(!came_out(&rows, 1, &mine, 4));
    rows[5][3] = 0;
    rows[6][0] = 5;
    assert!(!came_out(&rows, 1, &mine, 4));
    // nor where the rows end before them
    assert!(!came_out(&rows[..6].to_vec(), 1, &mine, 4));
    assert!(came_out(&rows, 1, &Vec::new(), 4));
}

#[test]
fn a_matrix_has_a_length_where_the_machine_can_hold_it() {
    assert_eq!(matrix_size(3, 2), Some(3 * 5 * 2 * 32));
    assert_eq!(matrix_size(300, 1), Some(300 * 5 * 32));
    assert_eq!(matrix_size(0, usize::MAX), Some(0));
    assert_eq!(matrix_size(usize::MAX, 0), Some(0));
    assert_eq!(matrix_size(usize::MAX, 1), None);
    assert_eq!(matrix_size(1, usize::MAX), None);
    assert_eq!(matrix_size(usize::MAX / 160, 1), Some(usize::MAX / 160 * 160));
    assert_eq!(matrix_size(usize::MAX / 160 + 1, 1), None);
    assert_eq!(matrix_size(1 << 20, usize::MAX >> 20), None);
}

#[test]
fn a_matrix_for_more_than_256_participants_is_made_and_read() {
    let n = 300u16;
    let list: Vec<ParticipantID> = (0..n)
        .map(|i| {
            let mut seed = [0u8; 32];
            seed[0] = (i / 256) as u8;
            seed[1] = (i % 256) as u8;
            ParticipantID::new([7; 65], seed)
        })
        .collect();
    let me = list[299];
    let cloaks = vec![Cloak { id: list[0], key: [9; 32] }];
    let matrix = encode_matrix(&list, &vec![vec![0xabu8; 32]], &me, &cloaks, 1);
    assert_eq!(matrix.len(), 300 * 5 * 32);
    let mut plain = matrix.clone();
    lay_pads(&mut plain, &list, &me, &cloaks, 1);
    assert_eq!(&plain[299 * 5 * 32..299 * 5 * 32 + 32], &[0xabu8; 32][..]);
    assert!(plain[..299 * 5 * 32].iter().all(|b| *b == 0));
    // the cell of row 1495 is cloaked by the block of that row
    assert_eq!(
        &matrix[1495 * 32..1496 * 32],
        &pad_block(&[9; 32], 1495, 0)
            .iter()
            .map(|b| b ^ 0xab)
            .collect::<Vec<u8>>()[..]
    );
}

#[test]
fn what_cannot_be_read_fails_every_check() {
    let n = 3;
    let size = 64;
    let n_chunks = 2;
    let utxos = utxos_of(0, 2, size);
    let c = contribution(0, n, &utxos, n_chunks);
    let all = vec![c.clone()];
    let plain: Vec<KeyEntry> =
        (1..n).map(|j| KeyEntry { id: pid(j), value: shared(0, j) }).collect();
    let secrets: Option<Vec<KeyEntry>> = Some(plain.clone());
    let failed =
        |i: usize| Verdict { id: pid(i), balance_ok: false, range_ok: false, signature_ok: false };
    let read = read_contribution(&team(n), &all, &pid(0), &secrets, &SID, Some(size), Some(n_chunks));
    assert_eq!(read, Ok(uncloak(&team(n), &c, &plain, &SID, size, n_chunks).unwrap()));
    assert_eq!(read.unwrap().0, utxos);
    // no contribution
    assert_eq!(
        read_contribution(&team(n), &all, &pid(1), &secrets, &SID, Some(size), Some(n_chunks)),
        Err(failed(1))
    );
    // no secret
    assert_eq!(
        read_contribution(&team(n), &all, &pid(0), &None, &SID, Some(size), Some(n_chunks)),
        Err(failed(0))
    );
    // no sizes
    assert_eq!(
        read_contribution(&team(n), &all, &pid(0), &secrets, &SID, None, Some(n_chunks)),
        Err(failed(0))
    );
    assert_eq!(
        read_contribution(&team(n), &all, &pid(0), &secrets, &SID, Some(size), None),
        Err(failed(0))
    );
    // rows of no cell, or too short for an output
    assert_eq!(
        read_contribution(&team(n), &all, &pid(0), &secrets, &SID, Some(0), Some(0)),
        Err(failed(0))
    );
    assert_eq!(
        read_contribution(&team(n), &all, &pid(0), &secrets, &SID, Some(65), Some(n_chunks)),
        Err(failed(0))
    );
    // a matrix of another size, or one that no machine holds
    assert_eq!(
        read_contribution(&team(n), &all, &pid(0), &secrets, &SID, Some(size), Some(3)),
        Err(failed(0))
    );
    assert_eq!(
        read_contribution(&team(n), &all, &pid(0), &secrets, &SID, Some(size), Some(usize::MAX)),
        Err(failed(0))
    );
    // not in the list
    let others = vec![pid(1), pid(2), pid(3)];
    assert_eq!(
        read_contribution(&others, &all, &pid(0), &secrets, &SID, Some(size), Some(n_chunks)),
        Err(failed(0))
    );
}

#[test]
fn a_row_that_does_not_parse_fails_the_range_check() {
    let id = pid(2);
    let v = judge(&id, &vec![true, true], true, true, true);
    assert_eq!(v, Verdict { id, balance_ok: true, range_ok: true, signature_ok: true });
    let v = judge(&id, &vec![true, false], true, true, true);
    assert_eq!(v, Verdict { id, balance_ok: true, range_ok: false, signature_ok: true });
    let v = judge(&id, &vec![], true, true, true);
    assert_eq!(v, Verdict { id, balance_ok: true, range_ok: true, signature_ok: true });
    let v = judge(&id, &vec![true], false, true, false);
    assert_eq!(v, Verdict { id, balance_ok: false, range_ok: true, signature_ok: false });
    let v = judge(&id, &vec![true], true, false, true);
    assert_eq!(v, Verdict { id, balance_ok: true, range_ok: false, signature_ok: true });
}

#[test]
fn outputs_do_not_come_out_of_rows_that_are_not_there() {
    let rows = vec![vec![1u8, 2, 3, 4]; 10];
    let mine = vec![vec![1u8, 2, 3, 4]];
    assert!(came_out(&rows, 1, &mine, 4));
    assert!(!came_out(&rows, 2, &mine, 4));
    assert!(!came_out(&rows, usize::MAX, &mine, 4));
    assert!(!came_out(&rows, usize::MAX / 5, &mine, 4));
    assert!(!came_out(&rows, usize::MAX / 5 + 1, &mine, 4));
    assert!(came_out(&rows, usize::MAX, &Vec::new(), 4));
}

#[test]
fn rows_of_padding_are_no_outputs_whatever_is_told_of_them() {
    let rows = vec![vec![1u8, 0, 0], vec![0u8, 0, 0], vec![0u8, 0, 7], vec![9u8, 9, 9], vec![0u8; 3]];
    // told to be outputs, all of them: the rows of zeros still leave
    assert_eq!(
        select_parsed(&rows, &vec![true; 5]),
        vec![vec![1u8, 0, 0], vec![0u8, 0, 7], vec![9u8, 9, 9]]
    );
    // a row that is told to be no output leaves too
    assert_eq!(
        select_parsed(&rows, &vec![true, true, false, true, false]),
        vec![vec![1u8, 0, 0], vec![9u8, 9, 9]]
    );
    // a row of which nothing is told leaves
    assert_eq!(select_parsed(&rows, &vec![true, true]), vec![vec![1u8, 0, 0]]);
    assert_eq!(select_parsed(&rows, &vec![]), Vec::<Vec<u8>>::new());
}
