use duet::rustsync::{compare, restore, signature, Block};
use rand::Rng;

const WINDOW: usize = 32;

#[test]
fn basic() {
    for index in 0..10 {
        let source: Vec<u8> = rand::thread_rng()
            .sample_iter(&rand::distributions::Alphanumeric)
            .take(WINDOW * 10 + 8)
            .collect();
        let mut modified = source.clone();
        let index = WINDOW * index + 3;
        modified[index] = ((source[index] as usize + 1) & 255) as u8;
        let source_sig = signature(&source, WINDOW);
        let comp = compare(&source_sig, &modified);

        let restored = restore(&source, &comp);
        if &restored[..] != &modified[..] {
            for i in 0..10 {
                let a = &restored[i * WINDOW..(i + 1) * WINDOW];
                let b = &modified[i * WINDOW..(i + 1) * WINDOW];
                println!("{:?}\n{:?}\n", a, b);
                if a != b {
                    println!(">>>>>>>>");
                }
            }
            panic!("different");
        }
    }
}

#[test]
fn delta_round_trip_large() {
    // a 10000-byte source, 1024-byte windows, three bytes changed
    let src: Vec<u8> = (0..10000u64).map(|i| ((i * 31 + 7) % 251) as u8).collect();
    let mut tgt = src.clone();
    for &off in &[50usize, 5000, 9500] {
        tgt[off] = tgt[off].wrapping_add(1);
    }
    let sig = signature(&src, 1024);
    let delta = compare(&sig, &tgt);
    let restored = restore(&src, &delta);
    assert_eq!(restored, tgt);
    let literals = delta
        .blocks
        .iter()
        .filter(|b| matches!(b, Block::Literal(_)))
        .count();
    let copies = delta
        .blocks
        .iter()
        .filter(|b| matches!(b, Block::FromSource(_)))
        .count();
    assert!(literals >= 1);
    assert!(copies >= 1);
}

#[test]
fn delta_identical_files_is_all_copies() {
    let src: Vec<u8> = (0..4096u64).map(|i| (i % 253) as u8).collect();
    let sig = signature(&src, 1024);
    let delta = compare(&sig, &src);
    assert!(delta
        .blocks
        .iter()
        .all(|b| matches!(b, Block::FromSource(_))));
    assert_eq!(restore(&src, &delta), src);
}

#[test]
fn delta_against_unrelated_file() {
    let src: Vec<u8> = vec![1; 2000];
    let tgt: Vec<u8> = vec![2; 1500];
    let sig = signature(&src, 1024);
    let delta = compare(&sig, &tgt);
    assert_eq!(restore(&src, &delta), tgt);
}

#[test]
fn signature_records_every_window() {
    let src: Vec<u8> = (0..100u64).map(|i| i as u8).collect();
    let sig = signature(&src, 32);
    // three whole windows and a short tail of four bytes
    assert_eq!(sig.window, 32);
    assert_eq!(sig.chunks.len(), 4);
    let offsets: Vec<usize> = sig.chunks.iter().map(|c| c.offset).collect();
    assert_eq!(offsets, vec![0, 32, 64, 96]);
}

#[test]
fn signature_of_empty_source() {
    let src: Vec<u8> = Vec::new();
    let sig = signature(&src, 32);
    assert_eq!(sig.chunks.len(), 1);
    // the Adler-32 checksum of no bytes is 1
    assert_eq!(sig.chunks[0].weak, 1);
}

#[test]
fn strong_hash_is_a_digest_not_the_bytes() {
    let src: Vec<u8> = vec![0; 32];
    let sig = signature(&src, 32);
    // BLAKE2b-32 output is 32 bytes and differs from the (all-zero) input
    assert_eq!(sig.chunks[0].strong.len(), 32);
    assert_ne!(sig.chunks[0].strong, src);
}
