use minimizer_iter::{KeyOrder, MinimizerBuilder};

fn gen_seq(len: usize) -> Vec<u8> {
    let mut state: u64 = 0x853C49E6748FEA9B;
    let mut seq = Vec::with_capacity(len);
    for _ in 0..len {
        state = state
            .wrapping_mul(6364136223846793005)
            .wrapping_add(1442695040888963407);
        seq.push(match (state >> 33) & 3 {
            0 => b'A',
            1 => b'C',
            2 => b'G',
            _ => b'T',
        });
    }
    seq
}

fn rc(seq: &[u8]) -> Vec<u8> {
    seq.iter()
        .rev()
        .map(|&b| match b {
            b'A' => b'T',
            b'a' => b't',
            b'T' => b'A',
            b't' => b'a',
            b'C' => b'G',
            b'c' => b'g',
            b'G' => b'C',
            b'g' => b'c',
            b => b,
        })
        .collect()
}

#[test]
fn test_canonical_minimizer_iter() {
    let seq_len = 1_000_000;
    let seq = &gen_seq(seq_len);
    let seq_rc = &rc(seq);
    let minimizer_size = 21;
    let width = 11;

    let mut mins: Vec<u64> = Vec::new();
    let mut it = MinimizerBuilder::new()
        .canonical()
        .minimizer_size(minimizer_size)
        .width(width)
        .iter(seq);
    while let Some((min, _, _)) = it.next() {
        mins.push(min);
    }
    let mut mins_rc: Vec<u64> = Vec::new();
    let mut it = MinimizerBuilder::new()
        .canonical()
        .minimizer_size(minimizer_size)
        .width(width)
        .iter(seq_rc);
    while let Some((min, _, _)) = it.next() {
        mins_rc.push(min);
    }
    mins_rc.reverse();

    assert_eq!(mins, mins_rc);
}

#[test]
fn test_canonical_minimizer_iter_pos() {
    let seq_len = 1_000_000;
    let seq = &gen_seq(seq_len);
    let seq_rc = &rc(seq);
    let minimizer_size = 21;
    let width = 11;

    let mut mins: Vec<usize> = Vec::new();
    let mut it = MinimizerBuilder::new()
        .canonical()
        .minimizer_size(minimizer_size)
        .width(width)
        .iter_pos(seq);
    while let Some((pos, _)) = it.next() {
        mins.push(pos);
    }
    let mut mins_rc: Vec<usize> = Vec::new();
    let mut it = MinimizerBuilder::new()
        .canonical()
        .minimizer_size(minimizer_size)
        .width(width)
        .iter_pos(seq_rc);
    while let Some((pos, _)) = it.next() {
        mins_rc.push(seq_len - pos - minimizer_size);
    }
    mins_rc.reverse();

    assert_eq!(mins, mins_rc);
}

#[test]
fn test_canonical_mod_minimizer_iter() {
    let seq_len = 1_000_000;
    let seq = &gen_seq(seq_len);
    let seq_rc = &rc(seq);
    let minimizer_size = 21;
    let width = 11;

    let mut mins: Vec<u64> = Vec::new();
    let mut it = MinimizerBuilder::new_mod()
        .canonical()
        .minimizer_size(minimizer_size)
        .width(width)
        .iter(seq);
    while let Some((min, _, _)) = it.next() {
        mins.push(min);
    }
    let mut mins_rc: Vec<u64> = Vec::new();
    let mut it = MinimizerBuilder::new_mod()
        .canonical()
        .minimizer_size(minimizer_size)
        .width(width)
        .iter(seq_rc);
    while let Some((min, _, _)) = it.next() {
        mins_rc.push(min);
    }
    mins_rc.reverse();

    assert_eq!(mins, mins_rc);
}

#[test]
fn test_canonical_mod_minimizer_iter_pos() {
    let seq_len = 1_000_000;
    let seq = &gen_seq(seq_len);
    let seq_rc = &rc(seq);
    let minimizer_size = 21;
    let width = 11;

    let mut mins: Vec<usize> = Vec::new();
    let mut it = MinimizerBuilder::new_mod()
        .canonical()
        .minimizer_size(minimizer_size)
        .width(width)
        .iter_pos(seq);
    while let Some((pos, _)) = it.next() {
        mins.push(pos);
    }
    let mut mins_rc: Vec<usize> = Vec::new();
    let mut it = MinimizerBuilder::new_mod()
        .canonical()
        .minimizer_size(minimizer_size)
        .width(width)
        .iter_pos(seq_rc);
    while let Some((pos, _)) = it.next() {
        mins_rc.push(seq_len - pos - minimizer_size);
    }
    mins_rc.reverse();

    assert_eq!(mins, mins_rc);
}

#[test]
fn test_repetitive_minimizer_iter_pos() {
    const SEQ_LEN: usize = 100;
    let seq = &[b'A'; SEQ_LEN];
    let seq_rc = &rc(seq);
    let minimizer_size = 21;
    let width = 11;

    let mut mins: Vec<usize> = Vec::new();
    let mut it = MinimizerBuilder::new()
        .canonical()
        .minimizer_size(minimizer_size)
        .width(width)
        .iter_pos(seq);
    while let Some((pos, _)) = it.next() {
        mins.push(pos);
    }
    let mut mins_rc: Vec<usize> = Vec::new();
    let mut it = MinimizerBuilder::new()
        .canonical()
        .minimizer_size(minimizer_size)
        .width(width)
        .iter_pos(seq_rc);
    while let Some((pos, _)) = it.next() {
        mins_rc.push(SEQ_LEN - pos - minimizer_size);
    }
    mins_rc.reverse();

    assert_eq!(mins, mins_rc);
}

#[test]
fn test_repetitive_2_minimizer_iter_pos() {
    const SEQ_LEN: usize = 100;
    let seq = &mut [b'A'; SEQ_LEN];
    for i in (1..SEQ_LEN).step_by(2) {
        seq[i] = b'G';
    }
    let seq_rc = &rc(seq);
    let minimizer_size = 21;
    let width = 11;

    let mut mins: Vec<usize> = Vec::new();
    let mut it = MinimizerBuilder::new()
        .canonical()
        .minimizer_size(minimizer_size)
        .width(width)
        .iter_pos(&seq[..]);
    while let Some((pos, _)) = it.next() {
        mins.push(pos);
    }
    let mut mins_rc: Vec<usize> = Vec::new();
    let mut it = MinimizerBuilder::new()
        .canonical()
        .minimizer_size(minimizer_size)
        .width(width)
        .iter_pos(seq_rc);
    while let Some((pos, _)) = it.next() {
        mins_rc.push(SEQ_LEN - pos - minimizer_size);
    }
    mins_rc.reverse();

    assert_eq!(mins, mins_rc);
}

#[test]
fn test_tie_break_deterministic() {
    // heavy ties: identical runs must select identical positions
    let seq = &[b'A'; 200];
    let mut first: Vec<(usize, bool)> = Vec::new();
    let mut it = MinimizerBuilder::new()
        .canonical()
        .minimizer_size(21)
        .width(11)
        .iter_pos(seq);
    while let Some(rec) = it.next() {
        first.push(rec);
    }
    let mut second: Vec<(usize, bool)> = Vec::new();
    let mut it = MinimizerBuilder::new()
        .canonical()
        .minimizer_size(21)
        .width(11)
        .iter_pos(seq);
    while let Some(rec) = it.next() {
        second.push(rec);
    }
    assert!(!first.is_empty());
    assert_eq!(first, second);
}

#[test]
fn test_tie_break_all_a() {
    // all-A sequence under the identity order: every window is fully
    // tied; the walk stops at position 1 of each window
    let seq = b"AAAAAAA";
    let mut recs: Vec<(u64, usize, bool)> = Vec::new();
    let mut it = MinimizerBuilder::new()
        .canonical()
        .minimizer_size(3)
        .width(3)
        .hasher(KeyOrder::Lex)
        .iter(seq);
    while let Some(rec) = it.next() {
        recs.push(rec);
    }
    assert_eq!(recs, vec![(0, 1, false), (0, 2, false), (0, 3, false)]);
}
