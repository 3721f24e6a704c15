use minimizer_iter::MinimizerBuilder;

fn gen_seq(len: usize) -> Vec<u8> {
    let mut state: u64 = 0xDA3E39CB94B95BDB;
    let mut seq = Vec::with_capacity(len);
    for _ in 0..len {
        state = state
            .wrapping_mul(6364136223846793005)
            .wrapping_add(1442695040888963407);
        seq.push(match (state >> 33) & 3 {
            0 => b'A',
            1 => b'C',
            2 => b'G',
            _ => b'T',
        });
    }
    seq
}

fn mod_minimizer_count(seq: &[u8], k: usize, w: u16) -> usize {
    let mut it = MinimizerBuilder::new_mod()
        .minimizer_size(k)
        .width(w)
        .iter_pos(seq);
    let mut n = 0;
    while it.next().is_some() {
        n += 1;
    }
    n
}

fn minimizer_count(seq: &[u8], k: usize, w: u16) -> usize {
    let mut it = MinimizerBuilder::new()
        .minimizer_size(k)
        .width(w)
        .iter_pos(seq);
    let mut n = 0;
    while it.next().is_some() {
        n += 1;
    }
    n
}

#[test]
fn test_mod_sampling_density_bound() {
    // for a fixed width, growing k must not push the sampled density
    // toward the classic worst case of 2 / (w + 1); it stays near 1 / w
    let len = 100_000;
    let seq = gen_seq(len);
    let w: u16 = 11;
    // about len / w = 9090 positions are the lower bound; the classic
    // scheme approaches 2 * len / (w + 1) = 16666 for large k
    let bound = 14_000;
    for &k in &[15usize, 26] {
        let n_mod = mod_minimizer_count(&seq, k, w);
        let n_classic = minimizer_count(&seq, k, w);
        assert!(n_mod > 0);
        assert!(n_mod <= bound, "density degraded for k = {}: {} records", k, n_mod);
        assert!(n_mod <= n_classic, "mod-sampling denser than classic for k = {}", k);
    }
}
