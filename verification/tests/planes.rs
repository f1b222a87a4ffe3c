use quip_miner_cpu::planes::{le_constant, MAX_DEGREE};

const LANES: usize = 64;
const PLANES: usize = 6;

#[test]
fn le_constant_matches_integer_comparison() {
    // Plant a known count in every lane and check the mask.
    for limit in 0..=MAX_DEGREE {
        let mut planes = [0u64; PLANES];
        for (lane, count) in (0..LANES).map(|l| (l, l % (MAX_DEGREE + 1))) {
            for (k, plane) in planes.iter_mut().enumerate() {
                *plane |= (((count >> k) & 1) as u64) << lane;
            }
        }
        let mask = le_constant(&planes, limit);
        for lane in 0..LANES {
            let count = lane % (MAX_DEGREE + 1);
            assert_eq!(
                (mask >> lane) & 1 == 1,
                count <= limit,
                "lane {lane} count {count} limit {limit}"
            );
        }
    }
}

#[test]
fn a_limit_past_every_count_selects_every_lane() {
    assert_eq!(le_constant(&[0; PLANES], usize::MAX), u64::MAX);
    let mut full = [0u64; PLANES];
    for (k, plane) in full.iter_mut().enumerate() {
        *plane = if (MAX_DEGREE >> k) & 1 == 1 { u64::MAX } else { 0 };
    }
    assert_eq!(le_constant(&full, MAX_DEGREE), u64::MAX);
    assert_eq!(le_constant(&full, MAX_DEGREE - 1), 0);
}
