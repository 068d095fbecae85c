use omr_core::lut::{first_level_lut, negacyclic_lut, second_level_lut};

#[test]
fn negacyclic_lut_interleaves_the_table() {
    let table: Vec<u64> = vec![1, 2, 3];
    let lut = negacyclic_lut(&table, 8, 2);
    assert_eq!(lut, vec![1, 1, 2, 2, 2, 2, 3, 3]);
}

#[test]
fn negacyclic_lut_pads_past_the_table() {
    let table: Vec<u64> = vec![9];
    let lut = negacyclic_lut(&table, 8, 2);
    assert_eq!(lut, vec![9, 9, 0, 0, 0, 0, 0, 0]);
}

#[test]
fn first_level_lut_is_a_band_detector() {
    let q: u64 = 134215681;
    let lut = first_level_lut(1024, 8, 256, q);
    assert_eq!(lut.len(), 1024);
    let scale = 524280u64;
    for m in 0..128 {
        assert_eq!(lut[m], scale);
    }
    for m in 128..896 {
        assert_eq!(lut[m], 0);
    }
    for m in 896..1024 {
        assert_eq!(lut[m], q - scale);
    }
}

#[test]
fn second_level_lut_spikes_at_twice_the_clue_count() {
    let q: u64 = 1125899906826241;
    let lut = second_level_lut(2048, 7, 32, 256, q);
    assert_eq!(lut.len(), 2048);
    let scale = 4398046511040u64;
    for m in 0..2048 {
        if (1728..1856).contains(&m) {
            assert_eq!(lut[m], scale);
        } else {
            assert_eq!(lut[m], 0);
        }
    }
}

#[test]
fn second_level_lut_depends_on_the_clue_count() {
    let q: u64 = 1125899906826241;
    let lut7 = second_level_lut(2048, 7, 32, 256, q);
    let lut6 = second_level_lut(2048, 6, 32, 256, q);
    assert_ne!(lut7, lut6);
}
