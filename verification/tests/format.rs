use unbytify::{bytify, unbytify, unit_multiplier, unit_suffix, UNIT_COUNT};

fn human(value: u64) -> (f64, &'static str) {
    let (thousandths, suffix) = bytify(value);
    (thousandths as f64 / 1000.0, suffix)
}

#[test]
fn test_bytify() {
    assert_eq!(human(0), (0.0, "B"));
    assert_eq!(human(1024), (1.0, "KiB"));
    assert_eq!(human(1025), (1.001, "KiB"));
    assert_eq!(human(1024u64.pow(2)), (1.0, "MiB"));
    assert_eq!(human(std::u64::MAX), (16.0, "EiB"));

    for idx in 0..UNIT_COUNT {
        let suffix = unit_suffix(idx);
        let val = 4;
        let expected = (val as f64, suffix);

        assert_eq!(human(val * unit_multiplier(idx)), expected);
    }
}

#[test]
fn test_rebytify() {
    for idx in 0..UNIT_COUNT {
        let val = 4;
        let formatted = (|(a, b)| format!("{} {}", a, b))(human(val * unit_multiplier(idx)));

        assert_eq!(unbytify(&formatted).unwrap(), val * unit_multiplier(idx));
    }
}

#[test]
fn thousandths_are_exact() {
    assert_eq!(bytify(0), (0, "B"));
    assert_eq!(bytify(1), (1000, "B"));
    assert_eq!(bytify(512), (512000, "B"));
    assert_eq!(bytify(1023), (1023000, "B"));
    assert_eq!(bytify(1024), (1000, "KiB"));
    assert_eq!(bytify(1025), (1001, "KiB"));
    assert_eq!(bytify(1536), (1500, "KiB"));
    assert_eq!(bytify(1024 * 1024 - 1), (1023999, "KiB"));
    assert_eq!(bytify(1024 * 1024), (1000, "MiB"));
    assert_eq!(bytify(u64::MAX), (16000, "EiB"));
}

#[test]
fn a_half_rounds_up() {
    // 128 bytes are 0.125 KiB exactly.
    assert_eq!(bytify(1024 + 128), (1125, "KiB"));
    // 64 bytes are 0.0625 KiB: 1062.5 thousandths round up.
    assert_eq!(bytify(1024 + 64), (1063, "KiB"));
    // 32 bytes are 0.03125 KiB: 1031.25 thousandths round down.
    assert_eq!(bytify(1024 + 32), (1031, "KiB"));
    assert_eq!(bytify(1024u64.pow(6) + 1024u64.pow(6) / 16), (1063, "EiB"));
}

#[test]
fn the_tier_is_the_largest_unit_within_the_count() {
    for idx in 0..UNIT_COUNT {
        let unit = unit_multiplier(idx);
        assert_eq!(bytify(unit), (1000, unit_suffix(idx)));
        if idx > 0 {
            assert_eq!(bytify(unit - 1).1, unit_suffix(idx - 1));
        }
        if idx + 1 < UNIT_COUNT {
            assert_eq!(bytify(unit * 1023).1, unit_suffix(idx));
        }
    }
    assert_eq!(bytify(1024u64.pow(6) - 1), (1024000, "PiB"));
}

#[test]
fn whole_multiples_come_back() {
    for idx in 0..UNIT_COUNT {
        let unit = unit_multiplier(idx);
        let top = if idx + 1 < UNIT_COUNT { 1023 } else { 15 };
        for n in [1u64, 2, 3, 10, 100, 999, top] {
            if n > top {
                continue;
            }
            let (thousandths, suffix) = bytify(n * unit);
            assert_eq!(thousandths, n * 1000);
            let text = format!("{} {}", thousandths / 1000, suffix);
            assert_eq!(unbytify(&text), Ok(n * unit), "{}", text);
            let dotted = format!("{}.{:03} {}", thousandths / 1000, thousandths % 1000, suffix);
            assert_eq!(unbytify(&dotted), Ok(n * unit), "{}", dotted);
        }
    }
}

#[test]
fn the_table_is_powers_of_1024() {
    let suffixes = ["B", "KiB", "MiB", "GiB", "TiB", "PiB", "EiB"];
    assert_eq!(UNIT_COUNT, 7);
    for idx in 0..UNIT_COUNT {
        assert_eq!(unit_multiplier(idx), 1024u64.pow(idx as u32));
        assert_eq!(unit_suffix(idx), suffixes[idx]);
        assert_eq!(
            unbytify::unit_letter(idx).to_string(),
            suffixes[idx][..1].to_lowercase()
        );
    }
}

fn with_floating_point(value: u64) -> (u64, &'static str) {
    let mut tier = 0;
    while tier + 1 < UNIT_COUNT && unit_multiplier(tier + 1) <= value {
        tier += 1;
    }
    let units = value as f64 / unit_multiplier(tier) as f64;
    ((units * 1000.0).round() as u64, unit_suffix(tier))
}

fn next(state: &mut u64) -> u64 {
    *state = state.wrapping_mul(6364136223846793005).wrapping_add(1442695040888963407);
    *state ^ (*state >> 29)
}

#[test]
fn thousandths_agree_with_floating_point() {
    let mut state: u64 = 0x853c49e6748fea9b;
    for _ in 0..200_000 {
        let value = next(&mut state) >> (next(&mut state) % 64);
        assert_eq!(bytify(value), with_floating_point(value), "{}", value);
    }
    for value in (0..100_000u64).chain(u64::MAX - 100_000..=u64::MAX) {
        assert_eq!(bytify(value), with_floating_point(value), "{}", value);
    }
}

#[test]
fn thousandths_near_a_half_agree_with_floating_point() {
    assert_eq!(bytify(94278174279467), (85746, "TiB"));
    assert_eq!(bytify(164435812224598), (149554, "TiB"));
    for tier in 1..UNIT_COUNT {
        let unit = unit_multiplier(tier) as u128;
        let top: u128 = if tier + 1 < UNIT_COUNT { 1_024_000 } else { 16_000 };
        let mut k: u128 = 1000;
        while k < top {
            let middle = (2 * k + 1) * unit / 2000;
            for value in middle.saturating_sub(3)..=middle + 3 {
                if value <= u64::MAX as u128 {
                    let value = value as u64;
                    assert_eq!(bytify(value), with_floating_point(value), "{}", value);
                }
            }
            k += 7;
        }
    }
}

#[test]
fn counts_beyond_fifty_three_bits_are_rounded_first() {
    // 2^60 - 1 is taken as 2^60, which is 1024 PiB.
    assert_eq!(bytify((1 << 60) - 1), (1_024_000, "PiB"));
    assert_eq!(bytify(u64::MAX - 1), (16_000, "EiB"));
    assert_eq!(bytify((1 << 53) + 1), (8_000, "PiB"));
}
