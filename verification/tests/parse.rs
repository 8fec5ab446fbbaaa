use unbytify::{unbytify, unit_multiplier, unit_suffix, ParseError, UNIT_COUNT};

#[test]
fn test_unbytify() {
    assert_eq!(unbytify("-1"), Err(ParseError::Invalid));
    assert_eq!(unbytify("- 1"), Err(ParseError::Invalid));
    assert_eq!(unbytify("-1.0"), Err(ParseError::Invalid));
    assert_eq!(unbytify("- 1.0"), Err(ParseError::Invalid));
    assert_eq!(unbytify("0"), Ok(0));
    assert_eq!(unbytify("0K"), Ok(0));
    assert_eq!(unbytify("16E"), Err(ParseError::Overflow));
    assert_eq!(unbytify("15.75E"), Ok(15 * 1024u64.pow(6) + 3 * (1024u64.pow(6) / 4)));

    assert_eq!(unbytify("1"), Ok(1));
    assert_eq!(unbytify("1.0"), Ok(1));
    assert_eq!(unbytify("1K"), Ok(1024));
    assert_eq!(unbytify(" 1 K "), Ok(1024));
    assert_eq!(unbytify("1.0K"), Ok(1024));
    assert_eq!(unbytify("1.5K"), Ok(1024 + 512));
    assert_eq!(unbytify("1.25K"), Ok(1024 + 256));
    assert_eq!(unbytify("1.2K"), Ok((1.2 * 1024.0) as u64));

    assert_eq!(unbytify("16.000001E"), Err(ParseError::Overflow));
    assert_eq!(unbytify("42E"), Err(ParseError::Overflow));
    assert_eq!(unbytify("1.5"), Err(ParseError::Invalid));
    assert_eq!(unbytify("1O"), Err(ParseError::Invalid));

    for idx in 0..UNIT_COUNT {
        let suffix = unit_suffix(idx);
        let val: u64 = 4;
        let expected = Ok(val * 2u64.pow(10 * idx as u32));

        assert_eq!(unbytify(&(val.to_string() + suffix)), expected);
        assert_eq!(unbytify(&(val.to_string() + &suffix[..1])), expected);
        assert_eq!(unbytify(&(val.to_string() + &suffix.to_lowercase())), expected);
        assert_eq!(unbytify(&(val.to_string() + &suffix[..1].to_lowercase())), expected);
    }
}

#[test]
fn every_spelling_of_every_unit() {
    for idx in 0..UNIT_COUNT {
        let letter = &unit_suffix(idx)[..1];
        let unit = unit_multiplier(idx);
        for n in [1u64, 7, 15, 1023] {
            let expected = n.checked_mul(unit).ok_or(ParseError::Overflow);
            for tail in ["", "b", "B", "ib", "iB", "Ib", "IB"] {
                let upper = format!("{}{}{}", n, letter, tail);
                let lower = format!("{}{}{}", n, letter.to_lowercase(), tail);
                let spaced = format!("  {} {}{}\t", n, letter, tail);
                assert_eq!(unbytify(&upper), expected, "{}", upper);
                assert_eq!(unbytify(&lower), expected, "{}", lower);
                assert_eq!(unbytify(&spaced), expected, "{}", spaced);
            }
        }
    }
}

#[test]
fn bare_integers_are_bytes() {
    assert_eq!(unbytify("1024"), Ok(1024));
    assert_eq!(unbytify("+7"), Ok(7));
    assert_eq!(unbytify("007"), Ok(7));
    assert_eq!(unbytify("18446744073709551615"), Ok(u64::MAX));
    assert_eq!(unbytify("18446744073709551616"), Err(ParseError::Overflow));
    assert_eq!(unbytify("99999999999999999999999999"), Err(ParseError::Overflow));
    assert_eq!(unbytify("0000000000000000000000000000001"), Ok(1));
}

#[test]
fn empty_and_blank_are_invalid() {
    assert_eq!(unbytify(""), Err(ParseError::Invalid));
    assert_eq!(unbytify("   "), Err(ParseError::Invalid));
    assert_eq!(unbytify("+"), Err(ParseError::Invalid));
    assert_eq!(unbytify("."), Err(ParseError::Invalid));
    assert_eq!(unbytify("k"), Err(ParseError::Invalid));
    assert_eq!(unbytify(".k"), Err(ParseError::Invalid));
    assert_eq!(unbytify("\u{e9}1k"), Err(ParseError::Invalid));
}

#[test]
fn negative_is_invalid_whatever_follows() {
    assert_eq!(unbytify("-"), Err(ParseError::Invalid));
    assert_eq!(unbytify("-0"), Err(ParseError::Invalid));
    assert_eq!(unbytify("  -1K"), Err(ParseError::Invalid));
    assert_eq!(unbytify("-junk"), Err(ParseError::Invalid));
    assert_eq!(unbytify("1-K"), Err(ParseError::Invalid));
    assert_eq!(unbytify("+-1K"), Err(ParseError::Invalid));
}

#[test]
fn malformed_suffix_is_invalid() {
    assert_eq!(unbytify("1kk"), Err(ParseError::Invalid));
    assert_eq!(unbytify("1ki"), Err(ParseError::Invalid));
    assert_eq!(unbytify("1kbb"), Err(ParseError::Invalid));
    assert_eq!(unbytify("1kibb"), Err(ParseError::Invalid));
    assert_eq!(unbytify("1k b"), Err(ParseError::Invalid));
    assert_eq!(unbytify("1kbk"), Err(ParseError::Invalid));
    assert_eq!(unbytify("1x"), Err(ParseError::Invalid));
    assert_eq!(unbytify("1 2k"), Err(ParseError::Invalid));
    assert_eq!(unbytify("0kx"), Err(ParseError::Invalid));
}

#[test]
fn the_byte_unit_takes_the_same_tails() {
    assert_eq!(unbytify("4b"), Ok(4));
    assert_eq!(unbytify("4B"), Ok(4));
    assert_eq!(unbytify("4bb"), Ok(4));
    assert_eq!(unbytify("4bib"), Ok(4));
    assert_eq!(unbytify("4.5b"), Ok(4));
    assert_eq!(unbytify("4bi"), Err(ParseError::Invalid));
}

#[test]
fn below_one_is_zero_with_a_unit() {
    assert_eq!(unbytify("0.5K"), Ok(0));
    assert_eq!(unbytify("0.999E"), Ok(0));
    assert_eq!(unbytify(".5M"), Ok(0));
    assert_eq!(unbytify("0.0"), Ok(0));
    assert_eq!(unbytify("0.5"), Err(ParseError::Invalid));
    assert_eq!(unbytify("0.000"), Ok(0));
    assert_eq!(unbytify("1e-5k"), Ok(0));
}

#[test]
fn fractions_round_down() {
    assert_eq!(unbytify("1.2K"), Ok(1228));
    assert_eq!(unbytify("1.9999K"), Ok(2047));
    assert_eq!(unbytify("1.0009765625K"), Ok(1025));
    assert_eq!(unbytify("1.0009765624K"), Ok(1024));
    assert_eq!(unbytify("2.5M"), Ok(2621440));
    assert_eq!(unbytify("1.000000001G"), Ok(1073741825));
    assert_eq!(unbytify("3.P"), Ok(3 * 1024u64.pow(5)));
    assert_eq!(unbytify("1.50000000000000000000000000000000000000000001K"), Ok(1536));
    assert_eq!(unbytify("1.49999999999999999999999999999999999999999999K"), Ok(1536));
    assert_eq!(unbytify("1.008P"), Ok(1134907106097365));
    assert_eq!(unbytify("1.1E"), Ok(1268213655067531776));
}

#[test]
fn numbers_have_fifty_three_bits() {
    // 2^53 + 1 lies between two such numbers and goes to the even one.
    assert_eq!(unbytify("9007199254740993"), Ok(9007199254740993));
    assert_eq!(unbytify("9007199254740993B"), Ok(9007199254740992));
    assert_eq!(unbytify("9007199254740993.0"), Ok(9007199254740992));
    assert_eq!(unbytify("9007199254740995B"), Ok(9007199254740996));
    assert_eq!(unbytify("9007199254740993.000000000000000000001B"), Ok(9007199254740994));
    assert_eq!(unbytify("9007199254740993K"), Ok(9223372036854775808));
    assert_eq!(unbytify("9007199254740992K"), Ok(9223372036854775808));
    assert_eq!(unbytify("9007199254740991K"), Ok(9007199254740991 * 1024));
    // 2^52 + 0.5 is a tie at the last bit.
    assert_eq!(unbytify("4503599627370496.5B"), Ok(4503599627370496));
    assert_eq!(unbytify("4503599627370497.5B"), Ok(4503599627370498));
    assert_eq!(unbytify("4503599627370496.5"), Ok(4503599627370496));
    assert_eq!(unbytify("4503599627370496.50000000000000000000000000001B"), Ok(4503599627370497));
    assert_eq!(unbytify("4503599627370495.5B"), Ok(4503599627370495));
    assert_eq!(unbytify("4503599627370495.5"), Err(ParseError::Invalid));
    // Just below one is one.
    assert_eq!(unbytify("0.99999999999999999K"), Ok(1024));
    assert_eq!(unbytify("0.99999999999999999"), Ok(1));
    assert_eq!(unbytify("0.9999999999999999K"), Ok(0));
    assert_eq!(unbytify("0.9999999999999999"), Err(ParseError::Invalid));
    // 1 - 2^-54 is the least that is taken as one.
    assert_eq!(
        unbytify("0.999999999999999944488848768742172978818416595458984375K"),
        Ok(1024)
    );
    assert_eq!(
        unbytify("0.999999999999999944488848768742172978818416595458984374K"),
        Ok(0)
    );
}

#[test]
fn overflow_is_told_from_the_largest_size() {
    assert_eq!(unbytify("15.999999999999999999E"), Err(ParseError::Overflow));
    assert_eq!(unbytify("15.99999999999999E"), Ok(18446744073709539328));
    assert_eq!(unbytify("16383P"), Ok(16383 * 1024u64.pow(5)));
    assert_eq!(unbytify("16384P"), Err(ParseError::Overflow));
    assert_eq!(unbytify("16.0E"), Err(ParseError::Overflow));
    assert_eq!(unbytify("17179869183.9G"), Ok(18446744073602177024));
    assert_eq!(unbytify("17179869184G"), Err(ParseError::Overflow));
    assert_eq!(unbytify("18446744073709551615.5B"), Err(ParseError::Overflow));
    assert_eq!(unbytify("18446744073709551615B"), Err(ParseError::Overflow));
    assert_eq!(unbytify("18446744073709550591B"), Ok(18446744073709549568));
    assert_eq!(unbytify("18446744073709550592B"), Err(ParseError::Overflow));
    assert_eq!(unbytify("18446744073709551616B"), Err(ParseError::Overflow));
    assert_eq!(unbytify("100000000000000000000000000000000000000K"), Err(ParseError::Overflow));
}

#[test]
fn powers_of_ten_shift_the_point() {
    assert_eq!(unbytify("1e3"), Ok(1000));
    assert_eq!(unbytify("1E3"), Ok(1000));
    assert_eq!(unbytify("1.5e1"), Ok(15));
    assert_eq!(unbytify("1.5e0"), Err(ParseError::Invalid));
    assert_eq!(unbytify("1.5e3k"), Ok(1500 * 1024));
    assert_eq!(unbytify("15e-1k"), Ok(1536));
    assert_eq!(unbytify("1e+2m"), Ok(100 * 1024 * 1024));
    assert_eq!(unbytify("1e19"), Ok(10_000_000_000_000_000_000));
    assert_eq!(unbytify("1e20"), Err(ParseError::Overflow));
    assert_eq!(unbytify("0e99999999999999999999999999999999999999"), Ok(0));
    assert_eq!(unbytify("1e99999999999999999999999999999999999999"), Err(ParseError::Overflow));
    assert_eq!(unbytify("1e-99999999999999999999999999999999999999k"), Ok(0));
    assert_eq!(unbytify("1e-99999999999999999999999999999999999999"), Err(ParseError::Invalid));
    assert_eq!(unbytify("123456e-3k"), Ok(126418));
    assert_eq!(unbytify("0.000123e6k"), Ok(123 * 1024));
}

#[test]
fn the_letter_e_is_a_unit_where_no_power_follows() {
    assert_eq!(unbytify("1e"), Ok(1024u64.pow(6)));
    assert_eq!(unbytify("1eb"), Ok(1024u64.pow(6)));
    assert_eq!(unbytify("1eib"), Ok(1024u64.pow(6)));
    assert_eq!(unbytify("1e3e"), Err(ParseError::Invalid));
    assert_eq!(unbytify("1e+"), Err(ParseError::Invalid));
    assert_eq!(unbytify("1e3b"), Ok(1000));
}

#[test]
fn whitespace_is_trimmed_outside_and_before_the_unit() {
    assert_eq!(unbytify(" 1 K "), unbytify("1K"));
    assert_eq!(unbytify("\t\n 12 MiB \r\n"), Ok(12 * 1024 * 1024));
    assert_eq!(unbytify("\u{a0}3\u{2003}g\u{3000}"), Ok(3 * 1024u64.pow(3)));
    assert_eq!(unbytify(" 42 "), Ok(42));
    assert_eq!(unbytify("4 2"), Err(ParseError::Invalid));
    assert_eq!(unbytify("1 .5k"), Err(ParseError::Invalid));
}

#[test]
fn white_space_is_what_std_calls_white_space() {
    for code in 0..=0x10ffffu32 {
        if let Some(c) = char::from_u32(code) {
            let text = format!("{}8{}", c, c);
            let expected = if c.is_whitespace() {
                Ok(8)
            } else if c == '+' {
                Err(ParseError::Invalid)
            } else if c.is_ascii_digit() {
                Ok(format!("{}8{}", c, c).parse::<u64>().unwrap())
            } else if c == '.' {
                Err(ParseError::Invalid)
            } else if "bkmgtpeBKMGTPE".contains(c) {
                Err(ParseError::Invalid)
            } else {
                Err(ParseError::Invalid)
            };
            assert_eq!(unbytify(&text), expected, "U+{:04X}", code);
        }
    }
}

#[test]
fn letters_fold_as_std_folds_them() {
    assert_eq!(unbytify("1\u{212a}"), Ok(1024));
    assert_eq!(unbytify("1\u{212a}iB"), Ok(1024));
    assert_eq!(unbytify("1KIB"), Ok(1024));
    assert_eq!(unbytify("1kIb"), Ok(1024));
    assert_eq!(unbytify("1k\u{130}b"), Err(ParseError::Invalid));
    for code in 0..=0x10ffffu32 {
        if let Some(c) = char::from_u32(code) {
            let lower: String = c.to_lowercase().collect();
            let tier = (0..UNIT_COUNT).find(|&t| lower == unbytify::unit_letter(t).to_string());
            let expected = if c.is_whitespace() || c == '.' {
                Ok(7)
            } else if let Some(t) = tier {
                Ok(7 * unit_multiplier(t))
            } else if let Some(d) = c.to_digit(10).filter(|_| c.is_ascii()) {
                Ok(70 + d as u64)
            } else {
                Err(ParseError::Invalid)
            };
            assert_eq!(unbytify(&format!("7{}", c)), expected, "U+{:04X}", code);
        }
    }
}

#[test]
fn names_of_no_number_are_invalid() {
    assert_eq!(unbytify("inf"), Err(ParseError::Invalid));
    assert_eq!(unbytify("infinity"), Err(ParseError::Invalid));
    assert_eq!(unbytify("nan"), Err(ParseError::Invalid));
    assert_eq!(unbytify("infk"), Err(ParseError::Invalid));
    assert_eq!(unbytify("0x10"), Err(ParseError::Invalid));
    assert_eq!(unbytify("1_000"), Err(ParseError::Invalid));
    assert_eq!(unbytify("1,5k"), Err(ParseError::Invalid));
}

#[test]
fn a_minus_after_white_space_is_invalid() {
    for lead in ["", " ", "\t \n", "\u{2003}"] {
        for rest in ["", "1", "1k", " 1 K", "-", "0.0b", "e"] {
            let text = format!("{}-{}", lead, rest);
            assert_eq!(unbytify(&text), Err(ParseError::Invalid), "{:?}", text);
        }
    }
}

#[test]
fn outer_white_space_changes_nothing() {
    let texts = ["1K", "1.5 mib", "", "junk", "12", "-3", "1e", "0.2", "99999999E", "7 b"];
    for text in texts {
        for lead in ["", " ", "\r\n\t", "\u{a0}\u{2028}"] {
            for trail in ["", "  ", "\n", "\u{3000}"] {
                let padded = format!("{}{}{}", lead, text, trail);
                assert_eq!(unbytify(&padded), unbytify(text), "{:?}", padded);
            }
        }
    }
}

#[test]
fn short_numbers_agree_with_floating_point() {
    for tier in 0..UNIT_COUNT - 1 {
        let letter = unbytify::unit_letter(tier);
        let unit = unit_multiplier(tier) as f64;
        for thousandths in (0u64..=4_000).chain([10_240, 123_456, 999_999, 1_023_999]) {
            let text = format!("{}.{:03}{}", thousandths / 1000, thousandths % 1000, letter);
            let number: f64 = format!("{}.{:03}", thousandths / 1000, thousandths % 1000)
                .parse()
                .unwrap();
            let expected = if number < 1.0 { 0 } else { (number * unit).floor() as u64 };
            assert_eq!(unbytify(&text), Ok(expected), "{}", text);
        }
    }
}

fn with_floating_point(number: &str, tier: usize, with_unit: bool) -> Result<u64, ParseError> {
    let value: f64 = number.parse().unwrap();
    if !with_unit && value.fract() != 0.0 {
        return Err(ParseError::Invalid);
    }
    if value < 1.0 {
        return Ok(0);
    }
    let product = value * unit_multiplier(tier) as f64;
    if product >= 18446744073709551616.0 {
        Err(ParseError::Overflow)
    } else {
        Ok(product.floor() as u64)
    }
}

fn next(state: &mut u64) -> u64 {
    *state = state.wrapping_mul(6364136223846793005).wrapping_add(1442695040888963407);
    *state >> 33
}

#[test]
fn numbers_agree_with_floating_point() {
    let mut state: u64 = 0x2545f4914f6cdd1d;
    for round in 0..20_000 {
        let whole_digits = next(&mut state) % 22;
        let fraction_digits = next(&mut state) % 25;
        let mut number = String::new();
        for _ in 0..whole_digits {
            number.push(char::from(b'0' + (next(&mut state) % 10) as u8));
        }
        if fraction_digits > 0 || whole_digits == 0 {
            number.push('.');
            for _ in 0..fraction_digits.max(1) {
                number.push(char::from(b'0' + (next(&mut state) % 10) as u8));
            }
        }
        if round % 3 == 0 {
            let power = next(&mut state) % 41;
            number.push_str(&format!("e{}", power as i64 - 20));
        }
        let tier = (next(&mut state) % UNIT_COUNT as u64) as usize;
        let letter = unbytify::unit_letter(tier);
        if letter != 'e' || !number.contains('e') {
            let text = format!("{}{}", number, letter);
            assert_eq!(unbytify(&text), with_floating_point(&number, tier, true), "{}", text);
        }
        let bare: Result<u64, _> = number.parse::<u64>();
        if bare.is_err() {
            assert_eq!(unbytify(&number), with_floating_point(&number, 0, false), "{}", number);
        }
    }
}

#[test]
fn numbers_near_a_tie_agree_with_floating_point() {
    let mut state: u64 = 0x9e3779b97f4a7c15;
    for _ in 0..20_000 {
        // A number of fifty-four bits has its last bit just behind the fifty-third.
        let bits = (1u64 << 53) | (next(&mut state) << 22) | (next(&mut state) & 0x3f_ffff) | 1;
        let down = next(&mut state) % 32;
        let exact = format!("{}", bits as u128 * 5u128.pow(down as u32));
        let point = exact.len() as i64 - down as i64;
        let digits = if point <= 0 {
            format!("0.{}{}", "0".repeat((-point) as usize), exact)
        } else {
            format!("{}.{}", &exact[..point as usize], &exact[point as usize..])
        };
        for tail in ["", "0", "1", "000000000000000000000000000001"] {
            let number = format!("{}{}", digits, tail);
            let tier = (next(&mut state) % UNIT_COUNT as u64) as usize;
            let text = format!("{}{}", number, unbytify::unit_letter(tier));
            assert_eq!(unbytify(&text), with_floating_point(&number, tier, true), "{}", text);
        }
        let above = format!("{}", bits as u128 * 5u128.pow(down as u32) - 1);
        let point = above.len() as i64 - down as i64;
        if point > 0 {
            let number = format!("{}.{}9", &above[..point as usize], &above[point as usize..]);
            let text = format!("{}b", number);
            assert_eq!(unbytify(&text), with_floating_point(&number, 0, true), "{}", text);
        }
    }
}
