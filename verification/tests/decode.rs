//! The decoder on recorded and constructed pulse streams.

use rfbutton::pulse::{estimate_unit, symbol};
use rfbutton::{decode, round_div, Code, Error, BREAK_PULSE_LENGTH};

/// The pulses of a packet that carries `bits`, the first bit first, sent
/// with a short unit of `unit` microseconds.
fn packet(bits: &[bool], unit: u16) -> Vec<u16> {
    let mut pulses = Vec::new();
    for &bit in bits {
        if bit {
            pulses.push(3 * unit);
            pulses.push(unit);
        } else {
            pulses.push(unit);
            pulses.push(3 * unit);
        }
    }
    pulses
}

/// The first `count` bits of a fixed pattern without a period of 32.
fn pattern(count: usize) -> Vec<bool> {
    (0..count).map(|i| i % 3 == 0 || i % 7 == 2).collect()
}

/// The last 32 bits of `bits` as a number, the first bit most significant.
fn low_bits(bits: &[bool]) -> u32 {
    let mut value: u64 = 0;
    for &bit in bits {
        value = (value << 1 | u64::from(bit)) & 0xffff_ffff;
    }
    value as u32
}

#[test]
fn decode_no_start() {
    assert_eq!(decode(&[]), Err(Error::NoStart));
}

#[test]
fn decode_short() {
    assert_eq!(
        decode(&[300, 10000, 1000, 333, 1000, 333, 333, 1000, 1000, 333]),
        Ok(Code {
            value: 0b1101,
            length: 4
        })
    );
}

#[test]
fn decode_short_repeated() {
    assert_eq!(
        decode(&[
            300, 10000, 1000, 333, 1000, 333, 333, 1000, 1000, 333, 333, 10000, 1000, 333
        ]),
        Ok(Code {
            value: 0b1101,
            length: 4
        })
    );
}

#[test]
fn decode_full() {
    let decoded = decode(&[
        320, 10060, 320, 960, 960, 300, 300, 960, 320, 960, 960, 300, 300, 960, 300, 980, 300,
        960, 960, 300, 320, 960, 960, 300, 960, 320, 300, 960, 300, 960, 960, 320, 300, 960,
        960, 320, 300, 960, 960, 320, 300, 960, 300, 960, 980, 300, 300, 960, 320, 960, 300,
        10080, 320, 960, 960, 320, 300, 960, 300, 960, 980, 300, 300, 960, 320, 960, 300, 960,
        960, 320, 300, 960, 960, 320, 960, 300, 300, 960, 320, 960, 960, 300, 320, 960, 960,
        300, 320, 960, 960, 300, 320, 960, 300, 960, 960, 320, 300, 960, 320, 960, 300, 10080,
        320, 960, 960, 320, 300, 960, 300, 960, 960, 320, 300, 960, 320, 960, 300, 960, 960,
        320, 300, 960, 960, 320, 960, 300, 320, 960, 300, 960, 960, 320, 300, 960, 960, 320,
        300, 960, 960, 320, 300, 960, 300, 960, 980, 300, 300, 960, 320, 960, 300, 10100, 300,
        980, 960, 300, 300, 960, 320, 960, 960, 300, 320, 960, 300, 960, 300, 980, 960, 300,
        320, 960, 960, 300, 960, 320, 300, 960, 320, 960, 960, 300, 320, 960, 960, 300, 320,
        960, 960, 300, 320, 960, 300, 960, 960, 320, 300, 960, 300, 960, 320, 10100, 300, 960,
        960, 320, 300, 960, 320, 940, 980, 300, 300, 980, 300, 960, 300, 960, 980, 300, 300,
        960, 960, 320, 960, 320, 300, 960, 300, 960, 980, 300, 300, 960, 960, 320, 300, 960,
        980, 300, 300, 960, 320, 960, 960, 300, 320, 960, 300, 960, 320, 10080, 320, 960, 960,
        300, 320, 960, 300, 960, 960, 320, 300, 960, 320, 960, 300, 960, 960, 320, 300, 960,
        960, 320, 960, 300, 320, 960, 300, 960, 960, 320, 300, 960, 960, 320, 300, 960, 960,
        320, 300, 960, 320, 960, 960, 300, 320, 960, 300,
    ]);
    assert_eq!(
        decoded,
        Ok(Code {
            value: 0x48b2a4,
            length: 24
        })
    );
}

#[test]
fn decode_equal_mark_and_space_is_invalid() {
    assert_eq!(
        decode(&[5000, 500, 500, 500, 500]),
        Err(Error::InvalidPulseLength(500, 500))
    );
}

#[test]
fn decode_without_break_has_no_start() {
    assert_eq!(decode(&[3000]), Err(Error::NoStart));
    assert_eq!(decode(&[1000, 333, 1000, 333, 333, 1000]), Err(Error::NoStart));
    assert_eq!(decode(&[0, 3000, 2999, 3000, 1, 3000]), Err(Error::NoStart));
    assert_eq!(decode(&vec![3000; 1000]), Err(Error::NoStart));
}

#[test]
fn decode_break_is_strictly_longer_than_threshold() {
    assert_eq!(BREAK_PULSE_LENGTH, 3000);
    assert_eq!(decode(&[3000, 900, 300, 900, 300]), Err(Error::NoStart));
    assert_eq!(
        decode(&[3001, 900, 300, 900, 300]),
        Ok(Code {
            value: 0b11,
            length: 2
        })
    );
}

#[test]
fn decode_too_few_after_break_is_too_short() {
    assert_eq!(decode(&[3001]), Err(Error::TooShort));
    assert_eq!(decode(&[300, 10000]), Err(Error::TooShort));
    assert_eq!(decode(&[300, 10000, 1000]), Err(Error::TooShort));
    assert_eq!(decode(&[300, 10000, 1000, 333]), Err(Error::TooShort));
    assert_eq!(decode(&[300, 10000, 1000, 333, 1000]), Err(Error::TooShort));
    assert_eq!(
        decode(&[300, 10000, 1000, 333, 1000, 333]),
        Ok(Code {
            value: 0b11,
            length: 2
        })
    );
}

#[test]
fn decode_counts_from_the_first_break() {
    // Only three intervals follow the second break, but seven follow the first.
    assert_eq!(
        decode(&[10000, 900, 300, 300, 900, 10000, 900, 300, 900]),
        Ok(Code {
            value: 0b10,
            length: 2
        })
    );
}

#[test]
fn decode_never_reads_the_first_interval_as_a_symbol() {
    let tail = [10000, 300, 900, 900, 300, 300, 900];
    for first in [0, 1, 300, 900, 3000] {
        let mut pulses = vec![first];
        pulses.extend_from_slice(&tail);
        assert_eq!(
            decode(&pulses),
            Ok(Code {
                value: 0b010,
                length: 3
            })
        );
    }
}

#[test]
fn decode_estimates_unit_from_first_four_intervals_only() {
    // The first four intervals give a unit of 100; the pair after them is a
    // symbol in that unit, and would not be one in the unit of the whole.
    assert_eq!(
        decode(&[5000, 100, 300, 300, 100, 349, 149]),
        Ok(Code {
            value: 0b011,
            length: 3
        })
    );
    assert_eq!(
        decode(&[5000, 100, 300, 300, 100, 350, 149]),
        Err(Error::InvalidPulseLength(350, 149))
    );
}

#[test]
fn decode_sums_the_first_four_intervals_without_overflow() {
    // The four intervals add up to 120000, far beyond sixteen bits.
    assert_eq!(estimate_unit(&[45000, 15000, 15000, 45000], 0), 15000);
    assert_eq!(estimate_unit(&[65535, 65535, 65535, 65535], 0), 32767);
    assert_eq!(
        decode(&[4000, 45000, 15000, 15000, 45000]),
        Ok(Code {
            value: 0b10,
            length: 2
        })
    );
}

#[test]
fn decode_break_before_any_symbol_gives_empty_code() {
    assert_eq!(
        decode(&[5000, 5000, 5000, 5000, 5000]),
        Ok(Code {
            value: 0,
            length: 0
        })
    );
    assert_eq!(
        decode(&[10000, 300, 10000, 300, 900]),
        Ok(Code {
            value: 0,
            length: 0
        })
    );
}

#[test]
fn decode_break_in_either_half_ends_the_packet() {
    assert_eq!(
        decode(&[10000, 900, 300, 300, 900, 10000, 300]),
        Ok(Code {
            value: 0b10,
            length: 2
        })
    );
    assert_eq!(
        decode(&[10000, 900, 300, 300, 900, 300, 10000]),
        Ok(Code {
            value: 0b10,
            length: 2
        })
    );
}

#[test]
fn decode_drops_a_last_mark_without_space() {
    assert_eq!(
        decode(&[10000, 900, 300, 300, 900, 2000]),
        Ok(Code {
            value: 0b10,
            length: 2
        })
    );
}

#[test]
fn decode_zero_unit_fails_on_the_first_pair() {
    assert_eq!(
        decode(&[5000, 1, 2, 3, 1]),
        Err(Error::InvalidPulseLength(1, 2))
    );
    assert_eq!(
        decode(&[5000, 0, 0, 0, 0, 900, 300]),
        Err(Error::InvalidPulseLength(0, 0))
    );
}

#[test]
fn decode_reports_the_offending_pair() {
    assert_eq!(
        decode(&[10000, 900, 300, 300, 900, 600, 600, 900, 300]),
        Err(Error::InvalidPulseLength(600, 600))
    );
    // Two units are neither one nor three.
    assert_eq!(
        decode(&[10000, 900, 300, 300, 900, 900, 600]),
        Err(Error::InvalidPulseLength(900, 600))
    );
}

#[test]
fn decode_accepts_half_a_unit_of_drift() {
    // With a unit of 300, one unit is 150..=449 and three are 750..=1049.
    for (high, low) in [(750, 150), (1049, 449), (750, 449), (1049, 150)] {
        assert_eq!(
            decode(&[10000, 900, 300, 300, 900, high, low]),
            Ok(Code {
                value: 0b101,
                length: 3
            })
        );
    }
    for (high, low) in [(749, 300), (1050, 300), (900, 149), (900, 450)] {
        assert_eq!(
            decode(&[10000, 900, 300, 300, 900, high, low]),
            Err(Error::InvalidPulseLength(high, low))
        );
    }
}

#[test]
fn decode_reads_the_bits_of_a_packet_as_sent() {
    for unit in [1u16, 2, 7, 100, 320, 333, 1000, 16000] {
        for count in [2usize, 3, 8, 24, 31, 32] {
            let bits = pattern(count);
            let mut pulses = vec![100, 3000, 5];
            pulses.push(3001);
            pulses.extend(packet(&bits, unit));
            pulses.push(3001.max(4 * unit));
            pulses.extend_from_slice(&[600, 600, 1, 2, 3]);
            assert_eq!(
                decode(&pulses),
                Ok(Code {
                    value: low_bits(&bits),
                    length: count as u8
                }),
                "unit {} count {}",
                unit,
                count
            );
        }
    }
}

#[test]
fn decode_32_bits_fill_the_value() {
    let bits = vec![true; 32];
    let mut pulses = vec![10000];
    pulses.extend(packet(&bits, 320));
    pulses.push(10000);
    assert_eq!(
        decode(&pulses),
        Ok(Code {
            value: 0xffff_ffff,
            length: 32
        })
    );
}

#[test]
fn decode_holds_the_last_32_bits_of_a_longer_packet() {
    for count in [33usize, 40, 64, 255, 256, 257, 300, 1000] {
        let bits = pattern(count);
        let mut pulses = vec![10000];
        pulses.extend(packet(&bits, 320));
        pulses.push(10000);
        assert_eq!(
            decode(&pulses),
            Ok(Code {
                value: low_bits(&bits),
                length: 32
            }),
            "count {}",
            count
        );
        assert_eq!(low_bits(&bits), low_bits(&bits[count - 32..]));
    }
    assert_ne!(low_bits(&pattern(40)), low_bits(&pattern(40)[..32]));
}

#[test]
fn decode_never_gives_more_than_32_bits_nor_a_bit_above_the_length() {
    for count in 0..=70usize {
        let bits = pattern(count);
        let mut pulses = vec![10000, 960, 320, 320, 960];
        pulses.extend(packet(&bits, 320));
        let code = decode(&pulses).expect("a packet of symbols");
        assert_eq!(usize::from(code.length), (count + 2).min(32));
        assert!(code.length == 32 || code.value >> code.length == 0);
    }
}

#[test]
fn decode_reads_a_long_packet_to_its_end() {
    let mut pulses = vec![10000];
    pulses.extend(packet(&pattern(40), 320));
    pulses.extend_from_slice(&[600, 600]);
    assert_eq!(decode(&pulses), Err(Error::InvalidPulseLength(600, 600)));
}

#[test]
fn decode_is_the_same_at_every_scale() {
    // The first four intervals after the break add up to a multiple of
    // eight, so that the unit scales exactly.
    let pulses = [100, 4000, 96, 304, 296, 104, 110, 290, 305, 95, 4000, 100];
    let expected = Ok(Code {
        value: 0b0101,
        length: 4,
    });
    assert_eq!(decode(&pulses), expected);
    for k in 1..=9u16 {
        let scaled: Vec<u16> = pulses.iter().map(|&p| k * p).collect();
        assert!(scaled.iter().all(|&p| p <= 3000 || p >= 4000));
        assert_eq!(decode(&scaled), expected, "scale {}", k);
    }
    let pulses = [4000, 90, 270, 270, 90, 300, 100];
    let expected = Ok(Code {
        value: 0b011,
        length: 3,
    });
    for k in 1..=10u16 {
        let scaled: Vec<u16> = pulses.iter().map(|&p| k * p).collect();
        assert_eq!(decode(&scaled), expected, "scale {}", k);
    }
}

#[test]
fn decode_scaled_error_carries_scaled_pair() {
    let pulses = [4000, 296, 904, 896, 304, 600, 600];
    assert_eq!(decode(&pulses), Err(Error::InvalidPulseLength(600, 600)));
    let scaled: Vec<u16> = pulses.iter().map(|&p| 4 * p).collect();
    assert_eq!(decode(&scaled), Err(Error::InvalidPulseLength(2400, 2400)));
}

#[test]
fn decode_scale_can_change_result_when_unit_is_rounded() {
    // The estimate drops a remainder of 2, which times 4 is a whole unit.
    let pulses = [4843, 4, 10, 8, 4];
    assert_eq!(
        decode(&pulses),
        Ok(Code {
            value: 0b01,
            length: 2
        })
    );
    let scaled: Vec<u16> = pulses.iter().map(|&p| 4 * p).collect();
    assert_eq!(decode(&scaled), Err(Error::InvalidPulseLength(32, 16)));
}

#[test]
fn decode_repeated_packet_gives_the_same_code() {
    let once = vec![300, 10000, 1000, 333, 1000, 333, 333, 1000, 1000, 333];
    let expected = decode(&once);
    assert_eq!(
        expected,
        Ok(Code {
            value: 0b1101,
            length: 4
        })
    );
    for gap in [3001, 7000, 10000, 65535] {
        let mut twice = once.clone();
        twice.push(gap);
        twice.extend_from_slice(&once);
        assert_eq!(decode(&twice), expected);
        let mut thrice = twice.clone();
        thrice.push(gap);
        thrice.extend_from_slice(&once);
        assert_eq!(decode(&thrice), expected);
    }
}

#[test]
fn decode_repeated_packet_with_odd_tail_gives_the_same_code() {
    let once = vec![300, 10000, 1000, 333, 1000, 333, 333, 1000, 1000, 333, 333];
    let expected = decode(&once);
    assert_eq!(
        expected,
        Ok(Code {
            value: 0b1101,
            length: 4
        })
    );
    let mut twice = once.clone();
    twice.push(10000);
    twice.extend_from_slice(&once);
    assert_eq!(decode(&twice), expected);
}

#[test]
fn decode_gap_of_three_units_is_read_as_a_symbol() {
    // A break of 3001 rounds to three units of 1000, and the mark that opens
    // the second copy is one unit long.
    let once = vec![1000, 3001, 3000, 1000, 3000, 1000];
    assert_eq!(
        decode(&once),
        Ok(Code {
            value: 0b11,
            length: 2
        })
    );
    let mut twice = once.clone();
    twice.push(3001);
    twice.extend_from_slice(&once);
    assert_eq!(
        decode(&twice),
        Ok(Code {
            value: 0b111,
            length: 3
        })
    );
}

#[test]
fn decode_does_not_change_its_input_and_is_repeatable() {
    let pulses = vec![300, 10000, 1000, 333, 1000, 333, 333, 1000, 1000, 333];
    let before = pulses.clone();
    let first = decode(&pulses);
    let second = decode(&pulses);
    assert_eq!(first, second);
    assert_eq!(pulses, before);
}

#[test]
fn errors_clone_and_compare_by_variant_and_payload() {
    for error in [
        Error::NoStart,
        Error::TooShort,
        Error::InvalidPulseLength(500, 600),
    ] {
        assert_eq!(error.clone(), error);
    }
    assert_ne!(Error::NoStart, Error::TooShort);
    assert_ne!(
        Error::InvalidPulseLength(500, 600),
        Error::InvalidPulseLength(600, 500)
    );
}

#[test]
fn round_div_rounds_to_nearest() {
    assert_eq!(round_div(0, 333), 0);
    assert_eq!(round_div(166, 333), 0);
    assert_eq!(round_div(167, 333), 1);
    assert_eq!(round_div(333, 333), 1);
    assert_eq!(round_div(499, 333), 1);
    assert_eq!(round_div(500, 333), 2);
    assert_eq!(round_div(1000, 333), 3);
    assert_eq!(round_div(10000, 333), 30);
    // Halves go up when the divisor is even.
    assert_eq!(round_div(5, 10), 1);
    assert_eq!(round_div(4, 10), 0);
    assert_eq!(round_div(15, 10), 2);
    assert_eq!(round_div(7, 1), 7);
}

#[test]
fn round_div_does_not_overflow() {
    assert_eq!(round_div(65535, 1), 65535);
    assert_eq!(round_div(65535, 2), 32768);
    assert_eq!(round_div(65535, 65535), 1);
    assert_eq!(round_div(65535, 40000), 2);
    assert_eq!(round_div(32767, 65535), 0);
    assert_eq!(round_div(32768, 65535), 1);
}

#[test]
fn symbol_accepts_only_three_to_one_and_one_to_three() {
    assert_eq!(symbol(1000, 333, 333), Some(true));
    assert_eq!(symbol(333, 1000, 333), Some(false));
    assert_eq!(symbol(333, 333, 333), None);
    assert_eq!(symbol(1000, 1000, 333), None);
    assert_eq!(symbol(1000, 666, 333), None);
    assert_eq!(symbol(10000, 333, 333), None);
    assert_eq!(symbol(0, 0, 333), None);
    assert_eq!(symbol(3, 1, 1), Some(true));
    assert_eq!(symbol(1, 3, 1), Some(false));
}

#[test]
fn symbol_with_zero_unit_is_none() {
    assert_eq!(symbol(3, 1, 0), None);
    assert_eq!(symbol(1, 3, 0), None);
    assert_eq!(symbol(0, 0, 0), None);
}

#[test]
fn estimate_unit_is_an_eighth_of_four_intervals() {
    assert_eq!(estimate_unit(&[1000, 333, 1000, 333], 0), 333);
    assert_eq!(estimate_unit(&[300, 10000, 1000, 333, 1000, 333, 333], 2), 333);
    assert_eq!(estimate_unit(&[1, 2, 3, 1], 0), 0);
    assert_eq!(estimate_unit(&[2, 2, 2, 2], 0), 1);
    assert_eq!(estimate_unit(&[9, 300, 900, 900, 300, 7], 1), 300);
}
