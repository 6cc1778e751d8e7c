use booth_multiplier::delay::{
    carry_select_delay, complement_delay, mux_delay, parallel_delay, LATCH_DELAY,
};
use booth_multiplier::recode::{radix4_coefficient, radix8_coefficient};
use booth_multiplier::register::DoubleRegister;
use booth_multiplier::util::{ceiling_div, register_mask, sign_extend, SizedBinary, SizedHex};
use booth_multiplier::{booth3, booth4, BoothError, Results};

const WIDTHS: [u32; 5] = [4, 6, 8, 10, 12];

#[test]
fn radix4_boundary_scenario() {
    let r = booth3(0b1111, 0b1110, 4).unwrap();
    assert_eq!(r.product, 2);
    assert_eq!(SizedBinary(r.product, 8).to_string(), "00000010");
    assert_eq!(
        r,
        Results {
            product: 2,
            iterations: 3,
            additions: 1,
            delay: 28
        }
    );
}

#[test]
fn radix8_boundary_scenario() {
    let r = booth4(0b1111, 0b1110, 4).unwrap();
    assert_eq!(
        r,
        Results {
            product: 2,
            iterations: 2,
            additions: 1,
            delay: 30
        }
    );
}

#[test]
fn zero_multiplier_adds_nothing() {
    let r = booth3(5, 0, 4).unwrap();
    assert_eq!(
        r,
        Results {
            product: 0,
            iterations: 3,
            additions: 0,
            delay: 22
        }
    );
    let r = booth4(5, 0, 4).unwrap();
    assert_eq!(
        r,
        Results {
            product: 0,
            iterations: 2,
            additions: 0,
            delay: 25
        }
    );
}

#[test]
fn most_negative_operands() {
    assert_eq!(booth3(-2048, -2048, 12).unwrap().product, 4194304);
    assert_eq!(booth4(-2048, -2048, 12).unwrap().product, 4194304);
    assert_eq!(booth3(-2048, 2047, 12).unwrap().product, -4192256);
    assert_eq!(booth4(2047, -2048, 12).unwrap().product, -4192256);
}

#[test]
fn operands_read_as_their_low_bits() {
    // 0x1f has the low four bits 0b1111, that is -1.
    assert_eq!(booth3(0x1f, 3, 4).unwrap().product, -3);
    assert_eq!(booth4(3, 0x7e, 6).unwrap().product, -6);
}

#[test]
fn unsupported_width_radix4() {
    assert_eq!(booth3(1, 1, 5), Err(BoothError::UnsupportedWidth(5)));
    assert_eq!(booth3(1, 1, 0), Err(BoothError::UnsupportedWidth(0)));
    assert_eq!(booth3(1, 1, 14), Err(BoothError::UnsupportedWidth(14)));
}

#[test]
fn unsupported_width_radix8() {
    assert_eq!(booth4(1, 1, 5), Err(BoothError::UnsupportedWidth(5)));
    assert_eq!(booth4(1, 1, 32), Err(BoothError::UnsupportedWidth(32)));
}

#[test]
fn iteration_counts() {
    for n in WIDTHS {
        for (a, b) in [(0, 0), (-1, 1), (3, -2)] {
            assert_eq!(booth3(a, b, n).unwrap().iterations, (n + 2) / 2);
            assert_eq!(booth4(a, b, n).unwrap().iterations, (n + 3) / 3);
        }
    }
    assert_eq!(booth3(0, 0, 12).unwrap().iterations, 7);
    assert_eq!(booth4(0, 0, 12).unwrap().iterations, 5);
    assert_eq!(booth4(0, 0, 8).unwrap().iterations, 3);
}

#[test]
fn radix4_and_radix8_agree() {
    for n in [4u32, 6, 8] {
        let half = 1i32 << (n - 1);
        for a in -half..half {
            for b in -half..half {
                let r4 = booth3(a, b, n).unwrap();
                let r8 = booth4(a, b, n).unwrap();
                assert_eq!(r4.product, r8.product, "operands {}, {}", a, b);
            }
        }
    }
}

#[test]
fn delay_grows_with_additions() {
    for n in WIDTHS {
        let half = 1i32 << (n - 1);
        for booth in [booth3, booth4] {
            let mut seen: Vec<(u32, u32)> = Vec::new();
            for a in [-half, -1, 3] {
                for b in -half..half {
                    let r = booth(a, b, n).unwrap();
                    seen.push((r.additions, r.delay));
                }
            }
            for &(x, dx) in &seen {
                for &(y, dy) in &seen {
                    if x <= y {
                        assert!(dx <= dy, "width {}: {} additions {}, {} additions {}", n, x, dx, y, dy);
                    }
                }
            }
        }
    }
}

#[test]
fn delay_formula_values() {
    // radix 4, width 8: precompute 8, adding iteration 12 + 2, passing 4, latches 3.
    let r = booth3(1, 0b0101_0101, 8).unwrap();
    assert_eq!(r.iterations, 5);
    assert_eq!(r.delay, 8 + r.additions * 14 + (5 - r.additions) * 4 + 4 * LATCH_DELAY);
    // radix 8, width 12: precompute 12 + 14, adding 14 + 2, passing 5.
    let r = booth4(7, 0b0101_0101_0101, 12).unwrap();
    assert_eq!(r.iterations, 5);
    assert_eq!(r.delay, 26 + r.additions * 16 + (5 - r.additions) * 5 + 4 * LATCH_DELAY);
}

#[test]
fn sign_extension() {
    assert_eq!(sign_extend(0b1111, 4), -1);
    assert_eq!(sign_extend(0b0111, 4), 7);
    assert_eq!(sign_extend(0b1000, 4), -8);
    assert_eq!(sign_extend(0x1f3, 4), 3);
    assert_eq!(sign_extend(0xff, 1), -1);
    assert_eq!(sign_extend(2, 1), 0);
    assert_eq!(sign_extend(-1, 32), -1);
    assert_eq!(sign_extend(i32::MIN, 31), 0);
    assert_eq!(sign_extend(0x4000_0000, 31), -0x4000_0000);
    assert_eq!(sign_extend(0x0000_0800, 12), -2048);
}

#[test]
fn masks() {
    assert_eq!(register_mask(0), 0);
    assert_eq!(register_mask(4), 15);
    assert_eq!(register_mask(12), 0xfff);
    assert_eq!(register_mask(31), i32::MAX);
}

#[test]
fn ceiling_division() {
    assert_eq!(ceiling_div(0, 4), 0);
    assert_eq!(ceiling_div(5, 2), 3);
    assert_eq!(ceiling_div(6, 2), 3);
    assert_eq!(ceiling_div(24, 4), 6);
    assert_eq!(ceiling_div(13, 3), 5);
    assert_eq!(ceiling_div(u32::MAX, 1), u32::MAX);
}

#[test]
fn delay_primitives() {
    assert_eq!(carry_select_delay(4), Some(8));
    assert_eq!(carry_select_delay(6), Some(10));
    assert_eq!(carry_select_delay(8), Some(12));
    assert_eq!(carry_select_delay(10), Some(12));
    assert_eq!(carry_select_delay(12), Some(14));
    assert_eq!(carry_select_delay(5), None);
    assert_eq!(mux_delay(1), 2);
    assert_eq!(mux_delay(3), 4);
    assert_eq!(mux_delay(4), 5);
    assert_eq!(complement_delay(10), 10);
    assert_eq!(parallel_delay(3, 7), 7);
    assert_eq!(parallel_delay(9, 7), 9);
}

#[test]
fn recoding_tables() {
    let radix4: Vec<i32> = (0..8).map(radix4_coefficient).collect();
    assert_eq!(radix4, vec![0, 1, 1, 2, -2, -1, -1, 0]);
    let radix8: Vec<i32> = (0..16).map(radix8_coefficient).collect();
    assert_eq!(radix8, vec![0, 1, 1, 2, 2, 3, 3, 4, -4, -3, -3, -2, -2, -1, -1, 0]);
    // complementing a window negates its coefficient
    for w in 0..8 {
        assert_eq!(radix4_coefficient(w), -radix4_coefficient(7 - w));
    }
    for w in 0..16 {
        assert_eq!(radix8_coefficient(w), -radix8_coefficient(15 - w));
    }
}

#[test]
fn double_register() {
    let mut pq = DoubleRegister::new(4);
    assert_eq!(pq.value(), 0);
    pq.set_high(3);
    assert_eq!(pq.value(), 48);
    assert_eq!(pq.high(), 3);
    pq.shift_right(2);
    assert_eq!(pq.value(), 12);
    assert_eq!(pq.high(), 0);
    pq.set_high(-2);
    assert_eq!(pq.value(), -32 + 12);
    assert_eq!(pq.high(), -2);
    pq.shift_right(1);
    assert_eq!(pq.value(), -10);
    assert_eq!(pq.high(), -1);
}

#[test]
fn binary_text() {
    assert_eq!(SizedBinary(2, 8).to_string(), "00000010");
    assert_eq!(SizedBinary(-1, 4).to_string(), "1111");
    assert_eq!(SizedBinary(-2, 6).to_string(), "111110");
    assert_eq!(SizedBinary(5, 0).to_string(), "");
    assert_eq!(SizedBinary(i32::MIN, 32).to_string(), format!("1{}", "0".repeat(31)));
}

#[test]
fn hex_text() {
    assert_eq!(SizedHex(0xab, 2).to_string(), "ab");
    assert_eq!(SizedHex(-2, 4).to_string(), "fffe");
    assert_eq!(SizedHex(0x1234, 6).to_string(), "001234");
    assert_eq!(SizedHex(-1, 8).to_string(), "ffffffff");
    assert_eq!(SizedHex(0x7f, 1).to_string(), "f");
}
