use fluorite::decimal::Dec;

const MAX: i128 = 79_228_162_514_264_337_593_543_950_335;

struct Mixer(u64);

impl Mixer {
    fn next(&mut self) -> u64 {
        self.0 ^= self.0 << 13;
        self.0 ^= self.0 >> 7;
        self.0 ^= self.0 << 17;
        self.0
    }

    /// A mantissa of a random width up to 96 bits, of either sign.
    fn mantissa(&mut self) -> i128 {
        let wide = ((self.next() as u128) << 64) | self.next() as u128;
        let bits = self.next() % 97;
        let magnitude = if bits == 0 { 0 } else { (wide >> (128 - bits)) as i128 };
        if self.next() % 2 == 0 {
            magnitude
        } else {
            -magnitude
        }
    }

    fn scale(&mut self) -> u32 {
        (self.next() % 29) as u32
    }
}

fn fits(n: Option<i128>) -> Option<Dec> {
    match n {
        Some(n) if -MAX <= n && n <= MAX => Some(Dec { mantissa: n, scale: 0 }),
        _ => None,
    }
}

#[test]
fn whole_arithmetic_agrees_with_the_integers() {
    let mut mixer = Mixer(0x9E37_79B9_7F4A_7C15);
    for _ in 0..20_000 {
        let a = mixer.mantissa();
        let b = mixer.mantissa();
        let x = Dec { mantissa: a, scale: 0 };
        let y = Dec { mantissa: b, scale: 0 };
        assert_eq!(x.checked_add(y), fits(a.checked_add(b)), "{} + {}", a, b);
        assert_eq!(x.checked_sub(y), fits(a.checked_sub(b)), "{} - {}", a, b);
        assert_eq!(x.checked_mul(y), fits(a.checked_mul(b)), "{} * {}", a, b);
    }
}

#[test]
fn negation_agrees_with_the_model() {
    let mut mixer = Mixer(0xD1B5_4A32_D192_ED03);
    for _ in 0..20_000 {
        let x = Dec { mantissa: mixer.mantissa(), scale: mixer.scale() };
        let expected = if x.mantissa == 0 {
            Dec { mantissa: 0, scale: 0 }
        } else {
            Dec { mantissa: -x.mantissa, scale: x.scale }
        };
        assert_eq!(x.negated(), expected);
    }
}

#[test]
fn whole_parts_agree_with_the_integers() {
    let mut mixer = Mixer(0x2545_F491_4F6C_DD1D);
    for _ in 0..20_000 {
        let x = Dec { mantissa: mixer.mantissa(), scale: mixer.scale() };
        let power = 10i128.pow(x.scale);
        let expected = if x.mantissa % power == 0 { Some(x.mantissa / power) } else { None };
        assert_eq!(x.to_whole(), expected, "{:?}", x);
        let whole = Dec { mantissa: x.mantissa / power * power, scale: x.scale };
        assert_eq!(whole.to_whole(), Some(x.mantissa / power), "{:?}", whole);
    }
}

#[test]
fn plain_literals_agree_with_their_digits() {
    let mut mixer = Mixer(0x94D0_49BB_1331_11EB);
    for _ in 0..20_000 {
        let mantissa = mixer.mantissa().abs();
        let scale = mixer.scale();
        let lead = (mixer.next() % 4) as usize;
        let digits = format!("{}{}", "0".repeat(lead + scale as usize), mantissa);
        let split = digits.len() - scale as usize;
        let text = if scale == 0 && mixer.next() % 2 == 0 {
            digits.clone()
        } else {
            format!("{}.{}", &digits[..split], &digits[split..])
        };
        assert_eq!(Dec::from_text(&text), Some(Dec { mantissa, scale }), "{}", text);
        let shown = Dec { mantissa, scale }.to_text();
        assert!(shown.chars().all(|c| c.is_ascii_digit() || c == '.'), "{}", shown);
        assert_eq!(Dec::from_text(&shown), Some(Dec { mantissa, scale }), "{}", shown);
    }
}

#[test]
fn results_fit_the_model() {
    let mut mixer = Mixer(0xBF58_476D_1CE4_E5B9);
    for _ in 0..5_000 {
        let x = Dec { mantissa: mixer.mantissa(), scale: mixer.scale() };
        let y = Dec { mantissa: mixer.mantissa(), scale: mixer.scale() };
        for r in [x.checked_add(y), x.checked_sub(y), x.checked_mul(y)] {
            if let Some(d) = r {
                assert!(-MAX <= d.mantissa && d.mantissa <= MAX && d.scale <= 28);
            }
        }
        let text = x.to_text();
        assert!(!text.contains('{') && !text.contains('}'));
    }
}
