use loom_cli::room_code::{
    code_alphabet, code_from, code_from_draws, denied_words, encode, format_code, generate_code, grouped, normalise,
    wholesome, CODE_SYMBOLS,
};

/// SplitMix64, so sampled tests are reproducible.
fn splitmix(state: &mut u64) -> u64 {
    *state = state.wrapping_add(0x9E37_79B9_7F4A_7C15);
    let mut z = *state;
    z = (z ^ (z >> 30)).wrapping_mul(0xBF58_476D_1CE4_E5B9);
    z = (z ^ (z >> 27)).wrapping_mul(0x94D0_49BB_1331_11EB);
    z ^ (z >> 31)
}

fn alphabet() -> Vec<char> {
    code_alphabet()
}

#[test]
fn a_room_code_is_four_four_four_of_crockford_base32() {
    let alphabet = alphabet();
    for _ in 0..64 {
        let code = generate_code().expect("the OS has entropy");
        assert_eq!(code.len(), CODE_SYMBOLS + 2, "{code} is not XXXX-XXXX-XXXX");
        assert_eq!(code.as_bytes()[4], b'-', "{code} has no group break at 4");
        assert_eq!(code.as_bytes()[9], b'-', "{code} has no group break at 9");
        for c in code.chars().filter(|c| *c != '-') {
            assert!(alphabet.contains(&c), "{code} carries {c:?}, which is not in the alphabet");
            assert!(
                !"ILOU".contains(c),
                "{code} carries {c:?}, which is exactly what Crockford excludes"
            );
        }
    }
}

#[test]
fn the_encoder_reads_sixty_bits_and_not_one_more() {
    assert_eq!(format_code(u64::MAX), format_code((1 << 60) - 1));
    assert_eq!(format_code(0), "0000-0000-0000");
    assert_eq!(format_code(31), "0000-0000-000Z");
    for i in 0..CODE_SYMBOLS {
        assert_ne!(format_code(1 << (i * 5)), format_code(0), "symbol {i} is dead");
    }
}

#[test]
fn every_code_round_trips_through_normalise() {
    let mut seed = 0x10AD_C0DE_u64;
    for _ in 0..10_000 {
        let code = format_code(splitmix(&mut seed));
        assert_eq!(normalise(&code).as_deref(), Some(code.as_str()));
    }
    for _ in 0..16 {
        let code = generate_code().expect("the OS has entropy");
        assert_eq!(normalise(&code).as_deref(), Some(code.as_str()));
    }
}

#[test]
fn a_code_is_never_something_you_would_rather_not_read_out() {
    for bad in ["RAPE-0000-0000", "0000-0WAN-K000", "000K-KK00-0000"] {
        assert!(!wholesome(bad), "{bad} should have been rerolled");
    }
    for fine in ["0123-4567-89AB", "ZZZZ-ZZZZ-ZZZZ", "0000-0000-0000"] {
        assert!(wholesome(fine), "{fine} was rejected for nothing");
    }
    let alphabet = alphabet();
    for bad in denied_words() {
        assert!(
            bad.iter().all(|c| alphabet.contains(c)),
            "{bad:?} cannot occur in a code at all"
        );
    }
    for _ in 0..64 {
        let code = generate_code().expect("the OS has entropy");
        assert!(wholesome(&code), "{code} came out of the generator");
    }
}

#[test]
fn a_code_read_aloud_still_resolves() {
    let code = format_code(0x0007_6A5B_1AE7_C232);
    assert_eq!(code, "01VA-BCDE-FGHJ");

    let spoken = code
        .replace('1', "I")
        .replace('0', "O")
        .replace('V', "U")
        .to_lowercase();
    assert_eq!(normalise(&spoken).as_deref(), Some(code.as_str()));

    let scattered: String = code.chars().flat_map(|c| [c, ' ']).collect();
    assert_eq!(normalise(&scattered).as_deref(), Some(code.as_str()));
    assert_eq!(normalise("  ").as_deref(), None);
}

#[test]
fn normalise_refuses_what_is_not_a_code() {
    for bad in [
        "",
        "ABCD-ABCD-ABC",
        "ABCD-ABCD-ABCDE",
        "ABCD-ABCD-ABC!",
        "ABCD-ABCD-ABC\u{e9}",
        "ABCD ABCD ABCD ABCD",
    ] {
        assert_eq!(normalise(bad), None, "{bad:?} was accepted as a code");
    }
}

#[test]
fn the_birthday_bound_predicts_measured_collisions() {
    fn measured(symbols: usize, n: usize, trials: usize, seed: &mut u64) -> f64 {
        let mut hits = 0.0;
        for _ in 0..trials {
            let mut seen = std::collections::BTreeSet::new();
            if !(0..n).all(|_| seen.insert(encode(splitmix(seed), symbols))) {
                hits += 1.0;
            }
        }
        hits / f64::from(u32::try_from(trials).unwrap())
    }
    fn predicted(symbols: i32, n: f64) -> f64 {
        1.0 - (-(n * n) / (2.0 * 32f64.powi(symbols))).exp()
    }

    let mut seed = 0xB16D_5EED_u64;
    for (symbols, n) in [(3_i32, 181_u32), (4, 724)] {
        let want = predicted(symbols, f64::from(n));
        let got = measured(
            usize::try_from(symbols).unwrap(),
            usize::try_from(n).unwrap(),
            400,
            &mut seed,
        );
        assert!(
            (got - want).abs() < 0.08,
            "{n} codes of {symbols} symbols collided {got:.3} of the time, against a predicted {want:.3}"
        );
    }

    let mut seed = 0x5EED_u64;
    let short = measured(3, 181, 400, &mut seed);
    let long = measured(4, 181, 400, &mut seed);
    assert!(long * 4.0 < short, "a longer code collided {long:.3} against {short:.3} — no scaling");
}

#[test]
fn the_alphabet_is_crockford_base32() {
    let alphabet: String = code_alphabet().into_iter().collect();
    assert_eq!(alphabet, "0123456789ABCDEFGHJKMNPQRSTVWXYZ");
}

#[test]
fn encode_lays_symbols_out_most_significant_first() {
    assert_eq!(encode(1, 3), "001");
    assert_eq!(encode(32, 3), "010");
    assert_eq!(encode(0b11111_00000_00001, 3), "Z01");
    assert_eq!(encode(u64::MAX, 0), "");
    assert_eq!(encode(u64::MAX, 13), "FZZZZZZZZZZZZ");
}

#[test]
fn grouping_puts_dashes_after_four_and_eight() {
    assert_eq!(grouped("0123456789AB"), "0123-4567-89AB");
    assert_eq!(grouped("0123456789ABXYZ"), "0123-4567-89AB");
}

#[test]
fn a_code_that_spells_a_word_is_not_offered() {
    // RAPE is R=24, A=10, P=22, E=14: value 24<<15 | 10<<10 | 22<<5 | 14.
    let bits: u64 = (24 << 15) | (10 << 10) | (22 << 5) | 14;
    assert_eq!(format_code(bits), "0000-0000-RAPE");
    assert_eq!(code_from(bits), None);
    assert_eq!(code_from(0).as_deref(), Some("0000-0000-0000"));
    // A word across a dash counts too.
    assert!(!wholesome("000R-APE0-0000"));
}

#[test]
fn normalise_stops_at_a_thirteenth_symbol_and_at_a_stray_character() {
    assert_eq!(normalise("0000000000000"), None);
    assert_eq!(normalise("0000_0000\t0000").as_deref(), Some("0000-0000-0000"));
    assert_eq!(normalise("0000-0000-000*"), None);
    assert_eq!(normalise("lllo-oooo-uuuu").as_deref(), Some("1110-0000-VVVV"));
}

#[test]
fn the_first_usable_draw_of_eight_gives_the_code() {
    let bad: u64 = (24 << 15) | (10 << 10) | (22 << 5) | 14;
    assert_eq!(code_from_draws(&vec![None, Some(bad), Some(1)]).as_deref(), Some("0000-0000-0001"));
    assert_eq!(code_from_draws(&vec![Some(2), Some(1)]).as_deref(), Some("0000-0000-0002"));
    assert_eq!(code_from_draws(&vec![None; 8]), None);
    assert_eq!(code_from_draws(&Vec::new()), None);
    let mut late = vec![None; 8];
    late.push(Some(1));
    assert_eq!(code_from_draws(&late), None, "a ninth draw is never looked at");
    let mut eighth = vec![Some(bad); 7];
    eighth.push(Some(3));
    assert_eq!(code_from_draws(&eighth).as_deref(), Some("0000-0000-0003"));
}

#[test]
fn grouping_cuts_at_bytes_four_eight_and_twelve() {
    assert_eq!(grouped("\u{e9}\u{e9}456789AB"), "\u{e9}\u{e9}-4567-89AB");
    assert_eq!(grouped("0123\u{20ac}x89ABCD"), "0123-\u{20ac}x-89AB");
    assert_eq!(grouped("0123456789\u{e9}Z"), "0123-4567-89\u{e9}");
}
