use face_stack::rng::{resolve_seed, EntropyUnavailable, Rng, SEED_SALT_SOURCE};

fn draws(rng: &mut Rng, n: usize) -> Vec<u32> {
    (0..n).map(|_| rng.next()).collect()
}

#[test]
fn xorshift_of_one() {
    assert_eq!(Rng::xorshift(1), 270369);
    assert_eq!(Rng::xorshift(270369), 67634689);
    assert_eq!(Rng::xorshift(0), 0);
}

#[test]
fn first_words_of_seed_one() {
    let mut rng = Rng::from_seed(1);
    assert_eq!(draws(&mut rng, 5), vec![270369, 67634689, 2647435461, 307599695, 2398689233]);
}

#[test]
fn first_words_of_a_large_seed() {
    let mut rng = Rng::from_seed(12345678);
    assert_eq!(draws(&mut rng, 5), vec![506005380, 3857352168, 531380003, 2957732711, 2044418932]);
}

#[test]
fn seed_zero_stays_at_zero() {
    let mut rng = Rng::from_seed(0);
    assert_eq!(draws(&mut rng, 3), vec![0, 0, 0]);
}

#[test]
fn recalculate_is_one_round() {
    let mut a = Rng::from_seed(77);
    let mut b = Rng::from_seed(77);
    a.recalculate();
    b.next();
    assert_eq!(a.next(), b.next());
}

#[test]
fn same_seed_same_sequence_over_mixed_calls() {
    let mut a = Rng::from_seed(2024);
    let mut b = Rng::from_seed(2024);
    for round in 0..200u32 {
        assert_eq!(a.next(), b.next());
        assert_eq!(a.next_bool(), b.next_bool());
        assert_eq!(a.next_u32_range(round, 1000 + round), b.next_u32_range(round, 1000 + round));
        a.skip(round % 5);
        b.skip(round % 5);
    }
    assert_eq!(a.next(), b.next());
}

#[test]
fn different_seeds_differ() {
    let mut a = Rng::from_seed(1);
    let mut b = Rng::from_seed(2);
    assert_ne!(draws(&mut a, 4), draws(&mut b, 4));
}

#[test]
fn reset_replays_the_sequence() {
    let mut rng = Rng::from_seed(99);
    let first: Vec<u32> = draws(&mut rng, 10);
    let flag = rng.next_bool();
    let ranged = rng.next_u32_range(3, 40);
    rng.skip(17);
    rng.reset();
    assert_eq!(draws(&mut rng, 10), first);
    assert_eq!(rng.next_bool(), flag);
    assert_eq!(rng.next_u32_range(3, 40), ranged);
}

#[test]
fn reset_equals_a_new_generator() {
    let mut used = Rng::from_seed(4242);
    used.skip(1000);
    used.reset();
    let mut fresh = Rng::from_seed(4242);
    assert_eq!(draws(&mut used, 20), draws(&mut fresh, 20));
}

#[test]
fn skip_is_repeated_next() {
    let mut skipped = Rng::from_seed(5);
    let mut stepped = Rng::from_seed(5);
    skipped.skip(37);
    for _ in 0..37 {
        stepped.next();
    }
    assert_eq!(skipped.next(), stepped.next());
}

#[test]
fn skip_nothing_changes_nothing() {
    let mut a = Rng::from_seed(5);
    a.skip(0);
    assert_eq!(a.next(), Rng::xorshift(5));
}

#[test]
fn next_bool_is_the_upper_half() {
    let mut rng = Rng::from_seed(1);
    assert_eq!((rng.next_bool(), rng.next_bool(), rng.next_bool()), (false, false, true));
    let mut rng = Rng::from_seed(12345678);
    assert_eq!((rng.next_bool(), rng.next_bool(), rng.next_bool()), (false, true, false));
}

#[test]
fn next_bool_matches_the_fraction_above_one_half() {
    let mut words = Rng::from_seed(31337);
    let mut flags = Rng::from_seed(31337);
    for _ in 0..5000 {
        let word = words.next();
        let fraction = word as f64 / (u32::MAX as f64);
        assert_eq!(flags.next_bool(), fraction > 0.5);
    }
}

#[test]
fn next_u32_range_exact_values() {
    let mut rng = Rng::from_seed(1);
    assert_eq!(rng.next_u32_range(0, 100), 0);
    assert_eq!(rng.next_u32_range(10, 20), 10);
    assert_eq!(rng.next_u32_range(5, 5), 5);
    assert_eq!(rng.next_u32_range(100, 0), 38);
    assert_eq!(rng.next_u32_range(0, u32::MAX), 307599695);
    assert_eq!(rng.next_u32_range(7, 8), 7);
}

fn truncated_float_range(word: u32, min: u32, max: u32) -> u32 {
    let fraction = word as f64 / (u32::MAX as f64);
    (fraction * (max as f64 - min as f64) + min as f64) as u32
}

#[test]
fn next_u32_range_matches_the_truncated_float_range() {
    let mut words = Rng::from_seed(2024);
    let mut ranged = Rng::from_seed(2024);
    for i in 0..20000u32 {
        let min = (i * 7) % 50;
        let max = min + 1 + (i * 13) % 4000;
        let expected = truncated_float_range(words.next(), min, max);
        assert_eq!(ranged.next_u32_range(min, max), expected);
    }
}

#[test]
fn next_u32_range_matches_the_float_range_over_wide_and_downward_ranges() {
    let mut ends = Rng::from_seed(77);
    let mut words = Rng::from_seed(4);
    let mut ranged = Rng::from_seed(4);
    for _ in 0..20000 {
        let min = ends.next();
        let max = ends.next();
        if min == max {
            continue;
        }
        let expected = truncated_float_range(words.next(), min, max);
        assert_eq!(ranged.next_u32_range(min, max), expected, "{} {}", min, max);
    }
}

#[test]
fn next_u32_range_rounds_as_doubles_do() {
    // Words that are a whole share of u32::MAX: the product comes out just
    // under a whole number in doubles, and one higher in exact arithmetic.
    let cases: [(u32, u32, u32, u32); 9] = [
        (3479633937, 0, 153, 116),
        (2068408148, 1572888, 0, 566159),
        (3756574385, 0, 52428, 6743),
        (1583942075, 6865, 1000, 3460),
        (3714024301, 1000, 21817, 12339),
        (3479633937, 0, 561, 428),
        (2408988462, 0, 393222, 107573),
        (3831481657, 7, 117970, 60783),
        (268227380, 0, 20046, 3041),
    ];
    for (seed, min, max, expected) in cases {
        let word = Rng::from_seed(seed).next();
        assert_eq!(truncated_float_range(word, min, max), expected);
        assert_eq!(Rng::from_seed(seed).next_u32_range(min, max), expected);
    }
}

#[test]
fn next_u32_range_at_the_ends_of_the_words() {
    // Seed zero draws the word zero, which selects `min`.
    assert_eq!(Rng::from_seed(0).next_u32_range(3, 9), 3);
    assert_eq!(Rng::from_seed(0).next_u32_range(9, 3), 9);
    assert_eq!(Rng::from_seed(0).next_u32_range(0, u32::MAX), 0);
    assert_eq!(Rng::from_seed(0).next_u32_range(u32::MAX, 0), u32::MAX);
}

#[test]
fn next_u32_range_with_equal_ends_draws_nothing() {
    let mut rng = Rng::from_seed(1);
    assert_eq!(rng.next_u32_range(9, 9), 9);
    assert_eq!(rng.next_u32_range(0, 0), 0);
    assert_eq!(rng.next(), 270369);
}

#[test]
fn next_u32_range_stays_within_its_ends() {
    let mut rng = Rng::from_seed(6);
    for _ in 0..5000 {
        let up = rng.next_u32_range(10, 13);
        assert!((10..=13).contains(&up));
        let down = rng.next_u32_range(13, 10);
        assert!((10..=13).contains(&down));
    }
}

#[test]
fn resolve_seed_salts_a_requested_seed() {
    assert_eq!(SEED_SALT_SOURCE, 1337);
    assert_eq!(resolve_seed(1, 0), 339970091);
    assert_eq!(resolve_seed(1, 999), 339970091);
    assert_eq!(resolve_seed(2, 0), 339970092);
}

#[test]
fn resolve_seed_wraps_around() {
    assert_eq!(resolve_seed(u32::MAX, 0), 339970089);
}

#[test]
fn resolve_seed_without_request_uses_entropy() {
    assert_eq!(resolve_seed(0, 42), 11355432);
    assert_eq!(resolve_seed(0, 1), 270369);
}

#[test]
fn for_run_with_a_seed_is_deterministic() {
    let mut a = Rng::for_run(7).expect("a requested seed needs no entropy");
    let mut b = Rng::from_seed(resolve_seed(7, 0));
    assert_eq!(draws(&mut a, 8), draws(&mut b, 8));
}

#[test]
fn new_draws_a_seed_and_replays_it() {
    let mut rng = Rng::new().expect("the system has a random source");
    let first = draws(&mut rng, 4);
    rng.reset();
    assert_eq!(draws(&mut rng, 4), first);
}

#[test]
fn for_run_without_a_seed_asks_the_system() {
    let mut rng = Rng::for_run(0).expect("the system has a random source");
    let first = draws(&mut rng, 4);
    rng.reset();
    assert_eq!(draws(&mut rng, 4), first);
}

#[test]
fn a_drawn_word_seeds_the_generator() {
    let mut made = match Rng::from_drawn(Ok(5)) {
        Ok(rng) => rng,
        Err(_) => panic!("a drawn word must give a generator"),
    };
    let mut seeded = Rng::from_seed(5);
    assert_eq!(draws(&mut made, 6), draws(&mut seeded, 6));
    assert!(Rng::from_drawn(Ok(0)).is_ok());
    assert!(Rng::from_drawn(Ok(u32::MAX)).is_ok());
}

#[test]
fn a_failed_draw_gives_no_generator() {
    for failure in [getrandom::Error::UNSUPPORTED, getrandom::Error::UNEXPECTED] {
        assert_eq!(Rng::from_drawn(Err(failure)).err(), Some(EntropyUnavailable));
    }
}
