use artiq_fw::serdes::{
    best_of_window, find_delay, get_rising_crossover, is_at_least_half, is_below_tenth, is_closer,
    is_near_half, window_tap, BitslipSearch, BitslipStep, LowRate, SerdesConfig,
};

fn r(low: u32, high: u32) -> LowRate {
    LowRate { low, high }
}

#[test]
fn rate_thresholds_are_exact() {
    assert!(!is_below_tenth(&r(1, 9)));
    assert!(is_below_tenth(&r(1, 10)));
    assert!(is_below_tenth(&r(0, 1)));
    assert!(!is_below_tenth(&r(0, 0)));
    assert!(is_at_least_half(&r(5, 5)));
    assert!(!is_at_least_half(&r(4, 5)));
    assert!(!is_at_least_half(&r(0, 0)));
    assert!(!is_near_half(&r(0, 10)));
    assert!(!is_near_half(&r(10, 0)));
    assert!(is_near_half(&r(1, 10)));
    assert!(!is_near_half(&r(0, 0)));
}

#[test]
fn closer_to_half_compares_distances() {
    assert!(is_closer(&r(4, 6), &r(3, 7)));
    assert!(!is_closer(&r(3, 7), &r(4, 6)));
    assert!(!is_closer(&r(4, 6), &r(6, 4)));
    assert!(is_closer(&r(49, 51), &r(4, 6)));
    assert!(!is_closer(&r(0, 0), &r(4, 6)));
    assert!(!is_closer(&r(u32::MAX, 0), &r(u32::MAX, u32::MAX)));
    assert!(is_closer(&r(u32::MAX, u32::MAX), &r(u32::MAX, 0)));
}

#[test]
fn rising_crossover_picks_the_tap_nearest_to_half() {
    let t = [r(50, 50), r(5, 95), r(30, 70), r(45, 55), r(60, 40), r(40, 60)];
    assert_eq!(get_rising_crossover(&t), Some((3, 4)));
}

#[test]
fn rising_crossover_keeps_the_first_of_equals() {
    let t = [r(0, 10), r(4, 6), r(6, 4)];
    assert_eq!(get_rising_crossover(&t), Some((1, 2)));
}

#[test]
fn rising_crossover_needs_a_rise_from_below_a_tenth() {
    assert_eq!(get_rising_crossover(&[r(50, 50), r(60, 40)]), None);
    assert_eq!(get_rising_crossover(&[r(0, 10), r(2, 8), r(4, 6)]), None);
    assert_eq!(get_rising_crossover(&[r(0, 0), r(0, 0)]), None);
    assert_eq!(get_rising_crossover(&[]), None);
    // a rise straight to one: no tap near 0.5, the nearest is tap 0
    assert_eq!(get_rising_crossover(&[r(10, 10), r(0, 10), r(10, 0)]), Some((0, 2)));
}

#[test]
fn delay_search_skips_edges_below_tap_five() {
    let mut t = vec![r(10, 0); 32];
    t[0] = r(0, 10);
    t[1] = r(4, 6);
    t[2] = r(6, 4);
    t[6] = r(0, 10);
    t[7] = r(2, 8);
    t[8] = r(4, 6);
    t[9] = r(5, 5);
    assert_eq!(find_delay(&t), Some(9));
}

#[test]
fn delay_search_fails_without_a_late_edge() {
    let mut t = vec![r(10, 0); 32];
    t[0] = r(0, 10);
    t[1] = r(6, 4);
    assert_eq!(find_delay(&t), None);
    assert_eq!(find_delay(&[]), None);
}

#[test]
fn delay_search_accepts_an_edge_from_tap_five() {
    let mut t = vec![r(10, 0); 32];
    t[3] = r(0, 10);
    t[4] = r(2, 8);
    t[5] = r(5, 5);
    assert_eq!(find_delay(&t), Some(5));
}

#[test]
fn window_taps_surround_the_best_tap() {
    let taps: Vec<u8> = (0..5).map(|k| window_tap(9, k)).collect();
    assert_eq!(taps, vec![7, 8, 9, 10, 11]);
    assert_eq!(window_tap(1, 0), 255);
    assert_eq!(window_tap(0, 1), 255);
}

#[test]
fn window_choice_is_the_first_nearest_to_half() {
    let w = [r(1, 9), r(3, 7), r(6, 4), r(4, 6), r(9, 1)];
    assert_eq!(best_of_window(9, &w), 9);
    let w = [r(5, 5), r(3, 7), r(6, 4), r(4, 6), r(5, 5)];
    assert_eq!(best_of_window(20, &w), 18);
    let w = [r(1, 9), r(3, 7), r(6, 4), r(4, 6), r(50, 50)];
    assert_eq!(best_of_window(20, &w), 22);
}

#[test]
fn window_choice_without_a_near_rate_is_tap_zero() {
    let w = [r(0, 0), r(10, 0), r(0, 10), r(0, 0), r(7, 0)];
    assert_eq!(best_of_window(9, &w), 0);
}

#[test]
fn bitslip_search_tries_ten_settings() {
    let mut s = BitslipSearch::new();
    assert_eq!(s.slip, 0);
    let mut inverted = Vec::new();
    loop {
        inverted.push(s.invert());
        match s.on_comma(0) {
            BitslipStep::Next(n) => {
                assert_eq!(n.slip, s.slip + 1);
                s = n;
            }
            BitslipStep::Exhausted => break,
            BitslipStep::Found(_) => panic!("no comma was seen"),
        }
    }
    assert_eq!(s.slip, 9);
    assert_eq!(inverted, vec![false, false, false, false, false, true, true, true, true, true]);
}

#[test]
fn bitslip_search_stops_at_the_comma() {
    let s = BitslipSearch { slip: 6 };
    assert!(matches!(s.on_comma(1), BitslipStep::Found(6)));
    let s = BitslipSearch::new();
    assert!(matches!(s.on_comma(1), BitslipStep::Found(0)));
    let s = BitslipSearch { slip: 9 };
    assert!(matches!(s.on_comma(1), BitslipStep::Found(9)));
    assert!(matches!(s.on_comma(2), BitslipStep::Exhausted));
}

#[test]
fn serdes_config_round_trips_through_its_bytes() {
    let c = SerdesConfig { delay: [9, 8, 10, 9] };
    assert_eq!(c.as_bytes(), &[9, 8, 10, 9]);
    let back = SerdesConfig::from_bytes(c.as_bytes()).unwrap();
    assert_eq!(back.delay, [9, 8, 10, 9]);
    let longer = SerdesConfig::from_bytes(&[1, 2, 3, 4, 0xff]).unwrap();
    assert_eq!(longer.delay, [1, 2, 3, 4]);
    assert!(SerdesConfig::from_bytes(&[1, 2, 3]).is_none());
}
