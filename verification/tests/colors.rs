use alphabit::animation::ColorGenerator;

#[test]
fn pulse_value_is_exact_at_a_fixed_reading() {
    // duration 1024: phase 0 sits 512 from the middle; divider 4;
    // (512 / 4 * 92) / 256 = 46.
    assert_eq!(ColorGenerator::color_component_at(0, 0, 1024, 68, 160), 68 + 46);
    // Phase at the middle of the period pulses to the bottom of the band.
    assert_eq!(ColorGenerator::color_component_at(512, 0, 1024, 68, 160), 68);
    // The offset shifts the phase.
    assert_eq!(ColorGenerator::color_component_at(0, 512, 1024, 68, 160), 68);
}

#[test]
fn live_pulse_stays_in_its_band() {
    for offset in [0u32, 1000, 2000, 3222, 4000] {
        let r = ColorGenerator::get_color_component(offset, 4000, 68, 160);
        assert!(r >= 68);
        assert!(r <= 160);
    }
}

#[test]
fn clock_reads_a_modern_moment() {
    // The epoch milliseconds of any present-day clock are far past zero.
    let a = ColorGenerator::get_milliseconds();
    assert!(a > 1_000_000_000_000);
}
