use modem_core::framing::{bit_schedule, frame_count, frame_windows, symbol_schedule};

#[test]
fn test_ask_modulate_length() {
    let bits = [1, 0, 1, 1, 0];
    let schedule = bit_schedule(&bits, 10);
    assert_eq!(schedule.len(), 50);
}

#[test]
fn test_ask_bit0_is_silent() {
    let schedule = bit_schedule(&[0], 10);
    assert_eq!(schedule.len(), 10);
    for &(on, _) in &schedule {
        assert!(!on, "Bit 0 should produce silence");
    }
}

#[test]
fn test_ask_bit1_has_energy() {
    let schedule = bit_schedule(&[1], 100);
    assert_eq!(schedule.len(), 100);
    assert!(schedule.iter().all(|&(on, _)| on), "Bit 1 should have energy");
}

#[test]
fn test_fsk_modulate_length() {
    let bits = [1, 0, 1];
    let schedule = bit_schedule(&bits, 100);
    assert_eq!(schedule.len(), 300);
}

#[test]
fn test_psk_signal_length() {
    let symbols = [0, 1, 2];
    let schedule = symbol_schedule(&symbols, 4, 50);
    assert_eq!(schedule.len(), 150);
}

#[test]
fn test_qam_signal_length() {
    let symbols = [0, 1, 2];
    let schedule = symbol_schedule(&symbols, 16, 2);
    assert_eq!(schedule.len(), 6); // 3 symbols * 2 (I,Q)
}

#[test]
fn bit_schedule_slots() {
    let schedule = bit_schedule(&[1, 0, 2], 3);
    assert_eq!(
        schedule,
        vec![
            (true, 0),
            (true, 1),
            (true, 2),
            (false, 0),
            (false, 1),
            (false, 2),
            (false, 0),
            (false, 1),
            (false, 2),
        ]
    );
}

#[test]
fn bit_schedule_empty_cases() {
    assert!(bit_schedule(&[], 8).is_empty());
    assert!(bit_schedule(&[1, 0], 0).is_empty());
}

#[test]
fn symbol_schedule_reduces_modulo_order() {
    let schedule = symbol_schedule(&[5, 2, 4], 4, 2);
    assert_eq!(schedule, vec![(1, 0), (1, 1), (2, 0), (2, 1), (0, 0), (0, 1)]);
}

#[test]
fn symbol_schedule_empty_with_zero_order() {
    assert!(symbol_schedule(&[], 0, 10).is_empty());
}

#[test]
fn frame_windows_drop_partial_tail() {
    assert_eq!(frame_windows(10, 3), vec![(0, 3), (3, 6), (6, 9)]);
    assert_eq!(frame_count(10, 3), 3);
    assert!(frame_windows(2, 3).is_empty());
    assert_eq!(frame_count(0, 5), 0);
}

#[test]
fn frames_of_modulated_signal_match_symbols() {
    let bits = [1, 0, 1, 1, 0, 0, 1, 0];
    let schedule = bit_schedule(&bits, 100);
    let windows = frame_windows(schedule.len(), 100);
    assert_eq!(windows.len(), bits.len());
    for (k, &(start, end)) in windows.iter().enumerate() {
        for j in start..end {
            assert_eq!(schedule[j], (bits[k] == 1, j - start));
        }
    }
}

#[test]
fn qam_frames_pair_in_phase_and_quadrature() {
    let symbols = [0u32, 5, 10, 15];
    let schedule = symbol_schedule(&symbols, 16, 2);
    let windows = frame_windows(schedule.len(), 2);
    assert_eq!(windows, vec![(0, 2), (2, 4), (4, 6), (6, 8)]);
    for (k, &(start, _)) in windows.iter().enumerate() {
        assert_eq!(schedule[start], (symbols[k] as usize, 0));
        assert_eq!(schedule[start + 1], (symbols[k] as usize, 1));
    }
}
