use audio_to_midi::timing::model_frame_to_time;

#[test]
fn frame_zero_starts_at_time_zero() {
    assert_eq!(model_frame_to_time(0), 0);
}

#[test]
fn frame_times_step_by_one_hop_inside_a_window() {
    assert_eq!(model_frame_to_time(1), 51_200);
    assert_eq!(model_frame_to_time(171), 171 * 51_200);
}

#[test]
fn every_window_pulls_the_time_line_back() {
    assert_eq!(model_frame_to_time(172), 172 * 51_200 - 7_938);
    assert_eq!(model_frame_to_time(344), 344 * 51_200 - 2 * 7_938);
}
