use dsp_chain::timekeeper::TimeKeeper;

#[test]
fn test_timekeeper_new() {
    // Arrange
    let expected_start_time = 0;
    let expected_end_time = 0;
    let expected_last_tick_time = 0;

    // Act
    let timekeeper = TimeKeeper::new();

    // Assert
    assert_eq!(timekeeper.start_time, expected_start_time);
    assert_eq!(timekeeper.end_time, expected_end_time);
    assert_eq!(timekeeper.last_tick_time, expected_last_tick_time);
}

#[test]
fn test_timekeeper_start() {
    // Act
    let mut timekeeper = TimeKeeper::new();
    let tick = timekeeper.start();

    // Assert
    assert!(tick.time > 0);
    assert_eq!(tick.time_since_last_tick, 0);
    assert_eq!(tick.time_since_start, 0);
}

#[test]
fn test_timekeeper_end() {
    // Act
    let mut timekeeper = TimeKeeper::new();
    let tick = timekeeper.end();

    // Assert
    assert!(tick.time > 0);
    assert_eq!(tick.time_since_last_tick, 0);
    assert!(tick.time_since_start > 0);
}

#[test]
fn test_timekeeper_tick_after_start() {
    // Act
    let mut timekeeper = TimeKeeper::new();
    let _ = timekeeper.start();
    let tick = timekeeper.tick();

    // Assert
    assert!(tick.time > 0);
    assert_eq!(tick.time_since_last_tick, 0);
    assert_eq!(tick.time_since_start, 0);
    assert_eq!(tick.time_since_start, 0);
    assert_eq!(tick.time_since_start, 0);
}
