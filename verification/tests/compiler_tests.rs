use ragu::compiler::build_rts_args;

#[test]
fn test_build_rts_args_low_memory_no_stats() {
    let args = build_rts_args(8, false);
    assert!(args.is_empty());

    let args = build_rts_args(15, false);
    assert!(args.is_empty());
}

#[test]
fn test_build_rts_args_medium_memory() {
    let args = build_rts_args(16, false);
    assert_eq!(args, vec!["+RTS", "-A128m", "-n8m", "-RTS"]);

    let args = build_rts_args(24, false);
    assert_eq!(args, vec!["+RTS", "-A128m", "-n8m", "-RTS"]);

    let args = build_rts_args(31, false);
    assert_eq!(args, vec!["+RTS", "-A128m", "-n8m", "-RTS"]);
}

#[test]
fn test_build_rts_args_high_memory() {
    let args = build_rts_args(32, false);
    assert_eq!(args, vec!["+RTS", "-A256m", "-n16m", "-RTS"]);

    let args = build_rts_args(64, false);
    assert_eq!(args, vec!["+RTS", "-A256m", "-n16m", "-RTS"]);
}

#[test]
fn test_build_rts_args_with_stats_medium_memory() {
    let args = build_rts_args(16, true);
    assert_eq!(args, vec!["+RTS", "-A128m", "-n8m", "-s", "-RTS"]);

    let args = build_rts_args(24, true);
    assert_eq!(args, vec!["+RTS", "-A128m", "-n8m", "-s", "-RTS"]);
}

#[test]
fn test_build_rts_args_with_stats_high_memory() {
    let args = build_rts_args(32, true);
    assert_eq!(args, vec!["+RTS", "-A256m", "-n16m", "-s", "-RTS"]);

    let args = build_rts_args(64, true);
    assert_eq!(args, vec!["+RTS", "-A256m", "-n16m", "-s", "-RTS"]);
}

#[test]
fn test_build_rts_args_with_stats_low_memory() {
    // With stats but low memory, should return just stats
    let args = build_rts_args(8, true);
    assert_eq!(args, vec!["+RTS", "-s", "-RTS"]);

    let args = build_rts_args(15, true);
    assert_eq!(args, vec!["+RTS", "-s", "-RTS"]);
}

#[test]
fn test_build_rts_args_boundary_conditions() {
    // Test exact boundary at 15GB without stats
    assert!(build_rts_args(15, false).is_empty());
    assert!(!build_rts_args(16, false).is_empty());

    // Test exact boundary at 15GB with stats
    let args_15_stats = build_rts_args(15, true);
    assert_eq!(args_15_stats, vec!["+RTS", "-s", "-RTS"]);

    // Test exact boundary at 31GB
    let args_31 = build_rts_args(31, false);
    assert!(args_31.contains(&"-A128m".to_string()));

    let args_32 = build_rts_args(32, false);
    assert!(args_32.contains(&"-A256m".to_string()));
}
