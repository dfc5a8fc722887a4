use rapier_bevy::engine::{plan_app, DisplayPlan, WorldPlan};
use rapier_bevy::modes::{
    debug_enabled, find_flag, has_flag, parse_demo_command, parse_u32, record_duration,
    session_duration_secs, sim_raw_enabled, timeline_path, write_timeline_duration, DemoCommand, ModeError,
    RenamedFlag, DEFAULT_DURATION_SECS,
};

fn args(list: &[&str]) -> Vec<String> {
    list.iter().map(|s| s.to_string()).collect()
}

#[test]
fn parse_u32_agrees_with_std() {
    let samples = [
        "0", "60", "007", "+7", "+", "", "-1", "-0", " 5", "5 ", "1a", "4294967295", "4294967296",
        "99999999999999999999", "+4294967295", "١٢", "12.5", "++1",
    ];
    for s in samples {
        assert_eq!(parse_u32(s), s.parse::<u32>().ok(), "text {s:?}");
    }
}

#[test]
fn parse_u32_exact_values() {
    assert_eq!(parse_u32("123"), Some(123));
    assert_eq!(parse_u32("+42"), Some(42));
    assert_eq!(parse_u32("4294967295"), Some(u32::MAX));
    assert_eq!(parse_u32("4294967296"), None);
    assert_eq!(parse_u32(""), None);
    assert_eq!(parse_u32("+"), None);
    assert_eq!(parse_u32("-3"), None);
}

#[test]
fn find_flag_gives_first_position() {
    let a = args(&["bin", "--record", "10", "--record", "20"]);
    assert_eq!(find_flag(&a, "--record"), Some(1));
    assert_eq!(find_flag(&a, "--play"), None);
    assert!(has_flag(&a, "10"));
    assert!(!has_flag(&a, "--rec"));
}

#[test]
fn record_duration_reads_number_after_flag() {
    assert_eq!(record_duration(&args(&["bin", "--record", "30"])), Some(30));
    assert_eq!(record_duration(&args(&["bin", "--record", "10", "--record", "20"])), Some(10));
}

#[test]
fn record_duration_defaults_to_sixty() {
    assert_eq!(DEFAULT_DURATION_SECS, 60);
    assert_eq!(record_duration(&args(&["bin", "--record"])), Some(60));
    assert_eq!(record_duration(&args(&["bin", "--record", "abc"])), Some(60));
    assert_eq!(record_duration(&args(&["bin", "--record", "-5"])), Some(60));
    assert_eq!(record_duration(&args(&["bin"])), None);
    assert_eq!(record_duration(&args(&[])), None);
}

#[test]
fn write_timeline_duration_and_renamed_flags() {
    assert_eq!(write_timeline_duration(&args(&["bin", "--write-timeline", "5"])), Ok(Some(5)));
    assert_eq!(write_timeline_duration(&args(&["bin", "--write-timeline"])), Ok(Some(60)));
    assert_eq!(write_timeline_duration(&args(&["bin"])), Ok(None));
    assert_eq!(
        write_timeline_duration(&args(&["bin", "--simulate", "5", "--write-timeline", "3"])),
        Err(ModeError::Renamed(RenamedFlag::Simulate))
    );
    assert_eq!(
        write_timeline_duration(&args(&["bin", "--simulate", "--bake", "4"])),
        Err(ModeError::Renamed(RenamedFlag::Simulate))
    );
}

#[test]
fn bake_asks_for_a_headless_physics_run() {
    // README: cargo run --release -- --bake 60
    assert_eq!(write_timeline_duration(&args(&["bin", "--bake", "60"])), Ok(Some(60)));
    assert_eq!(write_timeline_duration(&args(&["bin", "--bake"])), Ok(Some(60)));
    assert_eq!(write_timeline_duration(&args(&["bin", "--bake", "x"])), Ok(Some(60)));
    // --write-timeline is asked first.
    assert_eq!(
        write_timeline_duration(&args(&["bin", "--bake", "9", "--write-timeline", "3"])),
        Ok(Some(3))
    );
}

#[test]
fn renamed_flag_names() {
    assert_eq!(RenamedFlag::Simulate.old_name(), "--simulate");
    assert_eq!(RenamedFlag::Simulate.new_name(), "--write-timeline");
}

#[test]
fn session_duration_prefers_record() {
    assert_eq!(
        session_duration_secs(&args(&["bin", "--write-timeline", "5", "--record", "7"])),
        Ok(Some(7))
    );
    assert_eq!(session_duration_secs(&args(&["bin", "--write-timeline", "5"])), Ok(Some(5)));
    assert_eq!(session_duration_secs(&args(&["bin"])), Ok(None));
    // With --record present the renamed flags are never looked at.
    assert_eq!(session_duration_secs(&args(&["bin", "--record", "2", "--simulate"])), Ok(Some(2)));
    assert_eq!(
        session_duration_secs(&args(&["bin", "--simulate"])),
        Err(ModeError::Renamed(RenamedFlag::Simulate))
    );
    assert_eq!(session_duration_secs(&args(&["bin", "--bake", "12"])), Ok(Some(12)));
}

#[test]
fn timeline_path_cases() {
    assert_eq!(
        timeline_path(&args(&["bin", "--play", "outputs/simulation_60s.timeline"])),
        Ok(Some("outputs/simulation_60s.timeline".to_string()))
    );
    assert_eq!(timeline_path(&args(&["bin"])), Ok(None));
    assert_eq!(timeline_path(&args(&["bin", "--play"])), Err(ModeError::MissingTimelinePath));
    // README: --record 60 --replay outputs/bake_60s.timeline
    assert_eq!(
        timeline_path(&args(&["bin", "--record", "60", "--replay", "outputs/bake_60s.timeline"])),
        Ok(Some("outputs/bake_60s.timeline".to_string()))
    );
    // --play is asked first.
    assert_eq!(
        timeline_path(&args(&["bin", "--replay", "x", "--play", "y"])),
        Ok(Some("y".to_string()))
    );
    assert_eq!(timeline_path(&args(&["bin", "--replay"])), Err(ModeError::MissingTimelinePath));
}

#[test]
fn demo_command_and_debug() {
    assert_eq!(parse_demo_command(&args(&["bin", "--preprocess"])), DemoCommand::Preprocess);
    assert_eq!(parse_demo_command(&args(&["bin", "--debug"])), DemoCommand::Sim);
    assert!(debug_enabled(&args(&["bin", "--debug"])));
    assert!(!debug_enabled(&args(&["bin"])));
}

#[test]
fn plan_write_timeline_wins() {
    let plan = plan_app(&args(&["bin", "--write-timeline", "10", "--record", "5", "--play", "t"])).unwrap();
    assert_eq!(plan.display, DisplayPlan::Headless);
    assert!(matches!(plan.world, WorldPlan::WriteTimeline { duration_secs: 10 }));
    assert!(!plan.sleep_absent_needs);
}

#[test]
fn plan_record_of_played_timeline() {
    let plan = plan_app(&args(&["bin", "--record", "5", "--play", "t.timeline"])).unwrap();
    assert_eq!(plan.display, DisplayPlan::Record { duration_secs: 5 });
    match plan.world {
        WorldPlan::Play { path } => assert_eq!(path, "t.timeline"),
        other => panic!("unexpected world {other:?}"),
    }
    assert!(plan.sleep_absent_needs);
}

#[test]
fn plan_windowed_physics() {
    let plan = plan_app(&args(&["bin"])).unwrap();
    assert_eq!(plan.display, DisplayPlan::Windowed);
    assert!(matches!(plan.world, WorldPlan::Physics));
    assert!(!plan.sleep_absent_needs);
}

#[test]
fn plan_errors() {
    assert_eq!(
        plan_app(&args(&["bin", "--simulate", "--play"])).unwrap_err(),
        ModeError::Renamed(RenamedFlag::Simulate)
    );
    assert_eq!(
        plan_app(&args(&["bin", "--write-timeline", "3", "--play"])).unwrap_err(),
        ModeError::MissingTimelinePath
    );
    assert_eq!(
        plan_app(&args(&["bin", "--bake", "3", "--replay"])).unwrap_err(),
        ModeError::MissingTimelinePath
    );
}

#[test]
fn plan_bake_headless() {
    let plan = plan_app(&args(&["bin", "--bake", "60"])).unwrap();
    assert_eq!(plan.display, DisplayPlan::Headless);
    assert!(matches!(plan.world, WorldPlan::Bake { duration_secs: 60 }));
    assert!(!plan.sleep_absent_needs);
}

#[test]
fn plan_record_of_replayed_bake() {
    let plan = plan_app(&args(&["bin", "--record", "60", "--replay", "outputs/bake_60s.timeline"])).unwrap();
    assert_eq!(plan.display, DisplayPlan::Record { duration_secs: 60 });
    match plan.world {
        WorldPlan::Replay { path } => assert_eq!(path, "outputs/bake_60s.timeline"),
        other => panic!("unexpected world {other:?}"),
    }
    assert!(plan.sleep_absent_needs);
}

#[test]
fn plan_replay_preview_in_window() {
    let plan = plan_app(&args(&["bin", "--replay", "outputs/bake_60s.timeline"])).unwrap();
    assert_eq!(plan.display, DisplayPlan::Windowed);
    assert!(matches!(plan.world, WorldPlan::Replay { .. }));
}

#[test]
fn sim_raw_is_asked_by_its_flag() {
    // README: cargo run -- --sim-raw
    assert!(sim_raw_enabled(&args(&["bin", "--sim-raw"])));
    assert!(sim_raw_enabled(&args(&["bin", "--debug", "--sim-raw"])));
    assert!(!sim_raw_enabled(&args(&["bin"])));
    assert!(!sim_raw_enabled(&args(&["bin", "--sim-rawx"])));
}
