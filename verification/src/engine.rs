//! How the application is assembled for a command line: which window or
//! headless runner drives it and which world (physics, timeline capture or
//! timeline playback) runs inside.

use vstd::prelude::*;
use crate::modes::{
    first_at, law_no_timeline_flag, law_duration_is_number_after_flag, law_no_duration_without_flag,
    parse_u32_spec, law_timeline_path_is_argument_after_flag, duration_after, has_flag, record_duration, timeline_path, timeline_path_spec,
    write_timeline_duration, write_timeline_duration_spec, ModeError,
};

verus! {

/// What drives the frames.
#[derive(Clone, Copy, Debug, PartialEq, Eq, Structural)]
pub enum DisplayPlan {
    /// No window and no GPU: the loop runs flat out, one physics step per update.
    Headless,
    /// Offscreen rendering piped to a video encoder for that many seconds.
    Record { duration_secs: u32 },
    /// A window.
    Windowed,
}

/// What the world does each fixed step.
#[derive(Clone, Debug)]
pub enum WorldPlan {
    /// Physics plus capture of every pose, by body key, into a timeline of
    /// that length (`--write-timeline`).
    WriteTimeline { duration_secs: u32 },
    /// Physics plus capture of every pose, by entity, into a baked timeline
    /// of that length (`--bake`).
    Bake { duration_secs: u32 },
    /// No physics: the timeline at that path dictates every transform, by
    /// body key (`--play`).
    Play { path: String },
    /// No physics: the baked timeline at that path dictates every transform,
    /// by entity (`--replay`).
    Replay { path: String },
    /// Physics alone.
    Physics,
}

/// The assembled application.
#[derive(Clone, Debug)]
pub struct AppPlan {
    pub display: DisplayPlan,
    pub world: WorldPlan,
    /// Systems whose parameters are absent (collisions, dice) sleep instead of
    /// failing: set exactly when a timeline is played without being written.
    pub sleep_absent_needs: bool,
}

pub open spec fn display_plan(writing: Option<u32>, record: Option<u32>) -> DisplayPlan {
    match (writing, record) {
        (Some(_), _) => DisplayPlan::Headless,
        (None, Some(secs)) => DisplayPlan::Record { duration_secs: secs },
        (None, None) => DisplayPlan::Windowed,
    }
}

pub open spec fn world_plan_is(
    w: WorldPlan,
    args: Seq<Seq<char>>,
    writing: Option<u32>,
    path: Option<Seq<char>>,
) -> bool {
    match (writing, path) {
        (Some(secs), _) => if args.contains("--write-timeline"@) {
            w == WorldPlan::WriteTimeline { duration_secs: secs }
        } else {
            w == WorldPlan::Bake { duration_secs: secs }
        },
        (None, Some(p)) => if args.contains("--play"@) {
            w matches WorldPlan::Play { path } && path@ == p
        } else {
            w matches WorldPlan::Replay { path } && path@ == p
        },
        (None, None) => w == WorldPlan::Physics,
    }
}

/// Writing a timeline (`--write-timeline`, else `--bake`) wins over
/// `--record` for the display and over `--play`/`--replay` for the world;
/// playing never brings physics.
pub fn plan_app(args: &Vec<String>) -> (r: Result<AppPlan, ModeError>)
    ensures
        match write_timeline_duration_spec(args.deep_view()) {
            Err(e) => r matches Err(f) && f == e,
            Ok(writing) => match timeline_path_spec(args.deep_view()) {
                Err(e) => r matches Err(f) && f == e,
                Ok(path) => r matches Ok(plan) && plan.display == display_plan(
                    writing,
                    duration_after(args.deep_view(), "--record"@),
                ) && world_plan_is(plan.world, args.deep_view(), writing, path) && plan.sleep_absent_needs == (
                writing is None && path is Some),
            },
        },
{
    let writing = write_timeline_duration(args)?;
    let path = timeline_path(args)?;
    let record = record_duration(args);
    let sleep_absent_needs = writing.is_none() && path.is_some();
    let display = match (writing, record) {
        (Some(_), _) => DisplayPlan::Headless,
        (None, Some(secs)) => DisplayPlan::Record { duration_secs: secs },
        (None, None) => DisplayPlan::Windowed,
    };
    let world = match (writing, path) {
        (Some(secs), _) => if has_flag(args, "--write-timeline") {
            WorldPlan::WriteTimeline { duration_secs: secs }
        } else {
            WorldPlan::Bake { duration_secs: secs }
        },
        (None, Some(p)) => if has_flag(args, "--play") {
            WorldPlan::Play { path: p }
        } else {
            WorldPlan::Replay { path: p }
        },
        (None, None) => WorldPlan::Physics,
    };
    Ok(AppPlan { display, world, sleep_absent_needs })
}

/// With no timeline written, `--play` followed by a path plays that
/// timeline by body key, whether the frames go to a window or to a video
/// (`--record`).
pub proof fn law_play_flag_plays_by_key(args: Seq<Seq<char>>, p: int, w: WorldPlan)
    requires
        !args.contains("--simulate"@),
        !args.contains("--write-timeline"@),
        !args.contains("--bake"@),
        first_at(args, "--play"@, p),
        p + 1 < args.len(),
        timeline_path_spec(args) matches Ok(path) && world_plan_is(w, args, None, path),
    ensures
        w matches WorldPlan::Play { path } && path@ == args[p + 1],
{
    law_no_timeline_flag(args);
    law_timeline_path_is_argument_after_flag(args, "--play"@, p, Seq::empty());
    assert(args.contains("--play"@)) by {
        assert(args[p] == "--play"@);
    }
}

/// Playback by entity (`--replay`) is chosen only when `--play` is absent.
pub proof fn law_replay_only_without_play(args: Seq<Seq<char>>, w: WorldPlan)
    requires
        write_timeline_duration_spec(args) matches Ok(writing) && timeline_path_spec(args) matches Ok(
            path,
        ) && world_plan_is(w, args, writing, path),
        w is Replay,
    ensures
        !args.contains("--play"@),
{
}

/// Writing a timeline (`--write-timeline` or `--bake`) runs headless,
/// whatever else is asked; otherwise `--record` sends the frames to a video
/// of the seconds it asks for (the number after it, else 60); with neither,
/// a window.
pub proof fn law_display_follows_flags(args: Seq<Seq<char>>, p: int)
    requires
        !args.contains("--simulate"@),
    ensures
        args.contains("--write-timeline"@) || args.contains("--bake"@) ==> (write_timeline_duration_spec(
            args,
        ) matches Ok(writing) && display_plan(writing, duration_after(args, "--record"@))
            == DisplayPlan::Headless),
        !args.contains("--write-timeline"@) && !args.contains("--bake"@) && !args.contains(
            "--record"@,
        ) ==> (write_timeline_duration_spec(args) matches Ok(writing) && display_plan(
            writing,
            duration_after(args, "--record"@),
        ) == DisplayPlan::Windowed),
        !args.contains("--write-timeline"@) && !args.contains("--bake"@) && first_at(
            args,
            "--record"@,
            p,
        ) ==> (write_timeline_duration_spec(args) matches Ok(writing) && display_plan(
            writing,
            duration_after(args, "--record"@),
        ) == DisplayPlan::Record {
            duration_secs: if p + 1 < args.len() && parse_u32_spec(args[p + 1]) is Some {
                parse_u32_spec(args[p + 1])->0
            } else {
                60u32
            },
        }),
{
    args.index_of_first_ensures("--write-timeline"@);
    args.index_of_first_ensures("--bake"@);
    if !args.contains("--write-timeline"@) && !args.contains("--bake"@) {
        law_no_timeline_flag(args);
        if !args.contains("--record"@) {
            law_no_duration_without_flag(args, "--record"@);
        }
        if first_at(args, "--record"@, p) {
            law_duration_is_number_after_flag(args, "--record"@, p, Seq::empty());
        }
    }
}

/// Writing a timeline wins over playing one: `--write-timeline` captures by
/// body key, else `--bake` captures by entity, whatever `--play` or
/// `--replay` ask.
pub proof fn law_writing_wins_over_playing(args: Seq<Seq<char>>, w: WorldPlan)
    requires
        !args.contains("--simulate"@),
        args.contains("--write-timeline"@) || args.contains("--bake"@),
        write_timeline_duration_spec(args) matches Ok(writing) && timeline_path_spec(args) matches Ok(
            path,
        ) && world_plan_is(w, args, writing, path),
    ensures
        args.contains("--write-timeline"@) ==> w is WriteTimeline,
        !args.contains("--write-timeline"@) ==> w is Bake,
{
    args.index_of_first_ensures("--write-timeline"@);
    args.index_of_first_ensures("--bake"@);
}

} // verus!
