//! Pure questions about the pipeline flags: nothing is mutated, the command
//! line is read and answered.

use vstd::prelude::*;
use vstd::string::StrSliceExecFns;

verus! {

/// Seconds used when a duration flag is present without a number after it.
pub const DEFAULT_DURATION_SECS: u32 = 60;

pub open spec fn is_decimal_digit(c: char) -> bool {
    ('0' as int) <= (c as int) <= ('9' as int)
}

pub open spec fn digit_value(c: char) -> int {
    (c as int) - ('0' as int)
}

/// The number written by a sequence of decimal digits.
pub open spec fn decimal_value(s: Seq<char>) -> int
    decreases s.len(),
{
    if s.len() == 0 {
        0
    } else {
        decimal_value(s.drop_last()) * 10 + digit_value(s.last())
    }
}

pub open spec fn all_decimal_digits(s: Seq<char>) -> bool {
    forall|i: int| 0 <= i < s.len() ==> is_decimal_digit(#[trigger] s[i])
}

/// The digits of an unsigned number: one leading `+` is allowed.
pub open spec fn unsigned_digits(s: Seq<char>) -> Seq<char> {
    if s.len() > 0 && s[0] == '+' {
        s.drop_first()
    } else {
        s
    }
}

/// What parsing a text as a `u32` gives: an optional `+`, then at least one
/// decimal digit and nothing else, with a value that fits in 32 bits.
pub open spec fn parse_u32_spec(s: Seq<char>) -> Option<u32> {
    let d = unsigned_digits(s);
    if d.len() > 0 && all_decimal_digits(d) && decimal_value(d) <= u32::MAX {
        Some(decimal_value(d) as u32)
    } else {
        None
    }
}

proof fn lemma_decimal_value_nonneg(s: Seq<char>)
    requires
        all_decimal_digits(s),
    ensures
        decimal_value(s) >= 0,
    decreases s.len(),
{
    if s.len() > 0 {
        lemma_decimal_value_nonneg(s.drop_last());
    }
}

/// A prefix of a digit string never writes a larger number than the whole.
proof fn lemma_decimal_prefix_le(s: Seq<char>, k: int)
    requires
        all_decimal_digits(s),
        0 <= k <= s.len(),
    ensures
        decimal_value(s.subrange(0, k)) <= decimal_value(s),
    decreases s.len(),
{
    if k < s.len() {
        let t = s.drop_last();
        lemma_decimal_prefix_le(t, k);
        assert(t.subrange(0, k) =~= s.subrange(0, k));
        lemma_decimal_value_nonneg(t);
    } else {
        assert(s.subrange(0, k) =~= s);
    }
}

/// Parses a text as `str::parse::<u32>` does.
pub fn parse_u32(s: &str) -> (r: Option<u32>)
    ensures
        r == parse_u32_spec(s@),
{
    let len = s.unicode_len();
    let mut i: usize = 0;
    if len > 0 && s.get_char(0) == '+' {
        i = 1;
    }
    let ghost start: int = i as int;
    let ghost d = s@.subrange(start, len as int);
    assert(d =~= unsigned_digits(s@));
    if i >= len {
        return None;
    }
    let mut value: u64 = 0;
    assert(d.subrange(0, 0) =~= Seq::<char>::empty());
    while i < len
        invariant
            0 <= start <= i <= len,
            len == s@.len(),
            d == s@.subrange(start, len as int),
            d == unsigned_digits(s@),
            all_decimal_digits(d.subrange(0, i - start)),
            value == decimal_value(d.subrange(0, i - start)),
            value <= u32::MAX,
        decreases len - i,
    {
        let c = s.get_char(i);
        assert(d[i - start] == c);
        if !('0' <= c && c <= '9') {
            assert(!is_decimal_digit(d[i - start]));
            return None;
        }
        let digit: u64 = (c as u32 - '0' as u32) as u64;
        let ghost k: int = i - start;
        assert(d.subrange(0, k + 1).drop_last() =~= d.subrange(0, k));
        assert(all_decimal_digits(d.subrange(0, k + 1)));
        value = value * 10 + digit;
        assert(value == decimal_value(d.subrange(0, k + 1)));
        if value > u32::MAX as u64 {
            proof {
                if all_decimal_digits(d) {
                    lemma_decimal_prefix_le(d, k + 1);
                }
            }
            return None;
        }
        i += 1;
    }
    assert(d.subrange(0, len - start) =~= d);
    Some(value as u32)
}


/// A flag of an earlier version of the pipeline, refused with a pointer to
/// its new name.
#[derive(Clone, Copy, Debug, PartialEq, Eq, Structural)]
pub enum RenamedFlag {
    Simulate,
}

impl RenamedFlag {
    pub open spec fn old_name_spec(self) -> Seq<char> {
        match self {
            RenamedFlag::Simulate => "--simulate"@,
        }
    }

    pub open spec fn new_name_spec(self) -> Seq<char> {
        match self {
            RenamedFlag::Simulate => "--write-timeline"@,
        }
    }

    /// The flag as the user wrote it.
    pub fn old_name(&self) -> (r: &'static str)
        ensures
            r@ == self.old_name_spec(),
    {
        match self {
            RenamedFlag::Simulate => "--simulate",
        }
    }

    /// The flag that replaced it.
    pub fn new_name(&self) -> (r: &'static str)
        ensures
            r@ == self.new_name_spec(),
    {
        match self {
            RenamedFlag::Simulate => "--write-timeline",
        }
    }
}

/// Why the command line cannot be answered.
#[derive(Clone, Copy, Debug, PartialEq, Eq, Structural)]
pub enum ModeError {
    /// A renamed flag is present: the pipeline stops and names its successor.
    Renamed(RenamedFlag),
    /// `--play` (or `--replay`) is the last argument: the timeline path is missing.
    MissingTimelinePath,
}

/// Where `flag` first stands among the arguments, as a position.
pub fn find_flag(args: &Vec<String>, flag: &str) -> (r: Option<usize>)
    ensures
        r matches Some(p) ==> p < args.len() && args.deep_view().index_of_first(flag@) == Some(
            p as int,
        ),
        r is None ==> args.deep_view().index_of_first(flag@) is None,
{
    let ghost a = args.deep_view();
    let wanted = flag.to_owned();
    let mut i: usize = 0;
    while i < args.len()
        invariant
            i <= args.len(),
            a == args.deep_view(),
            wanted@ == flag@,
            forall|q: int| 0 <= q < i ==> a[q] != flag@,
        decreases args.len() - i,
    {
        if args[i] == wanted {
            proof {
                a.index_of_first_ensures(flag@);
                assert(a[i as int] == flag@);
            }
            return Some(i);
        }
        i += 1;
    }
    proof {
        a.index_of_first_ensures(flag@);
        if a.contains(flag@) {
            let q = choose|q: int| 0 <= q < a.len() && a[q] == flag@;
            assert(a[q] != flag@);
        }
    }
    None
}

/// Whether `flag` is among the arguments.
pub fn has_flag(args: &Vec<String>, flag: &str) -> (r: bool)
    ensures
        r == args.deep_view().contains(flag@),
{
    let found = find_flag(args, flag);
    proof {
        args.deep_view().index_of_first_ensures(flag@);
    }
    found.is_some()
}

/// The seconds that a duration flag asks for: `None` without the flag; the
/// number after it when it parses; the default otherwise.
pub open spec fn duration_after(args: Seq<Seq<char>>, flag: Seq<char>) -> Option<u32> {
    match args.index_of_first(flag) {
        None => None,
        Some(p) => Some(
            if p + 1 < args.len() && parse_u32_spec(args[p + 1]) is Some {
                parse_u32_spec(args[p + 1])->0
            } else {
                DEFAULT_DURATION_SECS
            },
        ),
    }
}

fn duration_flag(args: &Vec<String>, flag: &str) -> (r: Option<u32>)
    ensures
        r == duration_after(args.deep_view(), flag@),
{
    let pos = match find_flag(args, flag) {
        Some(p) => p,
        None => return None,
    };
    if pos + 1 < args.len() {
        let parsed = parse_u32(args[pos + 1].as_str());
        match parsed {
            Some(secs) => Some(secs),
            None => Some(DEFAULT_DURATION_SECS),
        }
    } else {
        Some(DEFAULT_DURATION_SECS)
    }
}

fn reject_renamed_flag(args: &Vec<String>, old: RenamedFlag) -> (r: Result<(), ModeError>)
    ensures
        r is Ok <==> !args.deep_view().contains(old.old_name_spec()),
        r matches Err(e) ==> e == ModeError::Renamed(old),
{
    if has_flag(args, old.old_name()) {
        Err(ModeError::Renamed(old))
    } else {
        Ok(())
    }
}

/// Seconds of video asked for by `--record`.
pub fn record_duration(args: &Vec<String>) -> (r: Option<u32>)
    ensures
        r == duration_after(args.deep_view(), "--record"@),
{
    duration_flag(args, "--record")
}

pub open spec fn write_timeline_duration_spec(args: Seq<Seq<char>>) -> Result<Option<u32>, ModeError> {
    if args.contains("--simulate"@) {
        Err(ModeError::Renamed(RenamedFlag::Simulate))
    } else {
        match duration_after(args, "--write-timeline"@) {
            Some(secs) => Ok(Some(secs)),
            None => Ok(duration_after(args, "--bake"@)),
        }
    }
}

/// Seconds of headless physics whose poses are written to a timeline:
/// asked for by `--write-timeline`, or else by `--bake`; `--simulate`, the
/// flag `--write-timeline` replaced, is refused.
pub fn write_timeline_duration(args: &Vec<String>) -> (r: Result<Option<u32>, ModeError>)
    ensures
        r == write_timeline_duration_spec(args.deep_view()),
{
    reject_renamed_flag(args, RenamedFlag::Simulate)?;
    match duration_flag(args, "--write-timeline") {
        Some(secs) => Ok(Some(secs)),
        None => Ok(duration_flag(args, "--bake")),
    }
}

pub open spec fn session_duration_spec(args: Seq<Seq<char>>) -> Result<Option<u32>, ModeError> {
    match duration_after(args, "--record"@) {
        Some(secs) => Ok(Some(secs)),
        None => write_timeline_duration_spec(args),
    }
}

/// How long the video session lasts, whether it comes from `--record` or
/// from `--write-timeline`; `--record` is asked first.
pub fn session_duration_secs(args: &Vec<String>) -> (r: Result<Option<u32>, ModeError>)
    ensures
        r == session_duration_spec(args.deep_view()),
{
    match record_duration(args) {
        Some(secs) => Ok(Some(secs)),
        None => write_timeline_duration(args),
    }
}

/// The argument after `flag`, when the flag is there.
pub open spec fn path_after(args: Seq<Seq<char>>, flag: Seq<char>) -> Result<Option<Seq<char>>, ModeError> {
    match args.index_of_first(flag) {
        None => Ok(None),
        Some(p) => if p + 1 < args.len() {
            Ok(Some(args[p + 1]))
        } else {
            Err(ModeError::MissingTimelinePath)
        },
    }
}

pub open spec fn timeline_path_spec(args: Seq<Seq<char>>) -> Result<Option<Seq<char>>, ModeError> {
    if args.contains("--play"@) {
        path_after(args, "--play"@)
    } else {
        path_after(args, "--replay"@)
    }
}

fn path_flag(args: &Vec<String>, flag: &str) -> (r: Result<Option<String>, ModeError>)
    ensures
        match (r, path_after(args.deep_view(), flag@)) {
            (Ok(Some(p)), Ok(Some(q))) => p@ == q,
            (Ok(None), Ok(None)) => true,
            (Err(e), Err(f)) => e == f,
            _ => false,
        },
{
    match find_flag(args, flag) {
        None => Ok(None),
        Some(pos) => {
            if pos + 1 < args.len() {
                Ok(Some(args[pos + 1].clone()))
            } else {
                Err(ModeError::MissingTimelinePath)
            }
        },
    }
}

/// The timeline to play: the one `--play` names, or else the one `--replay`
/// names.
pub fn timeline_path(args: &Vec<String>) -> (r: Result<Option<String>, ModeError>)
    ensures
        match (r, timeline_path_spec(args.deep_view())) {
            (Ok(Some(p)), Ok(Some(q))) => p@ == q,
            (Ok(None), Ok(None)) => true,
            (Err(e), Err(f)) => e == f,
            _ => false,
        },
{
    if has_flag(args, "--play") {
        path_flag(args, "--play")
    } else {
        path_flag(args, "--replay")
    }
}

/// `--debug` shows the collider wireframes.
pub fn debug_enabled(args: &Vec<String>) -> (r: bool)
    ensures
        r == args.deep_view().contains("--debug"@),
{
    has_flag(args, "--debug")
}

/// `--sim-raw` asks for the convex decomposition of mesh colliders to be
/// computed while the world is set up, not read from the precomputed files.
pub fn sim_raw_enabled(args: &Vec<String>) -> (r: bool)
    ensures
        r == args.deep_view().contains("--sim-raw"@),
{
    has_flag(args, "--sim-raw")
}

/// What the demo binary was asked to do.
#[derive(Clone, Copy, Debug, PartialEq, Eq, Structural)]
pub enum DemoCommand {
    Preprocess,
    Sim,
}

/// `--preprocess` anywhere asks for the offline collider decomposition;
/// anything else runs the simulation.
pub fn parse_demo_command(args: &Vec<String>) -> (r: DemoCommand)
    ensures
        r == (if args.deep_view().contains("--preprocess"@) {
            DemoCommand::Preprocess
        } else {
            DemoCommand::Sim
        }),
{
    if has_flag(args, "--preprocess") {
        DemoCommand::Preprocess
    } else {
        DemoCommand::Sim
    }
}

/// `flag` first stands at position `p` of the arguments.
pub open spec fn first_at(args: Seq<Seq<char>>, flag: Seq<char>, p: int) -> bool {
    &&& 0 <= p < args.len()
    &&& args[p] == flag
    &&& forall|q: int| 0 <= q < p ==> args[q] != flag
}

proof fn lemma_first_at(args: Seq<Seq<char>>, flag: Seq<char>, p: int)
    requires
        first_at(args, flag, p),
    ensures
        args.index_of_first(flag) == Some(p),
{
    args.index_of_first_ensures(flag);
    match args.index_of_first(flag) {
        Some(i) => {
            if i < p {
                assert(args[i] != flag);
            }
            if i > p {
                assert(args[p] != flag);
            }
        },
        None => {
            assert(args.contains(flag)) by {
                assert(args[p] == flag);
            }
        },
    }
}

proof fn lemma_absent(args: Seq<Seq<char>>, flag: Seq<char>)
    requires
        !args.contains(flag),
    ensures
        args.index_of_first(flag) is None,
{
    args.index_of_first_ensures(flag);
    if let Some(i) = args.index_of_first(flag) {
        assert(args.contains(flag)) by {
            assert(args[i] == flag);
        }
    }
}

/// Arguments added at the end do not move the first occurrence of a flag
/// that is already there.
proof fn lemma_first_at_extended(
    args: Seq<Seq<char>>,
    extra: Seq<Seq<char>>,
    flag: Seq<char>,
    p: int,
)
    requires
        first_at(args, flag, p),
    ensures
        first_at(args + extra, flag, p),
{
    assert forall|q: int| 0 <= q < p implies (args + extra)[q] != flag by {
        assert((args + extra)[q] == args[q]);
    }
}

/// A duration flag asks for the number written right after its first
/// occurrence, or for 60 seconds when no number is there; arguments that
/// follow that number change nothing.
pub proof fn law_duration_is_number_after_flag(
    args: Seq<Seq<char>>,
    flag: Seq<char>,
    p: int,
    extra: Seq<Seq<char>>,
)
    requires
        first_at(args, flag, p),
    ensures
        p + 1 < args.len() ==> (parse_u32_spec(args[p + 1]) matches Some(n) ==> duration_after(
            args,
            flag,
        ) == Some(n)),
        !(p + 1 < args.len() && parse_u32_spec(args[p + 1]) is Some) ==> duration_after(args, flag)
            == Some(60u32),
        p + 1 < args.len() ==> duration_after(args + extra, flag) == duration_after(args, flag),
{
    lemma_first_at(args, flag, p);
    lemma_first_at_extended(args, extra, flag, p);
    lemma_first_at(args + extra, flag, p);
    if p + 1 < args.len() {
        assert((args + extra)[p + 1] == args[p + 1]);
    }
}

/// Without the flag there is no duration.
pub proof fn law_no_duration_without_flag(args: Seq<Seq<char>>, flag: Seq<char>)
    requires
        !args.contains(flag),
    ensures
        duration_after(args, flag) is None,
{
    lemma_absent(args, flag);
}

/// `--simulate` is refused, whatever else the command line says.
pub proof fn law_simulate_is_refused(args: Seq<Seq<char>>)
    requires
        args.contains("--simulate"@),
    ensures
        write_timeline_duration_spec(args) == Err::<Option<u32>, ModeError>(
            ModeError::Renamed(RenamedFlag::Simulate),
        ),
{
}

/// The timeline's duration is the one `--write-timeline` asks for, or,
/// without that flag, the one `--bake` asks for: the number right after the
/// flag, else 60 seconds. With neither flag no timeline is written.
pub proof fn law_timeline_duration_flags(args: Seq<Seq<char>>, flag: Seq<char>, p: int)
    requires
        !args.contains("--simulate"@),
        flag == "--write-timeline"@ || (flag == "--bake"@ && !args.contains("--write-timeline"@)),
        first_at(args, flag, p),
    ensures
        p + 1 < args.len() ==> (parse_u32_spec(args[p + 1]) matches Some(n)
            ==> write_timeline_duration_spec(args) == Ok::<Option<u32>, ModeError>(Some(n))),
        !(p + 1 < args.len() && parse_u32_spec(args[p + 1]) is Some) ==> write_timeline_duration_spec(
            args,
        ) == Ok::<Option<u32>, ModeError>(Some(60u32)),
{
    law_duration_is_number_after_flag(args, flag, p, Seq::empty());
    lemma_first_at(args, flag, p);
    if !args.contains("--write-timeline"@) {
        lemma_absent(args, "--write-timeline"@);
    }
}

/// With none of the timeline flags no timeline is written.
pub proof fn law_no_timeline_flag(args: Seq<Seq<char>>)
    requires
        !args.contains("--simulate"@),
        !args.contains("--write-timeline"@),
        !args.contains("--bake"@),
    ensures
        write_timeline_duration_spec(args) == Ok::<Option<u32>, ModeError>(None),
{
    lemma_absent(args, "--write-timeline"@);
    lemma_absent(args, "--bake"@);
}

/// The session lasts what `--record` asks for whenever it is there,
/// whatever the timeline flags say: the number right after it, else 60
/// seconds.
pub proof fn law_session_follows_record(args: Seq<Seq<char>>, p: int)
    requires
        first_at(args, "--record"@, p),
    ensures
        p + 1 < args.len() ==> (parse_u32_spec(args[p + 1]) matches Some(n)
            ==> session_duration_spec(args) == Ok::<Option<u32>, ModeError>(Some(n))),
        !(p + 1 < args.len() && parse_u32_spec(args[p + 1]) is Some) ==> session_duration_spec(args)
            == Ok::<Option<u32>, ModeError>(Some(60u32)),
{
    law_duration_is_number_after_flag(args, "--record"@, p, Seq::empty());
}

/// Only without `--record` does the session last what the timeline flags ask.
pub proof fn law_session_without_record(args: Seq<Seq<char>>)
    requires
        !args.contains("--record"@),
    ensures
        session_duration_spec(args) == write_timeline_duration_spec(args),
{
    lemma_absent(args, "--record"@);
}

/// The timeline played is the argument right after the first `--play`, or,
/// without `--play`, right after the first `--replay`, whatever arguments
/// follow it; a flag with nothing after it is an error.
pub proof fn law_timeline_path_is_argument_after_flag(
    args: Seq<Seq<char>>,
    flag: Seq<char>,
    p: int,
    extra: Seq<Seq<char>>,
)
    requires
        flag == "--play"@ || (flag == "--replay"@ && !args.contains("--play"@)),
        first_at(args, flag, p),
    ensures
        p + 1 < args.len() ==> timeline_path_spec(args) == Ok::<Option<Seq<char>>, ModeError>(
            Some(args[p + 1]),
        ),
        p + 1 == args.len() ==> timeline_path_spec(args) == Err::<Option<Seq<char>>, ModeError>(
            ModeError::MissingTimelinePath,
        ),
        p + 1 < args.len() && !extra.contains("--play"@) ==> timeline_path_spec(args + extra)
            == timeline_path_spec(args),
        p + 1 < args.len() && flag == "--play"@ ==> timeline_path_spec(args + extra)
            == timeline_path_spec(args),
{
    lemma_first_at(args, flag, p);
    lemma_first_at_extended(args, extra, flag, p);
    lemma_first_at(args + extra, flag, p);
    if p + 1 < args.len() {
        assert((args + extra)[p + 1] == args[p + 1]);
    }
    if flag == "--play"@ {
        assert(args.contains("--play"@)) by {
            assert(args[p] == flag);
        }
        assert((args + extra).contains("--play"@)) by {
            assert((args + extra)[p] == flag);
        }
    } else if !extra.contains("--play"@) {
        assert(!(args + extra).contains("--play"@)) by {
            if (args + extra).contains("--play"@) {
                let q = choose|q: int| 0 <= q < (args + extra).len() && (args + extra)[q] == "--play"@;
                if q < args.len() {
                    assert(args[q] == "--play"@);
                } else {
                    assert(extra[q - args.len()] == "--play"@);
                }
            }
        }
    }
}

/// Without `--play` or `--replay` no timeline is played.
pub proof fn law_no_timeline_without_flag(args: Seq<Seq<char>>)
    requires
        !args.contains("--play"@),
        !args.contains("--replay"@),
    ensures
        timeline_path_spec(args) == Ok::<Option<Seq<char>>, ModeError>(None),
{
    lemma_absent(args, "--replay"@);
}

} // verus!
