//! Headless video recording: which rendered frames go to the encoder, and
//! the conversion of GPU readback rows (padded to 256 bytes) into packed rows.

use vstd::prelude::*;
use crate::timeline::TIMELINE_FPS;
use crate::modes::{all_decimal_digits, decimal_value, digit_value, parse_u32_spec, unsigned_digits};

verus! {

/// Width of the recorded video, in pixels.
pub const VIDEO_WIDTH: u32 = 1080;

/// Height of the recorded video, in pixels.
pub const VIDEO_HEIGHT: u32 = 1920;

/// Rows copied from a texture are aligned to this many bytes.
pub const ROW_ALIGNMENT: usize = 256;

/// Frames rendered before the first one kept: the first frames after start-up
/// are not yet the scene.
pub const WARMUP_FRAMES: u32 = 3;

/// `row_bytes` rounded up to the next multiple of the alignment.
pub open spec fn padded_row_bytes_spec(row_bytes: int) -> int {
    row_bytes + (ROW_ALIGNMENT - row_bytes % (ROW_ALIGNMENT as int)) % (ROW_ALIGNMENT as int)
}

/// The bytes of a row once padded for a texture copy.
pub fn padded_row_bytes(row_bytes: usize) -> (r: usize)
    requires
        row_bytes + ROW_ALIGNMENT <= usize::MAX,
    ensures
        r == padded_row_bytes_spec(row_bytes as int),
        r % ROW_ALIGNMENT == 0,
        row_bytes <= r < row_bytes + ROW_ALIGNMENT,
{
    let align = ROW_ALIGNMENT;
    row_bytes + (align - row_bytes % align) % align
}

/// Each chunk of `padded` bytes of a readback (the last may be shorter)
/// keeps at most its first `row` bytes.
pub open spec fn strip_chunks(raw: Seq<u8>, row: nat, padded: nat) -> Seq<u8>
    decreases raw.len(),
{
    if raw.len() == 0 || padded == 0 {
        Seq::empty()
    } else {
        let chunk = if padded < raw.len() { padded as int } else { raw.len() as int };
        let keep = if row < chunk { row as int } else { chunk };
        raw.subrange(0, keep) + strip_chunks(raw.subrange(chunk, raw.len() as int), row, padded)
    }
}

/// The packed rows of a readback: when rows carry no padding the bytes pass
/// unchanged, otherwise the padding of every row is dropped.
pub open spec fn strip_row_padding_spec(raw: Seq<u8>, row: nat, padded: nat) -> Seq<u8> {
    if row == padded {
        raw
    } else {
        strip_chunks(raw, row, padded)
    }
}

/// Drops the padding at the end of every row of a texture readback.
pub fn strip_row_padding(raw: &Vec<u8>, row_bytes: usize, padded_bytes: usize) -> (r: Vec<u8>)
    requires
        row_bytes != padded_bytes ==> padded_bytes > 0,
    ensures
        r@ == strip_row_padding_spec(raw@, row_bytes as nat, padded_bytes as nat),
{
    if row_bytes == padded_bytes {
        return raw.clone();
    }
    let len = raw.len();
    let mut out: Vec<u8> = Vec::new();
    let mut pos: usize = 0;
    assert(raw@.subrange(0, len as int) =~= raw@);
    assert(out@ + strip_chunks(raw@, row_bytes as nat, padded_bytes as nat) =~= strip_chunks(
        raw@,
        row_bytes as nat,
        padded_bytes as nat,
    ));
    while pos < len
        invariant
            len == raw.len(),
            pos <= len,
            padded_bytes > 0,
            strip_chunks(raw@, row_bytes as nat, padded_bytes as nat) =~= out@ + strip_chunks(
                raw@.subrange(pos as int, len as int),
                row_bytes as nat,
                padded_bytes as nat,
            ),
        decreases len - pos,
    {
        let rest = len - pos;
        let chunk = if padded_bytes < rest { padded_bytes } else { rest };
        let keep = if row_bytes < chunk { row_bytes } else { chunk };
        let ghost tail = raw@.subrange(pos as int, len as int);
        let ghost before = out@;
        let mut j: usize = 0;
        while j < keep
            invariant
                j <= keep,
                keep <= chunk <= rest,
                rest == len - pos,
                len == raw.len(),
                pos < len,
                out@ =~= before + raw@.subrange(pos as int, pos + j),
            decreases keep - j,
        {
            out.push(raw[pos + j]);
            j += 1;
        }
        proof {
            assert(tail.subrange(0, keep as int) =~= raw@.subrange(pos as int, pos + keep));
            assert(tail.subrange(chunk as int, tail.len() as int) =~= raw@.subrange(
                pos + chunk,
                len as int,
            ));
            assert(strip_chunks(tail, row_bytes as nat, padded_bytes as nat) == tail.subrange(
                0,
                keep as int,
            ) + strip_chunks(
                tail.subrange(chunk as int, tail.len() as int),
                row_bytes as nat,
                padded_bytes as nat,
            ));
        }
        pos = pos + chunk;
    }
    proof {
        assert(raw@.subrange(len as int, len as int) =~= Seq::<u8>::empty());
    }
    out
}

/// Without padding, dropping the padding of every row gives the readback
/// back unchanged.
pub proof fn law_strip_without_padding_is_identity(raw: Seq<u8>, row: nat)
    requires
        row > 0,
    ensures
        strip_chunks(raw, row, row) == raw,
    decreases raw.len(),
{
    if raw.len() > 0 {
        let chunk = if row < raw.len() { row as int } else { raw.len() as int };
        law_strip_without_padding_is_identity(raw.subrange(chunk, raw.len() as int), row);
        assert(raw.subrange(0, chunk) + raw.subrange(chunk, raw.len() as int) =~= raw);
    }
}

/// A progress line, printed every second of video.
#[derive(Clone, Copy, Debug, PartialEq, Eq, Structural)]
pub struct Progress {
    pub captured: u32,
    pub total: u32,
    pub percent: u32,
}

/// What to do with the frame that the render world sent this update.
#[derive(Clone, Copy, Debug, PartialEq, Eq, Structural)]
pub enum FrameDecision {
    /// No capture is due: whatever arrived is dropped.
    Discard,
    /// A capture is due but no frame arrived yet.
    Wait,
    /// One of the warm-up frames: dropped, and the capture is done.
    SkipWarmup,
    /// Send the frame to the encoder.
    Pipe { progress: Option<Progress> },
}

/// The bookkeeping of a recording.
pub struct RecordState {
    frames_captured: u32,
    total_frames: u32,
    frames_to_skip: u32,
    capture_pending: bool,
    finalized: bool,
}

pub struct RecordStateView {
    pub frames_captured: u32,
    pub total_frames: u32,
    pub frames_to_skip: u32,
    pub capture_pending: bool,
    pub finalized: bool,
}

impl View for RecordState {
    type V = RecordStateView;

    closed spec fn view(&self) -> RecordStateView {
        RecordStateView {
            frames_captured: self.frames_captured,
            total_frames: self.total_frames,
            frames_to_skip: self.frames_to_skip,
            capture_pending: self.capture_pending,
            finalized: self.finalized,
        }
    }
}

impl RecordStateView {
    /// Never more frames than asked for; a capture is only due while some
    /// are missing.
    pub open spec fn inv(self) -> bool {
        &&& self.frames_captured <= self.total_frames
        &&& self.capture_pending ==> self.frames_captured < self.total_frames
    }
}

pub open spec fn progress_at(captured: u32, total: u32) -> Option<Progress> {
    if captured % 60 == 0 {
        Some(Progress { captured, total, percent: (captured * 100 / (total as int)) as u32 })
    } else {
        None
    }
}

impl RecordState {
    pub fn new(duration_secs: u32) -> (r: Self)
        requires
            TIMELINE_FPS * duration_secs <= u32::MAX,
        ensures
            r@ == (RecordStateView {
                frames_captured: 0,
                total_frames: (TIMELINE_FPS * duration_secs) as u32,
                frames_to_skip: WARMUP_FRAMES,
                capture_pending: false,
                finalized: false,
            }),
            r@.inv(),
    {
        RecordState {
            frames_captured: 0,
            total_frames: TIMELINE_FPS * duration_secs,
            frames_to_skip: WARMUP_FRAMES,
            capture_pending: false,
            finalized: false,
        }
    }

    pub fn frames_captured(&self) -> (r: u32)
        ensures
            r == self@.frames_captured,
    {
        self.frames_captured
    }

    pub fn total_frames(&self) -> (r: u32)
        ensures
            r == self@.total_frames,
    {
        self.total_frames
    }

    /// Frames are still taken from the render world.
    pub fn wants_frames(&self) -> (r: bool)
        ensures
            r == !self@.finalized,
    {
        !self.finalized
    }

    /// Each physics step asks for one frame, once every asset is loaded and
    /// while frames are missing.
    pub fn mark_capture(&mut self, all_assets_ready: bool)
        requires
            old(self)@.inv(),
        ensures
            final(self)@.inv(),
            final(self)@ == (RecordStateView {
                capture_pending: old(self)@.capture_pending || (all_assets_ready
                    && old(self)@.frames_captured < old(self)@.total_frames),
                ..old(self)@
            }),
    {
        if all_assets_ready && self.frames_captured < self.total_frames {
            self.capture_pending = true;
        }
    }

    /// Decides on the last frame received this update (`frame_received`
    /// tells whether one arrived).
    pub fn on_frame(&mut self, frame_received: bool) -> (r: FrameDecision)
        requires
            old(self)@.inv(),
        ensures
            final(self)@.inv(),
            final(self)@.total_frames == old(self)@.total_frames,
            final(self)@.finalized == old(self)@.finalized,
            !old(self)@.capture_pending ==> r == FrameDecision::Discard && final(self)@ == old(self)@,
            old(self)@.capture_pending && !frame_received ==> r == FrameDecision::Wait && final(self)@
                == old(self)@,
            old(self)@.capture_pending && frame_received && old(self)@.frames_to_skip > 0 ==> r
                == FrameDecision::SkipWarmup && final(self)@ == (RecordStateView {
                frames_to_skip: (old(self)@.frames_to_skip - 1) as u32,
                capture_pending: false,
                ..old(self)@
            }),
            old(self)@.capture_pending && frame_received && old(self)@.frames_to_skip == 0 ==> {
                let captured = (old(self)@.frames_captured + 1) as u32;
                &&& r == FrameDecision::Pipe {
                    progress: progress_at(captured, old(self)@.total_frames),
                }
                &&& final(self)@ == (RecordStateView {
                    frames_captured: captured,
                    capture_pending: false,
                    ..old(self)@
                })
            },
    {
        if !self.capture_pending {
            return FrameDecision::Discard;
        }
        if !frame_received {
            return FrameDecision::Wait;
        }
        if self.frames_to_skip > 0 {
            self.frames_to_skip = self.frames_to_skip - 1;
            self.capture_pending = false;
            return FrameDecision::SkipWarmup;
        }
        self.capture_pending = false;
        self.frames_captured = self.frames_captured + 1;
        let progress = if self.frames_captured % 60 == 0 {
            let percent = (self.frames_captured as u64 * 100 / self.total_frames as u64) as u32;
            Some(Progress { captured: self.frames_captured, total: self.total_frames, percent })
        } else {
            None
        };
        FrameDecision::Pipe { progress }
    }

    /// Once every frame is captured, the recording is finished exactly once:
    /// `true` the first time, and only then.
    pub fn check_complete(&mut self) -> (r: bool)
        requires
            old(self)@.inv(),
        ensures
            final(self)@.inv(),
            r == (!old(self)@.finalized && old(self)@.frames_captured >= old(self)@.total_frames),
            final(self)@ == (RecordStateView { finalized: old(self)@.finalized || r, ..old(self)@ }),
    {
        if self.finalized || self.frames_captured < self.total_frames {
            return false;
        }
        self.finalized = true;
        true
    }
}

/// The digit `d` as a character.
pub open spec fn digit_char(d: nat) -> char {
    if d == 0 {
        '0'
    } else if d == 1 {
        '1'
    } else if d == 2 {
        '2'
    } else if d == 3 {
        '3'
    } else if d == 4 {
        '4'
    } else if d == 5 {
        '5'
    } else if d == 6 {
        '6'
    } else if d == 7 {
        '7'
    } else if d == 8 {
        '8'
    } else {
        '9'
    }
}

/// `n` written in decimal, without leading zeros.
pub open spec fn decimal(n: nat) -> Seq<char>
    decreases n,
{
    if n < 10 {
        seq![digit_char(n)]
    } else {
        decimal(n / 10) + seq![digit_char(n % 10)]
    }
}

fn digit_str(d: u32) -> (r: &'static str)
    requires
        d < 10,
    ensures
        r@ == seq![digit_char(d as nat)],
{
    if d == 0 {
        proof { reveal_strlit("0"); }
        assert("0"@ =~= seq!['0']);
        "0"
    } else if d == 1 {
        proof { reveal_strlit("1"); }
        assert("1"@ =~= seq!['1']);
        "1"
    } else if d == 2 {
        proof { reveal_strlit("2"); }
        assert("2"@ =~= seq!['2']);
        "2"
    } else if d == 3 {
        proof { reveal_strlit("3"); }
        assert("3"@ =~= seq!['3']);
        "3"
    } else if d == 4 {
        proof { reveal_strlit("4"); }
        assert("4"@ =~= seq!['4']);
        "4"
    } else if d == 5 {
        proof { reveal_strlit("5"); }
        assert("5"@ =~= seq!['5']);
        "5"
    } else if d == 6 {
        proof { reveal_strlit("6"); }
        assert("6"@ =~= seq!['6']);
        "6"
    } else if d == 7 {
        proof { reveal_strlit("7"); }
        assert("7"@ =~= seq!['7']);
        "7"
    } else if d == 8 {
        proof { reveal_strlit("8"); }
        assert("8"@ =~= seq!['8']);
        "8"
    } else {
        proof { reveal_strlit("9"); }
        assert("9"@ =~= seq!['9']);
        "9"
    }
}

/// `n` in decimal, as the encoder's command line takes numbers.
pub fn decimal_string(n: u32) -> (r: String)
    ensures
        r@ == decimal(n as nat),
    decreases n,
{
    if n < 10 {
        digit_str(n).to_owned()
    } else {
        let mut s = decimal_string(n / 10);
        s.append(digit_str(n % 10));
        s
    }
}

/// libx264's speed preset when none is asked for.
pub const DEFAULT_PRESET: &'static str = "veryfast";

/// libx264's thread count when none is asked for.
pub const DEFAULT_X264_THREADS: u32 = 6;

/// The encoder's command line for a recording of `duration_secs` seconds:
/// raw RGBA frames of the video size at the timeline's rate come in on
/// standard input and leave as H.264 in `outputs/record_{d}s.mp4`.
pub open spec fn encoder_args_spec(
    duration_secs: nat,
    preset: Option<Seq<char>>,
    threads: Option<u32>,
) -> Seq<Seq<char>> {
    seq![
        "-y"@,
        "-f"@,
        "rawvideo"@,
        "-pix_fmt"@,
        "rgba"@,
        "-s:v"@,
        decimal(VIDEO_WIDTH as nat) + "x"@ + decimal(VIDEO_HEIGHT as nat),
        "-framerate"@,
        decimal(TIMELINE_FPS as nat),
        "-i"@,
        "pipe:0"@,
        "-c:v"@,
        "libx264"@,
        "-preset"@,
        match preset {
            Some(p) => p,
            None => DEFAULT_PRESET@,
        },
        "-threads"@,
        decimal(
            match threads {
                Some(t) => t as nat,
                None => DEFAULT_X264_THREADS as nat,
            },
        ),
        "-crf"@,
        "20"@,
        "-pix_fmt"@,
        "yuv420p"@,
        "outputs/record_"@ + decimal(duration_secs) + "s.mp4"@,
    ]
}

/// The arguments handed to the encoder, given the preset and thread count
/// asked for, if any.
pub fn encoder_args(duration_secs: u32, preset: Option<String>, threads: Option<u32>) -> (r: Vec<
    String,
>)
    ensures
        r.deep_view() == encoder_args_spec(
            duration_secs as nat,
            match preset {
                Some(p) => Some(p@),
                None => None,
            },
            threads,
        ),
{
    let mut size = decimal_string(VIDEO_WIDTH);
    size.append("x");
    let height = decimal_string(VIDEO_HEIGHT);
    size.append(height.as_str());
    let chosen_preset = match preset {
        Some(p) => p,
        None => DEFAULT_PRESET.to_owned(),
    };
    let chosen_threads = match threads {
        Some(t) => t,
        None => DEFAULT_X264_THREADS,
    };
    let mut output = "outputs/record_".to_owned();
    let secs = decimal_string(duration_secs);
    output.append(secs.as_str());
    output.append("s.mp4");
    let mut r: Vec<String> = Vec::new();
    r.push("-y".to_owned());
    r.push("-f".to_owned());
    r.push("rawvideo".to_owned());
    r.push("-pix_fmt".to_owned());
    r.push("rgba".to_owned());
    r.push("-s:v".to_owned());
    r.push(size);
    r.push("-framerate".to_owned());
    r.push(decimal_string(TIMELINE_FPS));
    r.push("-i".to_owned());
    r.push("pipe:0".to_owned());
    r.push("-c:v".to_owned());
    r.push("libx264".to_owned());
    r.push("-preset".to_owned());
    r.push(chosen_preset);
    r.push("-threads".to_owned());
    r.push(decimal_string(chosen_threads));
    r.push("-crf".to_owned());
    r.push("20".to_owned());
    r.push("-pix_fmt".to_owned());
    r.push("yuv420p".to_owned());
    r.push(output);
    assert(r.deep_view() =~= encoder_args_spec(
        duration_secs as nat,
        match preset {
            Some(p) => Some(p@),
            None => None,
        },
        threads,
    ));
    r
}

proof fn lemma_decimal_digits(n: nat)
    ensures
        decimal(n).len() > 0,
        decimal(n)[0] != '+',
        all_decimal_digits(decimal(n)),
        decimal_value(decimal(n)) == n,
    decreases n,
{
    let s = decimal(n);
    if n < 10 {
        assert(s.drop_last() =~= Seq::<char>::empty());
        assert(decimal_value(Seq::<char>::empty()) == 0);
        assert(s.last() == digit_char(n));
        assert(digit_value(digit_char(n)) == n);
        assert(decimal_value(s) == decimal_value(s.drop_last()) * 10 + digit_value(s.last()));
    } else {
        let t = decimal(n / 10);
        lemma_decimal_digits(n / 10);
        assert(s.drop_last() =~= t);
        assert(digit_value(digit_char(n % 10)) == n % 10);
        assert(s.last() == digit_char(n % 10));
        assert((n / 10) * 10 + n % 10 == n);
        assert(decimal_value(s) == decimal_value(t) * 10 + digit_value(s.last()));
        assert(s[0] == t[0]);
        assert forall|i: int| 0 <= i < s.len() implies crate::modes::is_decimal_digit(#[trigger] s[i]) by {
            if i < t.len() {
                assert(s[i] == t[i]);
            }
        }
    }
}

/// What `decimal` writes reads back as the same number.
pub proof fn law_decimal_reads_back(n: u32)
    ensures
        parse_u32_spec(decimal(n as nat)) == Some(n),
{
    lemma_decimal_digits(n as nat);
    assert(unsigned_digits(decimal(n as nat)) == decimal(n as nat));
}

/// The encoder is asked for the preset given, else `veryfast`, whatever
/// thread count is given; for the thread count given, else 6, whatever the
/// preset; for frames of 1080 by 1920 at 60 per second; and writes
/// `outputs/record_{d}s.mp4`.
pub proof fn law_encoder_args_choices(d: u32, preset: Option<Seq<char>>, threads: Option<u32>)
    ensures
        ({
            let a = encoder_args_spec(d as nat, preset, threads);
            &&& a.len() == 22
            &&& a[13] == "-preset"@
            &&& (preset matches Some(p) ==> a[14] == p)
            &&& (preset is None ==> a[14] == "veryfast"@)
            &&& a[15] == "-threads"@
            &&& (threads matches Some(t) ==> parse_u32_spec(a[16]) == Some(t))
            &&& (threads is None ==> parse_u32_spec(a[16]) == Some(6u32))
            &&& a[7] == "-framerate"@
            &&& parse_u32_spec(a[8]) == Some(60u32)
            &&& a[6] == decimal(1080) + "x"@ + decimal(1920)
            &&& a[21] == "outputs/record_"@ + decimal(d as nat) + "s.mp4"@
        }),
{
    law_decimal_reads_back(TIMELINE_FPS);
    law_decimal_reads_back(DEFAULT_X264_THREADS);
    if let Some(t) = threads {
        law_decimal_reads_back(t);
    }
}

} // verus!
