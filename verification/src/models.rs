use crate::error::{concat_str, duration_error, RenderError};
use crate::text::{chars_vec, decimal_chars, digit_char, push_char};
use vstd::prelude::*;

verus! {

/// Output family.
#[derive(Debug, Clone, Copy, PartialEq, Eq, Structural)]
pub enum OutputFormat {
    Mp4,
    Png,
    Raw,
}

/// Container for video output.
#[derive(Debug, Clone, Copy, PartialEq, Eq, Structural)]
pub enum Container {
    Mkv,
    Mp4,
}

/// Where rendered frames go.
#[derive(Debug, Clone, Copy, PartialEq, Eq, Structural)]
pub enum EncodeBackend {
    FfmpegAv1,
    FfmpegH264,
    PngSequence,
    RawDump,
    StdoutRaw,
}

/// A fully resolved render request. Durations are whole seconds; paths
/// are kept as text.
#[derive(Debug, Clone)]
pub struct RenderJob {
    pub effect: String,
    pub plugin_path: Option<String>,
    pub seed: u64,
    pub fps: u32,
    pub duration: u64,
    pub width: u32,
    pub height: u32,
    pub output: String,
    pub cols: Option<usize>,
    pub rows: Option<usize>,
    pub dry_run: bool,
    pub segment: Option<u64>,
    pub audio: Option<String>,
    pub resume: bool,
    pub crf: u8,
    pub preset: Option<String>,
    pub encoder: Option<String>,
    pub prefer_hw: bool,
    pub gpu_upscale: bool,
    pub format: OutputFormat,
    pub container: Container,
    pub baseline_dir: Option<String>,
    pub snapshot_last_only: bool,
    pub update_baselines: bool,
    pub cpu_raster: bool,
}

/// One part of a segmented render.
#[derive(Debug, Clone, Copy, PartialEq, Eq, Structural)]
pub struct SegmentPlan {
    pub index: u64,
    pub duration: u64,
}

/// Frames in `secs` seconds at `fps`, capped at `u64::MAX`.
pub open spec fn frames_spec(secs: u64, fps: u32) -> nat {
    if secs * fps > u64::MAX {
        u64::MAX as nat
    } else {
        (secs * fps) as nat
    }
}

/// Number of parts a render of `total` seconds splits into: one unless a
/// positive segment length shorter than the render is set.
pub open spec fn segments_spec(total: u64, segment: Option<u64>) -> nat {
    match segment {
        Some(s) => if s == 0 || total <= s {
            1
        } else {
            ((total + s - 1) / s as int) as nat
        },
        None => 1,
    }
}

/// Length of part `i` of `n` when a render of `total` seconds is cut into
/// parts of `seg` seconds: the last part takes what remains.
pub open spec fn part_len(total: u64, seg: u64, n: nat, i: int) -> int {
    if i < n - 1 {
        seg as int
    } else {
        total - seg * (n - 1)
    }
}

impl RenderJob {
    /// Total frames to render.
    pub fn frame_count(&self) -> (n: u64)
        ensures
            n == frames_spec(self.duration, self.fps),
    {
        match self.duration.checked_mul(self.fps as u64) {
            Some(n) => n,
            None => u64::MAX,
        }
    }

    /// Number of segment files the render produces.
    pub fn segment_count(&self) -> (n: u64)
        ensures
            n == segments_spec(self.duration, self.segment),
            n >= 1,
    {
        match self.segment {
            Some(s) => {
                if s == 0 || self.duration <= s {
                    1
                } else {
                    let q = self.duration / s;
                    let r = self.duration % s;
                    assert(q >= 1 && (r != 0 ==> q < u64::MAX)) by (nonlinear_arith)
                        requires
                            s > 0,
                            self.duration > s,
                            q == self.duration / s,
                            r == self.duration % s,
                    ;
                    let n = if r == 0 {
                        q
                    } else {
                        q + 1
                    };
                    assert(n == (self.duration + s - 1) / s as int) by (nonlinear_arith)
                        requires
                            s > 0,
                            q == self.duration / s,
                            r == self.duration % s,
                            r == 0 ==> n == q,
                            r != 0 ==> n == q + 1,
                    ;
                    n
                }
            },
            None => 1,
        }
    }
}

/// Split a render into its parts, in order; together they cover the whole
/// duration exactly.
pub fn plan_segments(job: &RenderJob) -> (res: Result<Vec<SegmentPlan>, RenderError>)
    ensures
        res matches Ok(plans) && plans@.len() == segments_spec(job.duration, job.segment) && (
        forall|i: int|
            0 <= i < plans@.len() ==> (#[trigger] plans@[i]).index == i && plans@[i].duration
                == if plans@.len() == 1 {
                job.duration as int
            } else {
                part_len(job.duration, job.segment->0, plans@.len(), i)
            }),
{
    let n = job.segment_count();
    let mut plans: Vec<SegmentPlan> = Vec::new();
    if n == 1 {
        plans.push(SegmentPlan { index: 0, duration: job.duration });
        return Ok(plans);
    }
    let s = match job.segment {
        Some(s) => s,
        None => 1,
    };
    let total = job.duration;
    assert(s > 0 && total > s);
    assert(s * (n - 1) < total && total <= s * n) by (nonlinear_arith)
        requires
            s > 0,
            n == (total + s - 1) / s as int,
    ;
    let mut i: u64 = 0;
    let mut used: u64 = 0;
    while i < n - 1
        invariant
            n == segments_spec(job.duration, job.segment),
            n >= 2,
            job.segment == Some(s),
            total == job.duration,
            s * (n - 1) < total,
            i <= n - 1,
            used == s * i,
            plans@.len() == i,
            forall|k: int|
                0 <= k < i ==> (#[trigger] plans@[k]).index == k && plans@[k].duration
                    == part_len(total, s, n as nat, k),
        decreases n - i,
    {
        assert(used + s <= s * (n - 1)) by (nonlinear_arith)
            requires
                i + 1 <= n - 1,
                used == s * i,
        ;
        plans.push(SegmentPlan { index: i, duration: s });
        used = used + s;
        i = i + 1;
        assert(used == s * i) by (nonlinear_arith)
            requires
                used == s * (i - 1) + s,
        ;
    }
    plans.push(SegmentPlan { index: i, duration: total - used });
    Ok(plans)
}

/// Seconds per unit suffix.
pub open spec fn unit_secs(c: char) -> Option<nat> {
    if c == 's' {
        Some(1)
    } else if c == 'm' {
        Some(60)
    } else if c == 'h' {
        Some(3600)
    } else if c == 'd' {
        Some(86400)
    } else {
        None
    }
}

pub open spec fn is_digit_char(c: char) -> bool {
    '0' <= c <= '9'
}

/// The number written by the decimal digit characters `s`.
pub open spec fn digit_chars_value(s: Seq<char>) -> nat
    decreases s.len(),
{
    if s.len() == 0 {
        0
    } else {
        digit_chars_value(s.drop_last()) * 10 + (s.last() as nat - 48) as nat
    }
}

/// Every character of `s` is a decimal digit.
pub open spec fn all_digit_chars(s: Seq<char>) -> bool {
    forall|i: int| 0 <= i < s.len() ==> is_digit_char(#[trigger] s[i])
}

/// Seconds a duration text stands for: decimal digits, optionally followed
/// by one unit `s`, `m`, `h` or `d` (bare digits are seconds). `None` when
/// the text does not have that shape.
pub open spec fn duration_value(s: Seq<char>) -> Option<nat> {
    let has_unit = s.len() > 0 && unit_secs(s.last()) is Some;
    let digits = if has_unit {
        s.drop_last()
    } else {
        s
    };
    let mult: nat = if has_unit {
        unit_secs(s.last())->0
    } else {
        1
    };
    if digits.len() == 0 || !all_digit_chars(digits) {
        None
    } else {
        Some(digit_chars_value(digits) * mult)
    }
}

/// The message of the duration error for the text `s`: empty, no
/// number, a character that is not a digit, a value past `u64::MAX`
/// seconds, or zero.
pub open spec fn duration_msg(s: Seq<char>) -> Seq<char> {
    let has_unit = s.len() > 0 && unit_secs(s.last()) is Some;
    let digits = if has_unit {
        s.drop_last()
    } else {
        s
    };
    let mult: nat = if has_unit {
        unit_secs(s.last())->0
    } else {
        1
    };
    if s.len() == 0 {
        "empty duration"@
    } else if digits.len() == 0 {
        "missing number in duration: "@ + s
    } else if !all_digit_chars(digits) {
        "invalid duration: "@ + s
    } else if digit_chars_value(digits) == 0 {
        "duration must be > 0: "@ + s
    } else {
        "duration too large: "@ + s
    }
}

/// Parse a human duration (`10s`, `5m`, `2h`, `1d`, or bare seconds) into
/// whole seconds. A zero duration is an error.
pub fn parse_duration_secs(s: &str) -> (res: Result<u64, RenderError>)
    ensures
        res matches Ok(v) ==> duration_value(s@) == Some(v as nat) && v > 0,
        res is Ok <==> (duration_value(s@) matches Some(v) && 0 < v <= u64::MAX),
        res matches Err(e) ==> e is Duration,
        res is Err ==> duration_error(res) == Some(duration_msg(s@)),
{
    let cs = chars_vec(s);
    let n = cs.len();
    if n == 0 {
        return Err(RenderError::Duration("empty duration".to_owned()));
    }
    let last = cs[n - 1];
    let mult: u64 = if last == 's' {
        1
    } else if last == 'm' {
        60
    } else if last == 'h' {
        3600
    } else if last == 'd' {
        86400
    } else {
        0
    };
    let has_unit = mult != 0;
    let dn = if has_unit {
        n - 1
    } else {
        n
    };
    let mult = if has_unit {
        mult
    } else {
        1
    };
    let ghost digits = cs@.take(dn as int);
    let ghost spec_mult: nat = if has_unit {
        unit_secs(s@.last())->0
    } else {
        1
    };
    assert(s@.last() == last);
    assert(has_unit <==> unit_secs(s@.last()) is Some);
    assert(mult == spec_mult);
    assert(digits =~= (if has_unit {
        s@.drop_last()
    } else {
        s@
    }));
    if dn == 0 {
        return Err(RenderError::Duration(concat_str("missing number in duration: ", s)));
    }
    let mut v: u64 = 0;
    let mut big = false;
    let mut i: usize = 0;
    while i < dn
        invariant
            dn <= cs@.len(),
            cs@ == s@,
            digits == cs@.take(dn as int),
            s@.len() > 0,
            has_unit <==> unit_secs(s@.last()) is Some,
            digits == (if has_unit {
                s@.drop_last()
            } else {
                s@
            }),
            i <= dn,
            forall|k: int| 0 <= k < i ==> is_digit_char(#[trigger] digits[k]),
            !big ==> v == digit_chars_value(digits.take(i as int)),
            big ==> digit_chars_value(digits.take(i as int)) > u64::MAX,
        decreases dn - i,
    {
        let c = cs[i];
        if !('0' <= c && c <= '9') {
            assert(digits[i as int] == c);
            assert(!is_digit_char(digits[i as int]));
            assert(!all_digit_chars(digits));
            return Err(RenderError::Duration(concat_str("invalid duration: ", s)));
        }
        assert(digits.take(i + 1).drop_last() =~= digits.take(i as int));
        let d = (c as u32 - 48) as u64;
        if !big {
            match v.checked_mul(10) {
                Some(t) => match t.checked_add(d) {
                    Some(u) => {
                        v = u;
                    },
                    None => {
                        big = true;
                    },
                },
                None => {
                    big = true;
                },
            }
        } else {
            assert(digit_chars_value(digits.take(i + 1)) >= digit_chars_value(digits.take(i as int))
                * 10);
        }
        i = i + 1;
    }
    assert(digits.take(dn as int) =~= digits);
    assert(duration_value(s@) == Some(digit_chars_value(digits) * spec_mult));
    assert(spec_mult >= 1);
    if big {
        assert(digit_chars_value(digits) * spec_mult >= digit_chars_value(digits)) by (nonlinear_arith)
            requires
                spec_mult >= 1,
        ;
        return Err(RenderError::Duration(concat_str("duration too large: ", s)));
    }
    if v == 0 {
        assert(0 * spec_mult == 0);
        return Err(RenderError::Duration(concat_str("duration must be > 0: ", s)));
    }
    assert(v * spec_mult >= 1) by (nonlinear_arith)
        requires
            v >= 1,
            spec_mult >= 1,
    ;
    match v.checked_mul(mult) {
        Some(t) => Ok(t),
        None => Err(RenderError::Duration(concat_str("duration too large: ", s))),
    }
}

/// Lower-case form of an ASCII letter; other characters unchanged.
pub open spec fn lower_char(c: char) -> char {
    if 'A' <= c <= 'Z' {
        ((c as u32) + 32) as char
    } else {
        c
    }
}

/// ASCII lower-case form of a text.
pub open spec fn ascii_lower(s: Seq<char>) -> Seq<char> {
    Seq::new(s.len(), |i: int| lower_char(s[i]))
}

/// The ASCII lower-case form of `s`.
pub fn to_ascii_lowercase(s: &str) -> (t: String)
    ensures
        t@ == ascii_lower(s@),
{
    let cs = chars_vec(s);
    let mut t = String::new();
    let mut i: usize = 0;
    while i < cs.len()
        invariant
            cs@ == s@,
            i <= cs@.len(),
            t@ == ascii_lower(cs@.take(i as int)),
        decreases cs@.len() - i,
    {
        let c = cs[i];
        let l = if 'A' <= c && c <= 'Z' {
            ((c as u8) + 32) as char
        } else {
            c
        };
        push_char(&mut t, l);
        i = i + 1;
        assert(t@ =~= ascii_lower(cs@.take(i as int)));
    }
    assert(cs@.take(i as int) =~= s@);
    t
}

/// `a` holds the same characters as `b`.
pub fn text_is(a: &String, b: &str) -> (r: bool)
    ensures
        r == (a@ == b@),
{
    let t = b.to_owned();
    *a == t
}

/// Which backend writes the frames of a job.
pub open spec fn backend_spec(
    format: OutputFormat,
    container: Container,
    dry_run: bool,
    stdout_raw: bool,
) -> EncodeBackend {
    match format {
        OutputFormat::Png => EncodeBackend::PngSequence,
        OutputFormat::Raw => if stdout_raw {
            EncodeBackend::StdoutRaw
        } else {
            EncodeBackend::RawDump
        },
        OutputFormat::Mp4 => if dry_run {
            EncodeBackend::RawDump
        } else if container == Container::Mp4 {
            EncodeBackend::FfmpegH264
        } else {
            EncodeBackend::FfmpegAv1
        },
    }
}

/// Choose the backend for a job's format and container.
pub fn choose_backend(format: OutputFormat, container: Container, dry_run: bool, stdout_raw: bool) -> (b: EncodeBackend)
    ensures
        b == backend_spec(format, container, dry_run, stdout_raw),
{
    match format {
        OutputFormat::Png => EncodeBackend::PngSequence,
        OutputFormat::Raw => if stdout_raw {
            EncodeBackend::StdoutRaw
        } else {
            EncodeBackend::RawDump
        },
        OutputFormat::Mp4 => if dry_run {
            EncodeBackend::RawDump
        } else {
            match container {
                Container::Mp4 => EncodeBackend::FfmpegH264,
                Container::Mkv => EncodeBackend::FfmpegAv1,
            }
        },
    }
}

/// Sum of the durations of plans.
pub open spec fn plans_total(plans: Seq<SegmentPlan>) -> int
    decreases plans.len(),
{
    if plans.len() == 0 {
        0
    } else {
        plans_total(plans.drop_last()) + plans.last().duration
    }
}

/// The parts of a segmented render together last exactly as long as the
/// render.
pub proof fn law_plans_cover_duration(job: RenderJob, plans: Seq<SegmentPlan>)
    requires
        plans.len() == segments_spec(job.duration, job.segment),
        forall|i: int|
            0 <= i < plans.len() ==> (#[trigger] plans[i]).duration == if plans.len() == 1 {
                job.duration as int
            } else {
                part_len(job.duration, job.segment->0, plans.len(), i)
            },
    ensures
        plans_total(plans) == job.duration,
{
    let n = plans.len();
    if n == 1 {
        assert(plans.drop_last().len() == 0);
        assert(plans_total(plans.drop_last()) == 0);
        assert(plans.last() == plans[0]);
        assert(plans[0].duration == job.duration);
    } else {
        let s = job.segment->0;
        assert(n >= 1) by {
            if job.segment is Some && s > 0 && job.duration > s {
                assert((job.duration + s - 1) / s as int >= 1) by (nonlinear_arith)
                    requires
                        s > 0,
                        job.duration > s,
                ;
            }
        }
        assert forall|i: int| 0 <= i < plans.len() - 1 implies (#[trigger] plans[i]).duration == s by {
            assert(plans[i].duration == part_len(job.duration, s, n, i));
        }
        lemma_prefix_total(plans, s, n - 1);
        assert(plans.take(n - 1) =~= plans.drop_last());
        assert(plans[n - 1].duration == part_len(job.duration, s, n, n - 1));
        assert(plans.last() == plans[n - 1]);
        assert(plans_total(plans) == plans_total(plans.drop_last()) + plans.last().duration);
    }
}

proof fn lemma_prefix_total(plans: Seq<SegmentPlan>, s: u64, k: int)
    requires
        0 <= k < plans.len(),
        forall|i: int| 0 <= i < plans.len() - 1 ==> (#[trigger] plans[i]).duration == s,
    ensures
        plans_total(plans.take(k)) == s * k,
    decreases k,
{
    if k > 0 {
        lemma_prefix_total(plans, s, k - 1);
        let t = plans.take(k);
        assert(t.drop_last() =~= plans.take(k - 1));
        assert(t.last() == plans[k - 1]);
        assert(plans[k - 1].duration == s);
        assert(plans_total(t) == plans_total(t.drop_last()) + t.last().duration);
        assert(s * k == s * (k - 1) + s) by (nonlinear_arith);
    } else {
        assert(s * k == 0) by (nonlinear_arith)
            requires
                k == 0,
        ;
    }
}

/// The decimal text of `n` reads back as `n`.
pub proof fn lemma_decimal_reads_back(n: nat)
    ensures
        decimal_chars(n).len() > 0,
        all_digit_chars(decimal_chars(n)),
        digit_chars_value(decimal_chars(n)) == n,
    decreases n,
{
    let d = decimal_chars(n);
    if n < 10 {
        assert(d.drop_last() =~= Seq::<char>::empty());
        assert(digit_chars_value(d.drop_last()) == 0);
        assert(d.last() == digit_char(n as int));
        assert((digit_char(n as int) as nat) == 48 + n);
    } else {
        lemma_decimal_reads_back(n / 10);
        let p = decimal_chars(n / 10);
        assert(d == p.push(digit_char((n % 10) as int)));
        assert(d.drop_last() =~= p);
        assert((digit_char((n % 10) as int) as nat) == 48 + n % 10);
        assert((n / 10) * 10 + n % 10 == n) by (nonlinear_arith);
        assert forall|i: int| 0 <= i < d.len() implies is_digit_char(#[trigger] d[i]) by {
            if i < p.len() {
                assert(d[i] == p[i]);
            }
        }
    }
}

/// `<n>s` is `n` seconds.
pub proof fn law_seconds_suffix(n: u64)
    requires
        n > 0,
    ensures
        duration_value(decimal_chars(n as nat) + seq!['s']) == Some(n as nat),
        valid_duration_text(decimal_chars(n as nat) + seq!['s']),
{
    lemma_decimal_reads_back(n as nat);
    let t = decimal_chars(n as nat) + seq!['s'];
    assert(t.drop_last() =~= decimal_chars(n as nat));
    assert(t.last() == 's');
    assert(unit_secs(t.last()) == Some(1nat));
    assert(all_digit_chars(t.drop_last()));
    assert(digit_chars_value(t.drop_last()) == n);
    assert(duration_value(t) == Some(digit_chars_value(t.drop_last()) * 1));
}

/// Bare digits are seconds.
pub proof fn law_bare_number_is_seconds(n: u64)
    requires
        n > 0,
    ensures
        duration_value(decimal_chars(n as nat)) == Some(n as nat),
        valid_duration_text(decimal_chars(n as nat)),
{
    lemma_decimal_reads_back(n as nat);
    let d = decimal_chars(n as nat);
    assert(is_digit_char(d.last()));
}

/// A zero duration, bare or with any unit, is never valid.
pub proof fn law_zero_is_invalid(unit: Seq<char>)
    requires
        unit.len() == 0 || (unit.len() == 1 && unit_secs(unit[0]) is Some),
    ensures
        !valid_duration_text(seq!['0'] + unit),
{
    let t = seq!['0'] + unit;
    if unit.len() == 1 {
        assert(t.drop_last() =~= seq!['0']);
        assert(t.last() == unit[0]);
    } else {
        assert(t =~= seq!['0']);
    }
    assert(digit_chars_value(seq!['0']) == 0) by {
        assert(seq!['0'].drop_last() =~= Seq::<char>::empty());
        assert(digit_chars_value(Seq::<char>::empty()) == 0);
        assert(seq!['0'].last() == '0');
    }
    if unit.len() == 1 {
        assert(duration_value(t) == Some(0 * unit_secs(unit[0])->0));
    } else {
        assert(unit_secs('0') is None);
        assert(duration_value(t) == Some(0nat));
    }
}

/// A text that reads as a positive number of seconds that fits in 64 bits.
pub open spec fn valid_duration_text(s: Seq<char>) -> bool {
    duration_value(s) matches Some(v) && 0 < v <= u64::MAX
}

} // verus!
