//! Hardware encoder families and the resolution of a hardware preference into a
//! concrete ffmpeg encoder.

use vstd::prelude::*;
use vstd::string::StringExecFns;
use crate::transcode::config::{codec_debug, TranscodeCodec, TranscodeQuality};
use crate::transcode::error::TranscodeError;
use crate::text::{
    chars_eq, chars_of, decimal, kbps_string, kbps_text, push_lit, push_owned, push_str,
    split_chars, split_seq, str_eq, string_from_chars, string_views, u32_to_string, words,
    words_chars,
};

verus! {

/// Requested hardware acceleration backend.
#[derive(Clone, Copy, Debug, PartialEq, Eq, Structural)]
pub enum HwAccel {
    /// Force the CPU encoder.
    Cpu,
    /// NVIDIA NVENC.
    Nvenc,
    /// Intel QuickSync.
    Qsv,
    /// AMD AMF.
    Amf,
    /// Apple VideoToolbox.
    Videotoolbox,
    /// Pick the best available accelerator, else the CPU.
    Auto,
}

impl Default for HwAccel {
    fn default() -> (r: Self)
        ensures
            r == HwAccel::Auto,
    {
        HwAccel::Auto
    }
}

/// A concrete hardware encoder family.
#[derive(Clone, Copy, Debug, PartialEq, Eq, Structural)]
pub enum HwFamily {
    Nvenc,
    Qsv,
    Amf,
    Videotoolbox,
}

/// The ffmpeg encoder of a family for a codec, if the family has one.
pub open spec fn encoder_name_spec(f: HwFamily, c: TranscodeCodec) -> Option<Seq<char>> {
    match (f, c) {
        (HwFamily::Nvenc, TranscodeCodec::H264) => Some("h264_nvenc"@),
        (HwFamily::Nvenc, TranscodeCodec::Hevc) => Some("hevc_nvenc"@),
        (HwFamily::Nvenc, TranscodeCodec::Av1) => Some("av1_nvenc"@),
        (HwFamily::Qsv, TranscodeCodec::H264) => Some("h264_qsv"@),
        (HwFamily::Qsv, TranscodeCodec::Hevc) => Some("hevc_qsv"@),
        (HwFamily::Qsv, TranscodeCodec::Av1) => Some("av1_qsv"@),
        (HwFamily::Amf, TranscodeCodec::H264) => Some("h264_amf"@),
        (HwFamily::Amf, TranscodeCodec::Hevc) => Some("hevc_amf"@),
        (HwFamily::Videotoolbox, TranscodeCodec::H264) => Some("h264_videotoolbox"@),
        (HwFamily::Videotoolbox, TranscodeCodec::Hevc) => Some("hevc_videotoolbox"@),
        _ => None,
    }
}

/// The order in which `HwAccel::Auto` tries the families.
pub open spec fn auto_order() -> Seq<HwFamily> {
    seq![HwFamily::Nvenc, HwFamily::Qsv, HwFamily::Amf, HwFamily::Videotoolbox]
}

/// The family an explicit preference names.
pub open spec fn explicit_family_spec(p: HwAccel) -> Option<HwFamily> {
    match p {
        HwAccel::Nvenc => Some(HwFamily::Nvenc),
        HwAccel::Qsv => Some(HwFamily::Qsv),
        HwAccel::Amf => Some(HwFamily::Amf),
        HwAccel::Videotoolbox => Some(HwFamily::Videotoolbox),
        _ => None,
    }
}

/// The name a preference is printed with (`{:?}`).
pub open spec fn hw_accel_debug(p: HwAccel) -> Seq<char> {
    match p {
        HwAccel::Cpu => "None"@,
        HwAccel::Nvenc => "Nvenc"@,
        HwAccel::Qsv => "Qsv"@,
        HwAccel::Amf => "Amf"@,
        HwAccel::Videotoolbox => "Videotoolbox"@,
        HwAccel::Auto => "Auto"@,
    }
}

impl HwFamily {
    /// The ffmpeg encoder of this family for `codec`, or `None` when the family
    /// has no hardware encoder for it.
    pub fn encoder_name(self, codec: TranscodeCodec) -> (r: Option<&'static str>)
        ensures
            match r {
                Some(s) => encoder_name_spec(self, codec) == Some(s@),
                None => encoder_name_spec(self, codec) is None,
            },
    {
        match (self, codec) {
            (HwFamily::Nvenc, TranscodeCodec::H264) => Some("h264_nvenc"),
            (HwFamily::Nvenc, TranscodeCodec::Hevc) => Some("hevc_nvenc"),
            (HwFamily::Nvenc, TranscodeCodec::Av1) => Some("av1_nvenc"),
            (HwFamily::Qsv, TranscodeCodec::H264) => Some("h264_qsv"),
            (HwFamily::Qsv, TranscodeCodec::Hevc) => Some("hevc_qsv"),
            (HwFamily::Qsv, TranscodeCodec::Av1) => Some("av1_qsv"),
            (HwFamily::Amf, TranscodeCodec::H264) => Some("h264_amf"),
            (HwFamily::Amf, TranscodeCodec::Hevc) => Some("hevc_amf"),
            (HwFamily::Videotoolbox, TranscodeCodec::H264) => Some("h264_videotoolbox"),
            (HwFamily::Videotoolbox, TranscodeCodec::Hevc) => Some("hevc_videotoolbox"),
            _ => None,
        }
    }
}

impl HwAccel {
    /// The concrete family of an explicit request; `None` for `Auto` and `None`.
    pub fn explicit_family(self) -> (r: Option<HwFamily>)
        ensures
            r == explicit_family_spec(self),
    {
        match self {
            HwAccel::Nvenc => Some(HwFamily::Nvenc),
            HwAccel::Qsv => Some(HwFamily::Qsv),
            HwAccel::Amf => Some(HwFamily::Amf),
            HwAccel::Videotoolbox => Some(HwFamily::Videotoolbox),
            HwAccel::Cpu | HwAccel::Auto => None,
        }
    }

    /// The name this preference is printed with.
    pub fn debug_name(self) -> (r: &'static str)
        ensures
            r@ == hw_accel_debug(self),
    {
        match self {
            HwAccel::Cpu => "None",
            HwAccel::Nvenc => "Nvenc",
            HwAccel::Qsv => "Qsv",
            HwAccel::Amf => "Amf",
            HwAccel::Videotoolbox => "Videotoolbox",
            HwAccel::Auto => "Auto",
        }
    }
}

/// Whether a token is an encoder row's capability column: at least six
/// characters, each `.` or an ASCII capital.
pub open spec fn is_flag_column(t: Seq<char>) -> bool {
    t.len() >= 6 && forall|i: int| 0 <= i < t.len() ==> (t[i] == '.' || ('A' <= #[trigger] t[i] && t[i] <= 'Z'))
}

/// The encoder an `ffmpeg -encoders` line names: its second word, when its
/// first word is a capability column and the line is not a legend row (whose
/// second word is `=`, as in ` V..... = Video`).
pub open spec fn line_encoder(line: Seq<char>) -> Option<Seq<char>> {
    let w = words(line);
    if w.len() >= 2 && is_flag_column(w[0]) && w[1] != seq!['='] {
        Some(w[1])
    } else {
        None
    }
}

/// Whether some line of `output` names the encoder `name`.
pub open spec fn output_names(output: Seq<char>, name: Seq<char>) -> bool {
    exists|i: int| 0 <= i < split_seq(output, '\n').len() && #[trigger] line_encoder(split_seq(output, '\n')[i]) == Some(name)
}

/// The set of encoder names an ffmpeg build advertises. Each name is held once.
#[derive(Clone, Debug)]
pub struct AvailableEncoders {
    names: Vec<String>,
}

impl View for AvailableEncoders {
    type V = Set<Seq<char>>;

    closed spec fn view(&self) -> Set<Seq<char>> {
        string_views(self.names@).to_set()
    }
}

impl AvailableEncoders {
    /// Every name is held once.
    pub closed spec fn wf(&self) -> bool {
        string_views(self.names@).no_duplicates()
    }

    /// No encoder at all.
    pub fn empty() -> (r: Self)
        ensures
            r@ == Set::<Seq<char>>::empty(),
            r.wf(),
    {
        let r = AvailableEncoders { names: Vec::new() };
        assert(string_views(r.names@) =~= Seq::<Seq<char>>::empty());
        assert(r@ =~= Set::<Seq<char>>::empty());
        r
    }

    /// Whether `name` is among the encoders.
    pub fn contains(&self, name: &str) -> (b: bool)
        ensures
            b == self@.contains(name@),
    {
        let ghost sv = string_views(self.names@);
        let mut i: usize = 0;
        while i < self.names.len()
            invariant
                i <= self.names.len(),
                sv == string_views(self.names@),
                forall|j: int| 0 <= j < i ==> sv[j] != name@,
            decreases self.names.len() - i,
        {
            if str_eq(self.names[i].as_str(), name) {
                assert(sv[i as int] == name@);
                assert(sv.contains(name@));
                return true;
            }
            i = i + 1;
        }
        assert(!sv.contains(name@));
        false
    }

    /// Add `name` unless it is already held.
    fn insert(&mut self, name: String)
        requires
            old(self).wf(),
        ensures
            final(self).wf(),
            final(self)@ == old(self)@.insert(name@),
    {
        if !self.contains(name.as_str()) {
            let ghost before = string_views(self.names@);
            let ghost nv = name@;
            self.names.push(name);
            assert(string_views(self.names@) =~= before.push(nv));
            assert(string_views(self.names@).to_set() =~= before.to_set().insert(nv)) by {
                assert forall|x: Seq<char>| #[trigger] string_views(self.names@).contains(x) <==> (before.contains(x) || x == nv) by {
                    if x == nv {
                        assert(string_views(self.names@)[before.len() as int] == nv);
                    }
                    if before.contains(x) {
                        let j = choose|j: int| 0 <= j < before.len() && before[j] == x;
                        assert(string_views(self.names@)[j] == x);
                    }
                }
            }
        } else {
            assert(self@.insert(name@) =~= self@);
        }
    }

    /// The encoders of an explicit list of names.
    pub fn from_names(names: Vec<String>) -> (r: Self)
        ensures
            r.wf(),
            r@ == string_views(names@).to_set(),
    {
        let mut r = AvailableEncoders::empty();
        let mut i: usize = 0;
        while i < names.len()
            invariant
                i <= names.len(),
                r.wf(),
                r@ == string_views(names@).take(i as int).to_set(),
            decreases names.len() - i,
        {
            r.insert(names[i].clone());
            assert(string_views(names@).take(i + 1) =~= string_views(names@).take(i as int).push(
                names@[i as int]@,
            ));
            assert(string_views(names@).take(i + 1).to_set() =~= string_views(names@).take(
                i as int,
            ).to_set().insert(names@[i as int]@)) by {
                let a = string_views(names@).take(i as int);
                assert forall|x: Seq<char>| #[trigger] a.push(names@[i as int]@).contains(x) <==> (a.contains(x) || x == names@[i as int]@) by {
                    if x == names@[i as int]@ {
                        assert(a.push(names@[i as int]@)[a.len() as int] == x);
                    }
                    if a.contains(x) {
                        let j = choose|j: int| 0 <= j < a.len() && a[j] == x;
                        assert(a.push(names@[i as int]@)[j] == x);
                    }
                }
            }
            i = i + 1;
        }
        assert(string_views(names@).take(names.len() as int) =~= string_views(names@));
        r
    }

    /// The encoder names of `ffmpeg -hide_banner -encoders` output: the second
    /// word of every line whose first word is a capability column, legend rows
    /// (second word `=`) left out.
    pub fn from_ffmpeg_encoders_output(output: &str) -> (r: Self)
        ensures
            r.wf(),
            forall|n: Seq<char>| #[trigger] r@.contains(n) <==> output_names(output@, n),
    {
        let chars = chars_of(output);
        let lines = split_chars(chars.as_slice(), '\n');
        let ghost lv = lines@.map_values(|p: Vec<char>| p@);
        let mut r = AvailableEncoders::empty();
        let mut i: usize = 0;
        while i < lines.len()
            invariant
                i <= lines.len(),
                lv == lines@.map_values(|p: Vec<char>| p@),
                lv == split_seq(output@, '\n'),
                r.wf(),
                forall|n: Seq<char>| #[trigger] r@.contains(n) <==> exists|j: int| 0 <= j < i && #[trigger] line_encoder(lv[j]) == Some(n),
            decreases lines.len() - i,
        {
            let ws = words_chars(lines[i].as_slice());
            let ghost wv = ws@.map_values(|p: Vec<char>| p@);
            assert(lines@[i as int]@ == lv[i as int]);
            let mut found: Option<String> = None;
            if ws.len() >= 2 {
                let flags = &ws[0];
                assert(flags@ == wv[0]);
                let mut ok = flags.len() >= 6;
                let mut k: usize = 0;
                while k < flags.len()
                    invariant
                        k <= flags.len(),
                        ok == (flags.len() >= 6 && forall|m: int| 0 <= m < k ==> (flags@[m] == '.' || ('A' <= #[trigger] flags@[m] && flags@[m] <= 'Z'))),
                    decreases flags.len() - k,
                {
                    let c = flags[k];
                    if !(c == '.' || ('A' <= c && c <= 'Z')) {
                        ok = false;
                    }
                    k = k + 1;
                }
                let second = &ws[1];
                assert(second@ == wv[1]);
                let legend = second.len() == 1 && second[0] == '=';
                assert(legend <==> second@ == seq!['=']) by {
                    if second@.len() == 1 && second@[0] == '=' {
                        assert(second@ =~= seq!['=']);
                    }
                }
                if ok && !legend {
                    found = Some(string_from_chars(ws[1].as_slice()));
                }
            }
            let ghost before = r@;
            match found {
                Some(name) => {
                    assert(line_encoder(lv[i as int]) == Some(name@));
                    r.insert(name);
                },
                None => {
                    assert(line_encoder(lv[i as int]) is None);
                },
            }
            assert forall|n: Seq<char>| #[trigger] r@.contains(n) implies exists|j: int| 0 <= j < i + 1 && #[trigger] line_encoder(lv[j]) == Some(n) by {
                if before.contains(n) {
                    let j = choose|j: int| 0 <= j < i && #[trigger] line_encoder(lv[j]) == Some(n);
                    assert(line_encoder(lv[j]) == Some(n));
                } else {
                    assert(line_encoder(lv[i as int]) == Some(n));
                }
            }
            assert forall|n: Seq<char>| (exists|j: int| 0 <= j < i + 1 && #[trigger] line_encoder(lv[j]) == Some(n)) implies #[trigger] r@.contains(n) by {
                let j = choose|j: int| 0 <= j < i + 1 && #[trigger] line_encoder(lv[j]) == Some(n);
                if j < i {
                    assert(before.contains(n));
                }
            }
            i = i + 1;
        }
        r
    }
}

/// A resolved hardware encoder.
#[derive(Clone, Copy, Debug, PartialEq, Eq)]
pub struct ResolvedHwEncoder {
    pub family: HwFamily,
    pub encoder: &'static str,
}

/// The first family of `order` whose encoder for `codec` is in `avail`.
pub open spec fn first_available(codec: TranscodeCodec, avail: Set<Seq<char>>, order: Seq<HwFamily>) -> Option<
    HwFamily,
>
    decreases order.len(),
{
    if order.len() == 0 {
        None
    } else if encoder_name_spec(order[0], codec) is Some && avail.contains(
        encoder_name_spec(order[0], codec)->Some_0,
    ) {
        Some(order[0])
    } else {
        first_available(codec, avail, order.drop_first())
    }
}

/// What a hardware preference resolves to: `Ok(None)` for the CPU encoder,
/// `Ok(Some(family))` for that family's encoder, or the message of why a forced
/// backend is unavailable.
pub open spec fn resolve_spec(codec: TranscodeCodec, preference: HwAccel, avail: Set<Seq<char>>) -> Result<
    Option<HwFamily>,
    Seq<char>,
> {
    match preference {
        HwAccel::Cpu => Ok(None),
        HwAccel::Auto => Ok(first_available(codec, avail, auto_order())),
        _ => {
            let family = explicit_family_spec(preference)->Some_0;
            match encoder_name_spec(family, codec) {
                Some(encoder) => if avail.contains(encoder) {
                    Ok(Some(family))
                } else {
                    Err(encoder + " ("@ + hw_accel_debug(preference) + ") is not available in this ffmpeg build"@)
                },
                None => Err(hw_accel_debug(preference) + " has no hardware encoder for "@ + codec_debug(codec)),
            }
        },
    }
}

/// The encoder of `family` for `codec` when it is in `available`.
fn try_family(family: HwFamily, codec: TranscodeCodec, available: &AvailableEncoders) -> (r: Option<
    ResolvedHwEncoder,
>)
    ensures
        match r {
            Some(res) => res.family == family && encoder_name_spec(family, codec) == Some(res.encoder@)
                && available@.contains(res.encoder@),
            None => !(encoder_name_spec(family, codec) is Some && available@.contains(
                encoder_name_spec(family, codec)->Some_0,
            )),
        },
{
    match family.encoder_name(codec) {
        Some(encoder) => {
            if available.contains(encoder) {
                Some(ResolvedHwEncoder { family, encoder })
            } else {
                None
            }
        },
        None => None,
    }
}

/// Resolve a hardware preference into a concrete encoder: `None` gives the CPU,
/// `Auto` the first available family in NVENC, QSV, AMF, VideoToolbox order (else
/// the CPU), and an explicit family its encoder, or `HardwareAccelUnavailable`
/// when it is missing.
pub fn resolve_hw_encoder(codec: TranscodeCodec, preference: HwAccel, available: &AvailableEncoders) -> (r:
    Result<Option<ResolvedHwEncoder>, TranscodeError>)
    ensures
        match resolve_spec(codec, preference, available@) {
            Ok(None) => r == Ok::<Option<ResolvedHwEncoder>, TranscodeError>(None),
            Ok(Some(f)) => r matches Ok(Some(res)) && res.family == f && encoder_name_spec(f, codec)
                == Some(res.encoder@),
            Err(m) => r matches Err(TranscodeError::HardwareAccelUnavailable(e)) && e@ == m,
        },
{
    match preference {
        HwAccel::Cpu => Ok(None),
        HwAccel::Auto => {
            proof {
                reveal_with_fuel(first_available, 5);
                assert(auto_order().drop_first() =~= seq![HwFamily::Qsv, HwFamily::Amf, HwFamily::Videotoolbox]);
                assert(auto_order().drop_first().drop_first() =~= seq![HwFamily::Amf, HwFamily::Videotoolbox]);
                assert(auto_order().drop_first().drop_first().drop_first() =~= seq![HwFamily::Videotoolbox]);
                assert(auto_order().drop_first().drop_first().drop_first().drop_first() =~= Seq::<HwFamily>::empty());
            }
            if let Some(res) = try_family(HwFamily::Nvenc, codec, available) {
                return Ok(Some(res));
            }
            if let Some(res) = try_family(HwFamily::Qsv, codec, available) {
                return Ok(Some(res));
            }
            if let Some(res) = try_family(HwFamily::Amf, codec, available) {
                return Ok(Some(res));
            }
            if let Some(res) = try_family(HwFamily::Videotoolbox, codec, available) {
                return Ok(Some(res));
            }
            Ok(None)
        },
        _ => {
            let family = match preference.explicit_family() {
                Some(f) => f,
                None => {
                    return Ok(None);
                },
            };
            match family.encoder_name(codec) {
                Some(encoder) => {
                    if available.contains(encoder) {
                        Ok(Some(ResolvedHwEncoder { family, encoder }))
                    } else {
                        let mut v: Vec<char> = Vec::new();
                        push_str(&mut v, encoder);
                        push_str(&mut v, " (");
                        push_str(&mut v, preference.debug_name());
                        push_str(&mut v, ") is not available in this ffmpeg build");
                        assert(v@ =~= encoder@ + " ("@ + hw_accel_debug(preference)
                            + ") is not available in this ffmpeg build"@);
                        Err(TranscodeError::HardwareAccelUnavailable(string_from_chars(v.as_slice())))
                    }
                },
                None => {
                    let mut v: Vec<char> = Vec::new();
                    push_str(&mut v, preference.debug_name());
                    push_str(&mut v, " has no hardware encoder for ");
                    push_str(&mut v, codec.debug_name());
                    assert(v@ =~= hw_accel_debug(preference) + " has no hardware encoder for "@
                        + codec_debug(codec));
                    Err(TranscodeError::HardwareAccelUnavailable(string_from_chars(v.as_slice())))
                },
            }
        },
    }
}

/// The smaller of two numbers.
pub open spec fn min_nat(a: nat, b: nat) -> nat {
    if a <= b {
        a
    } else {
        b
    }
}

/// Rate-control arguments of a hardware family for a quality target, followed by
/// the `yuv420p` pixel format.
pub open spec fn hw_rate_control_spec(family: HwFamily, quality: TranscodeQuality) -> Seq<Seq<char>> {
    let body = match (family, quality) {
        (HwFamily::Nvenc, TranscodeQuality::Crf(crf)) => seq![
            "-rc"@,
            "vbr"@,
            "-cq"@,
            decimal(min_nat(crf as nat, 51)),
            "-b:v"@,
            "0"@,
        ],
        (HwFamily::Nvenc, TranscodeQuality::Bitrate(kbps)) => seq![
            "-rc"@,
            "vbr"@,
            "-b:v"@,
            kbps_text(kbps as nat),
        ],
        (HwFamily::Qsv, TranscodeQuality::Crf(crf)) => seq![
            "-global_quality"@,
            decimal(min_nat(crf as nat, 51)),
        ],
        (HwFamily::Amf, TranscodeQuality::Crf(crf)) => seq![
            "-rc"@,
            "cqp"@,
            "-qp_i"@,
            decimal(min_nat(crf as nat, 51)),
            "-qp_p"@,
            decimal(min_nat(crf as nat, 51)),
            "-qp_b"@,
            decimal(min_nat(crf as nat, 51)),
        ],
        (HwFamily::Amf, TranscodeQuality::Bitrate(kbps)) => seq![
            "-rc"@,
            "vbr_latency"@,
            "-b:v"@,
            kbps_text(kbps as nat),
        ],
        (HwFamily::Videotoolbox, TranscodeQuality::Crf(crf)) => seq![
            "-q:v"@,
            decimal(min_nat(crf as nat, 100)),
        ],
        (_, TranscodeQuality::Bitrate(kbps)) => seq!["-b:v"@, kbps_text(kbps as nat)],
    };
    body + seq!["-pix_fmt"@, "yuv420p"@]
}

/// Rate-control arguments for a hardware encoder family: each family's native
/// flags for a CRF or a bitrate target.
pub fn hw_rate_control_args(family: HwFamily, quality: TranscodeQuality) -> (r: Vec<String>)
    ensures
        string_views(r@) == hw_rate_control_spec(family, quality),
{
    let mut args: Vec<String> = Vec::new();
    match (family, quality) {
        (HwFamily::Nvenc, TranscodeQuality::Crf(crf)) => {
            let q = if crf < 51 { crf } else { 51 };
            push_lit(&mut args, "-rc");
            push_lit(&mut args, "vbr");
            push_lit(&mut args, "-cq");
            push_owned(&mut args, u32_to_string(q));
            push_lit(&mut args, "-b:v");
            push_lit(&mut args, "0");
        },
        (HwFamily::Nvenc, TranscodeQuality::Bitrate(kbps)) => {
            push_lit(&mut args, "-rc");
            push_lit(&mut args, "vbr");
            push_lit(&mut args, "-b:v");
            push_owned(&mut args, kbps_string(kbps));
        },
        (HwFamily::Qsv, TranscodeQuality::Crf(crf)) => {
            let q = if crf < 51 { crf } else { 51 };
            push_lit(&mut args, "-global_quality");
            push_owned(&mut args, u32_to_string(q));
        },
        (HwFamily::Qsv, TranscodeQuality::Bitrate(kbps)) => {
            push_lit(&mut args, "-b:v");
            push_owned(&mut args, kbps_string(kbps));
        },
        (HwFamily::Amf, TranscodeQuality::Crf(crf)) => {
            let q = if crf < 51 { crf } else { 51 };
            push_lit(&mut args, "-rc");
            push_lit(&mut args, "cqp");
            push_lit(&mut args, "-qp_i");
            push_owned(&mut args, u32_to_string(q));
            push_lit(&mut args, "-qp_p");
            push_owned(&mut args, u32_to_string(q));
            push_lit(&mut args, "-qp_b");
            push_owned(&mut args, u32_to_string(q));
        },
        (HwFamily::Amf, TranscodeQuality::Bitrate(kbps)) => {
            push_lit(&mut args, "-rc");
            push_lit(&mut args, "vbr_latency");
            push_lit(&mut args, "-b:v");
            push_owned(&mut args, kbps_string(kbps));
        },
        (HwFamily::Videotoolbox, TranscodeQuality::Crf(crf)) => {
            let q = if crf < 100 { crf } else { 100 };
            push_lit(&mut args, "-q:v");
            push_owned(&mut args, u32_to_string(q));
        },
        (HwFamily::Videotoolbox, TranscodeQuality::Bitrate(kbps)) => {
            push_lit(&mut args, "-b:v");
            push_owned(&mut args, kbps_string(kbps));
        },
    }
    push_lit(&mut args, "-pix_fmt");
    push_lit(&mut args, "yuv420p");
    assert(string_views(args@) =~= hw_rate_control_spec(family, quality));
    args
}


/// A bitrate target is in kilobits per second: for every hardware family, the
/// rate-control arguments of `Bitrate(kbps)` hold a `-b:v` flag, and every
/// `-b:v` flag among them is followed by the decimal of `kbps` with the unit
/// suffix `k`; the arguments end with the `yuv420p` pixel format.
pub proof fn law_hw_bitrate_is_in_kilobits(family: HwFamily, kbps: u32)
    ensures
        ({
            let a = hw_rate_control_spec(family, TranscodeQuality::Bitrate(kbps));
            &&& exists|i: int| 0 <= i && i + 1 < a.len() && #[trigger] a[i] == "-b:v"@
            &&& forall|i: int| 0 <= i < a.len() && #[trigger] a[i] == "-b:v"@ ==> i + 1 < a.len() && a[i + 1]
                == decimal(kbps as nat) + seq!['k']
            &&& a.len() >= 2 && a[a.len() - 2] == "-pix_fmt"@ && a[a.len() - 1] == "yuv420p"@
        }),
{
    reveal_strlit("-b:v");
    reveal_strlit("-rc");
    reveal_strlit("vbr");
    reveal_strlit("vbr_latency");
    reveal_strlit("-pix_fmt");
    reveal_strlit("yuv420p");
    let a = hw_rate_control_spec(family, TranscodeQuality::Bitrate(kbps));
    let k = decimal(kbps as nat) + seq!['k'];
    assert(kbps_text(kbps as nat) =~= k);
    match family {
        HwFamily::Nvenc | HwFamily::Amf => {
            assert(a[2] == "-b:v"@);
            assert forall|i: int| 0 <= i < a.len() && #[trigger] a[i] == "-b:v"@ implies i + 1 < a.len() && a[i + 1] == k by {
                if i == 0 {
                    assert(a[0][1] != "-b:v"@[1]);
                } else if i == 1 {
                    assert(a[1][0] != "-b:v"@[0]);
                } else if i == 3 {
                    assert(k.last() != "-b:v"@.last());
                } else if i == 4 {
                    assert(a[4][1] != "-b:v"@[1]);
                } else if i == 5 {
                    assert(a[5][0] != "-b:v"@[0]);
                }
            }
        },
        _ => {
            assert(a[0] == "-b:v"@);
            assert forall|i: int| 0 <= i < a.len() && #[trigger] a[i] == "-b:v"@ implies i + 1 < a.len() && a[i + 1] == k by {
                if i == 1 {
                    assert(k.last() != "-b:v"@.last());
                } else if i == 2 {
                    assert(a[2][1] != "-b:v"@[1]);
                } else if i == 3 {
                    assert(a[3][0] != "-b:v"@[0]);
                }
            }
        },
    }
}


/// Whether `family` has an encoder for `codec` among `avail`.
pub open spec fn family_available(family: HwFamily, codec: TranscodeCodec, avail: Set<Seq<char>>) -> bool {
    encoder_name_spec(family, codec) is Some && avail.contains(encoder_name_spec(family, codec)->Some_0)
}

/// How early `Auto` tries a family: NVENC, then QSV, then AMF, then VideoToolbox.
pub open spec fn auto_rank(family: HwFamily) -> int {
    match family {
        HwFamily::Nvenc => 0,
        HwFamily::Qsv => 1,
        HwFamily::Amf => 2,
        HwFamily::Videotoolbox => 3,
    }
}

/// How a hardware preference resolves: the CPU preference always means the
/// CPU encoder; `Auto` never fails, picks a family whose encoder for the codec
/// is available and that no available family precedes in the order NVENC, QSV,
/// AMF, VideoToolbox, and falls back to the CPU only when no family is
/// available; a forced family gives that family exactly when its encoder is
/// available and fails otherwise, never falling back to the CPU.
pub proof fn law_hardware_preference_resolution(codec: TranscodeCodec, preference: HwAccel, avail: Set<Seq<char>>)
    ensures
        preference == HwAccel::Cpu ==> resolve_spec(codec, preference, avail) == Ok::<Option<HwFamily>, Seq<char>>(None),
        preference == HwAccel::Auto ==> match resolve_spec(codec, preference, avail) {
            Err(_) => false,
            Ok(Some(f)) => family_available(f, codec, avail) && forall|g: HwFamily|
                auto_rank(g) < auto_rank(f) ==> !#[trigger] family_available(g, codec, avail),
            Ok(None) => forall|g: HwFamily| !#[trigger] family_available(g, codec, avail),
        },
        explicit_family_spec(preference) matches Some(f) ==> match resolve_spec(codec, preference, avail) {
            Ok(Some(g)) => g == f && family_available(f, codec, avail),
            Ok(None) => false,
            Err(_) => !family_available(f, codec, avail),
        },
{
    reveal_with_fuel(first_available, 5);
    assert(auto_order().drop_first() =~= seq![HwFamily::Qsv, HwFamily::Amf, HwFamily::Videotoolbox]);
    assert(auto_order().drop_first().drop_first() =~= seq![HwFamily::Amf, HwFamily::Videotoolbox]);
    assert(auto_order().drop_first().drop_first().drop_first() =~= seq![HwFamily::Videotoolbox]);
    assert(auto_order().drop_first().drop_first().drop_first().drop_first() =~= Seq::<HwFamily>::empty());
    if preference == HwAccel::Auto {
        assert forall|g: HwFamily|
            auto_rank(g) < auto_rank(first_available(codec, avail, auto_order())->Some_0)
                && first_available(codec, avail, auto_order()) is Some implies !#[trigger] family_available(g, codec, avail) by {
            match g {
                HwFamily::Nvenc => {},
                HwFamily::Qsv => {},
                HwFamily::Amf => {},
                HwFamily::Videotoolbox => {},
            }
        }
        assert forall|g: HwFamily| first_available(codec, avail, auto_order()) is None implies !#[trigger] family_available(g, codec, avail) by {
            match g {
                HwFamily::Nvenc => {},
                HwFamily::Qsv => {},
                HwFamily::Amf => {},
                HwFamily::Videotoolbox => {},
            }
        }
    }
}


/// A CRF target reaches every hardware family as its own quality number:
/// NVENC, QSV and AMF receive the CRF capped at 51, VideoToolbox the CRF
/// capped at 100; the arguments end with the `yuv420p` pixel format.
pub proof fn law_hw_crf_is_capped_quality(family: HwFamily, crf: u32)
    ensures
        ({
            let a = hw_rate_control_spec(family, TranscodeQuality::Crf(crf));
            let q = if family == HwFamily::Videotoolbox {
                if crf <= 100 { crf as nat } else { 100nat }
            } else {
                if crf <= 51 { crf as nat } else { 51nat }
            };
            &&& exists|i: int| 0 <= i < a.len() && #[trigger] a[i] == decimal(q)
            &&& a.len() >= 2 && a[a.len() - 2] == "-pix_fmt"@ && a[a.len() - 1] == "yuv420p"@
        }),
{
    let a = hw_rate_control_spec(family, TranscodeQuality::Crf(crf));
    match family {
        HwFamily::Nvenc => assert(a[3] == decimal(min_nat(crf as nat, 51))),
        HwFamily::Qsv => assert(a[1] == decimal(min_nat(crf as nat, 51))),
        HwFamily::Amf => assert(a[3] == decimal(min_nat(crf as nat, 51))),
        HwFamily::Videotoolbox => assert(a[1] == decimal(min_nat(crf as nat, 100))),
    }
}

} // verus!
