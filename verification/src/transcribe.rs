//! Voice transcription: cutting the captured audio into chunks at pauses, and the WAV
//! files that are sent off.

use crate::json::{json_at, JsonValue};
use vstd::prelude::*;

verus! {

/// The rate that is asked of the microphone.
pub const TARGET_SAMPLE_RATE: u32 = 16_000;

/// What the worker tells the window.
#[derive(Debug, Clone)]
pub enum TranscriptEvent {
    /// The microphone runs.
    Recording,
    /// A chunk was closed and sent off.
    ChunkPending { seq: u64 },
    /// The text of a chunk came back.
    Chunk { seq: u64, text: String },
    /// The recording has stopped and every chunk has come back: no chunk follows.
    Finished,
    Error(String),
}

/// What the window asks of the worker.
#[derive(Debug, Clone, Copy, PartialEq, Eq, Structural)]
pub enum TranscriptCmd {
    Stop,
}

// ───────────────────────────── chunks ─────────────────────────────
#[derive(Debug)]
pub struct AudioChunk {
    pub samples: Vec<i16>,
    pub sample_rate: u32,
}

/// Collects samples and cuts them at pauses.
#[derive(Debug)]
pub struct Chunker {
    sample_rate: u32,
    buf: Vec<i16>,
    /// How many samples in a row were silent, up to now.
    trailing_silence_samples: u32,
    /// How many of the collected samples were voiced.
    voiced_samples: u32,
    silence_close_samples: u32,
    min_chunk_samples: u32,
    max_chunk_samples: u32,
    window_samples: usize,
}

pub struct ChunkerView {
    pub rate: nat,
    pub buf: Seq<i16>,
    pub trailing: nat,
    pub voiced: nat,
}

impl View for Chunker {
    type V = ChunkerView;

    closed spec fn view(&self) -> ChunkerView {
        ChunkerView {
            rate: self.sample_rate as nat,
            buf: self.buf@,
            trailing: self.trailing_silence_samples as nat,
            voiced: self.voiced_samples as nat,
        }
    }
}

/// The samples of a window: 20 milliseconds, and at least 64.
pub open spec fn window_size(rate: nat) -> nat {
    if rate * 20 / 1000 < 64 {
        64
    } else {
        rate * 20 / 1000
    }
}

/// How many windows `n` samples fill; the last one may be short.
pub open spec fn window_count(n: nat, window: nat) -> nat {
    if window == 0 {
        0
    } else {
        (n + window - 1) as nat / window
    }
}

/// The length of window `k` of `n` samples.
pub open spec fn window_len(n: nat, window: nat, k: int) -> int {
    if (k + 1) * window <= n {
        window as int
    } else {
        n - k * window
    }
}

/// A sum that stops at the largest count.
pub open spec fn capped(n: int) -> nat {
    if n > u32::MAX {
        u32::MAX as nat
    } else {
        n as nat
    }
}

/// The silence at the end and the voiced samples, after the first `k` windows of `n`
/// samples were heard: a loud window ends the silence and counts as voiced.
pub open spec fn heard(
    c: ChunkerView,
    loud: Seq<bool>,
    n: nat,
    k: int,
) -> (nat, nat)
    decreases k,
{
    if k <= 0 {
        (c.trailing, c.voiced)
    } else {
        let before = heard(c, loud, n, k - 1);
        let len = window_len(n, window_size(c.rate), k - 1);
        if loud[k - 1] {
            (0, capped(before.1 + len))
        } else {
            (capped(before.0 + len), before.1)
        }
    }
}

/// A chunker that has collected more samples. `loud` says of each window of them whether it is
/// voiced.
pub open spec fn fed(c: ChunkerView, samples: Seq<i16>, loud: Seq<bool>) -> ChunkerView {
    let counts = heard(c, loud, samples.len(), loud.len() as int);
    ChunkerView { rate: c.rate, buf: c.buf + samples, trailing: counts.0, voiced: counts.1 }
}

/// Whether the collected samples are to be cut off: after a pause of half a second when
/// there are 1.4 seconds of them, at 25 seconds in any case, and at the end when there is
/// half a second of them.
pub open spec fn is_due(c: ChunkerView, force: bool) -> bool {
    c.buf.len() > 0 && ((c.trailing >= c.rate * 500 / 1000 && c.buf.len() >= c.rate * 1400 / 1000)
        || c.buf.len() >= c.rate * 25_000 / 1000 || (force && c.buf.len() >= c.rate / 2))
}

/// Whether less than a twenty-fifth of the collected samples is voiced.
pub open spec fn is_noise(c: ChunkerView) -> bool {
    25 * c.voiced < c.buf.len()
}

/// `s` with silence at its end, up to ten seconds.
pub open spec fn with_silence(s: Seq<i16>, rate: nat) -> Seq<i16> {
    if s.len() < 10 * rate {
        s + Seq::new((10 * rate - s.len()) as nat, |i: int| 0i16)
    } else {
        s
    }
}

/// A chunker with nothing in it.
pub open spec fn emptied(c: ChunkerView) -> ChunkerView {
    ChunkerView { rate: c.rate, buf: Seq::empty(), trailing: 0, voiced: 0 }
}

impl Chunker {
    pub closed spec fn wf(&self) -> bool {
        &&& self.sample_rate * 30 <= u32::MAX
        &&& self.silence_close_samples == self.sample_rate as nat * 500 / 1000
        &&& self.min_chunk_samples == self.sample_rate as nat * 1400 / 1000
        &&& self.max_chunk_samples == self.sample_rate as nat * 25_000 / 1000
        &&& self.window_samples == window_size(self.sample_rate as nat)
    }

    /// A chunker for this sample rate, which leaves room for half a minute in 32 bits.
    pub fn new(sample_rate: u32) -> (r: Chunker)
        requires
            sample_rate * 30 <= u32::MAX,
        ensures
            r.wf(),
            r@ == emptied(r@),
            r@.rate == sample_rate,
    {
        let rate: u64 = sample_rate as u64;
        let window: usize = (rate * 20 / 1000) as usize;
        let r = Chunker {
            sample_rate,
            buf: Vec::new(),
            trailing_silence_samples: 0,
            voiced_samples: 0,
            silence_close_samples: (rate * 500 / 1000) as u32,
            min_chunk_samples: (rate * 1400 / 1000) as u32,
            max_chunk_samples: (rate * 25_000 / 1000) as u32,
            window_samples: if window < 64 {
                64
            } else {
                window
            },
        };
        assert(r@.buf =~= Seq::empty());
        r
    }

    /// The samples of a window.
    pub fn window_samples(&self) -> (r: usize)
        requires
            self.wf(),
        ensures
            r == window_size(self@.rate),
    {
        self.window_samples
    }

    /// Whether so many more samples can be collected.
    pub fn has_room(&self, samples: usize) -> (r: bool)
        requires
            self.wf(),
        ensures
            r == (self@.buf.len() + samples <= usize::MAX),
    {
        samples <= usize::MAX - self.buf.len()
    }

    /// Collects samples. `loud` says of each window of them whether it is voiced.
    pub fn feed(&mut self, samples: &[i16], loud: &[bool])
        requires
            old(self).wf(),
            old(self)@.buf.len() + samples@.len() <= usize::MAX,
            loud@.len() == window_count(samples@.len(), window_size(old(self)@.rate)),
        ensures
            final(self).wf(),
            final(self)@ == fed(old(self)@, samples@, loud@),
    {
        let ghost first = self@;
        let n: usize = samples.len();
        let w: usize = self.window_samples;
        let mut k: usize = 0;
        let mut at: usize = 0;
        assert(loud@.len() * w <= n + w - 1) by {
            vstd::arithmetic::div_mod::lemma_fundamental_div_mod((n + w - 1) as int, w as int);
            assert(w * ((n + w - 1) as nat / w as nat) == ((n + w - 1) as nat / w as nat) * w)
                by (nonlinear_arith);
        }
        while k < loud.len()
            invariant
                k <= loud@.len(),
                n == samples@.len(),
                w == window_size(first.rate),
                w >= 64,
                loud@.len() * w <= n + w - 1,
                at == k * w || (k == loud@.len() && at == n),
                at <= n,
                self.wf(),
                self.window_samples == w,
                self@.rate == first.rate,
                self@.buf == first.buf,
                first.buf.len() + samples@.len() <= usize::MAX,
                (self@.trailing, self@.voiced) == heard(first, loud@, n as nat, k as int),
            decreases loud@.len() - k,
        {
            proof {
                assert((k + 1) * w <= loud@.len() * w) by (nonlinear_arith)
                    requires
                        k + 1 <= loud@.len(),
                        w >= 0,
                ;
                assert((k + 1) * w == k * w + w) by (nonlinear_arith);
                if k + 1 < loud@.len() {
                    assert((k + 2) * w <= loud@.len() * w) by (nonlinear_arith)
                        requires
                            k + 2 <= loud@.len(),
                            w >= 0,
                    ;
                    assert((k + 2) * w == k * w + 2 * w) by (nonlinear_arith);
                }
            }
            let len: usize = if n - at >= w {
                w
            } else {
                n - at
            };
            assert(len == window_len(n as nat, w as nat, k as int));
            if loud[k] {
                self.trailing_silence_samples = 0;
                self.voiced_samples = if len as u32 > u32::MAX - self.voiced_samples {
                    u32::MAX
                } else {
                    self.voiced_samples + len as u32
                };
            } else {
                self.trailing_silence_samples = if len as u32 > u32::MAX
                    - self.trailing_silence_samples {
                    u32::MAX
                } else {
                    self.trailing_silence_samples + len as u32
                };
            }
            at += len;
            k += 1;
        }
        self.buf.extend_from_slice(samples);
        assert(self@.buf =~= first.buf + samples@);
    }

    /// The next chunk, where one is due. Samples that are mostly silence are dropped
    /// instead. A chunk is filled up with silence to ten seconds, which is what is billed
    /// at least.
    pub fn take_ready_chunk(&mut self, force: bool) -> (r: Option<AudioChunk>)
        requires
            old(self).wf(),
        ensures
            final(self).wf(),
            r is Some <==> is_due(old(self)@, force) && !is_noise(old(self)@),
            final(self)@ == (if is_due(old(self)@, force) {
                emptied(old(self)@)
            } else {
                old(self)@
            }),
            r matches Some(c) ==> c.sample_rate == old(self)@.rate && c.samples@ == with_silence(
                old(self)@.buf,
                old(self)@.rate,
            ),
    {
        let ghost first = self@;
        let len: u64 = self.buf.len() as u64;
        if len == 0 {
            return None;
        }
        let pause: bool = self.trailing_silence_samples >= self.silence_close_samples && len
            >= self.min_chunk_samples as u64;
        let full: bool = len >= self.max_chunk_samples as u64;
        let flush: bool = force && len >= (self.sample_rate / 2) as u64;
        if !(pause || full || flush) {
            return None;
        }
        let noise: bool = (self.voiced_samples as u64) * 25 < len;
        let mut samples: Vec<i16> = Vec::new();
        std::mem::swap(&mut samples, &mut self.buf);
        self.trailing_silence_samples = 0;
        self.voiced_samples = 0;
        assert(self@.buf =~= Seq::empty());
        if noise {
            return None;
        }
        let needed: usize = 10 * self.sample_rate as usize;
        if samples.len() < needed {
            samples.resize(needed, 0);
        }
        assert(samples@ =~= with_silence(first.buf, first.rate));
        Some(AudioChunk { samples, sample_rate: self.sample_rate })
    }
}

/// Takes the next chunk and gives it the next number.
pub fn take_numbered_chunk(chunker: &mut Chunker, next_seq: &mut u64, force: bool) -> (r: Option<
    (u64, AudioChunk),
>)
    requires
        old(chunker).wf(),
        *old(next_seq) < u64::MAX,
    ensures
        final(chunker).wf(),
        final(chunker)@ == (if is_due(old(chunker)@, force) {
            emptied(old(chunker)@)
        } else {
            old(chunker)@
        }),
        r is Some <==> is_due(old(chunker)@, force) && !is_noise(old(chunker)@),
        *final(next_seq) == *old(next_seq) + (if r is Some {
            1int
        } else {
            0
        }),
        r matches Some(c) ==> c.0 == *old(next_seq) && c.1.sample_rate == old(chunker)@.rate
            && c.1.samples@ == with_silence(old(chunker)@.buf, old(chunker)@.rate),
{
    match chunker.take_ready_chunk(force) {
        Some(chunk) => {
            let seq: u64 = *next_seq;
            *next_seq = seq + 1;
            Some((seq, chunk))
        },
        None => None,
    }
}

/// What came in from the window since the worker last looked.
#[derive(Debug, Clone, Copy, PartialEq, Eq, Structural)]
pub enum Inbox {
    Nothing,
    Command(TranscriptCmd),
    /// The window is gone.
    Closed,
}

/// Whether the worker stops: it was told to, or the microphone or the window is gone. A
/// worker that stops takes what is left as a last chunk.
pub fn worker_stops(stopping: bool, microphone_gone: bool, inbox: Inbox) -> (r: bool)
    ensures
        r == (stopping || microphone_gone || inbox == Inbox::Command(TranscriptCmd::Stop) || inbox
            == Inbox::Closed),
{
    match inbox {
        Inbox::Nothing => stopping || microphone_gone,
        Inbox::Command(TranscriptCmd::Stop) => true,
        Inbox::Closed => true,
    }
}

/// Whether the worker may say that it has finished: it stops, and as many chunks have come
/// back as were sent off. Until then it waits, so that no chunk follows the end.
pub fn may_finish(stopping: bool, sent: u64, answered: u64) -> (r: bool)
    ensures
        r == (stopping && answered >= sent),
{
    stopping && answered >= sent
}

// ───────────────────────────── the microphone ─────────────────────────────
/// What a microphone can be set to.
#[derive(Debug, Clone, Copy)]
pub struct InputConfig {
    pub channels: u16,
    /// Whether its samples are signed 16-bit numbers.
    pub is_i16: bool,
    pub min_rate: u32,
    pub max_rate: u32,
}

/// Whether a setting gives what is asked for: one channel of signed samples at 16 kHz.
pub open spec fn suits(c: InputConfig) -> bool {
    c.channels == 1 && c.is_i16 && c.min_rate <= TARGET_SAMPLE_RATE && c.max_rate
        >= TARGET_SAMPLE_RATE
}

/// The first setting that suits.
pub fn preferred_config(configs: &Vec<InputConfig>) -> (r: Option<usize>)
    ensures
        match r {
            Some(i) => i < configs@.len() && suits(configs@[i as int]) && forall|k: int|
                0 <= k < i ==> !suits(#[trigger] configs@[k]),
            None => forall|k: int| 0 <= k < configs@.len() ==> !suits(#[trigger] configs@[k]),
        },
{
    let mut i: usize = 0;
    while i < configs.len()
        invariant
            i <= configs@.len(),
            forall|k: int| 0 <= k < i ==> !suits(#[trigger] configs@[k]),
        decreases configs@.len() - i,
    {
        let c: InputConfig = configs[i];
        if c.channels == 1 && c.is_i16 && c.min_rate <= TARGET_SAMPLE_RATE && c.max_rate
            >= TARGET_SAMPLE_RATE {
            return Some(i);
        }
        i += 1;
    }
    None
}

// ───────────────────────────── the request ─────────────────────────────
pub open spec fn field_views(fields: Seq<(String, String)>) -> Seq<(Seq<char>, Seq<char>)> {
    fields.map_values(|f: (String, String)| (f.0@, f.1@))
}

/// The text fields that go with a chunk: the model, the form of the answer, the
/// temperature, and the language where one is given.
pub open spec fn form_fields(language: Option<Seq<char>>) -> Seq<(Seq<char>, Seq<char>)> {
    let fixed = seq![
        ("model"@, "whisper-large-v3-turbo"@),
        ("response_format"@, "json"@),
        ("temperature"@, "0"@),
    ];
    match language {
        Some(l) => if l.len() > 0 {
            fixed.push(("language"@, l))
        } else {
            fixed
        },
        None => fixed,
    }
}

pub fn request_fields(language: &Option<String>) -> (r: Vec<(String, String)>)
    ensures
        field_views(r@) == form_fields(crate::canvas::optional_text(*language)),
{
    let mut r: Vec<(String, String)> = Vec::new();
    r.push(("model".to_owned(), "whisper-large-v3-turbo".to_owned()));
    r.push(("response_format".to_owned(), "json".to_owned()));
    r.push(("temperature".to_owned(), "0".to_owned()));
    if let Some(l) = language {
        if crate::text::chars_of(l.as_str()).len() > 0 {
            r.push(("language".to_owned(), l.clone()));
        }
    }
    assert(field_views(r@) =~= form_fields(crate::canvas::optional_text(*language)));
    r
}

/// The transcript in an answer: the value at `text`, or nothing where it is no text. An
/// answer that is not JSON is an error.
pub open spec fn transcript(text: crate::json::JsonView) -> Option<Seq<char>> {
    match text {
        crate::json::JsonView::Invalid => None,
        crate::json::JsonView::Text(t) => Some(t),
        _ => Some(Seq::empty()),
    }
}

pub fn transcript_from(text: &JsonValue) -> (r: Option<String>)
    ensures
        crate::canvas::optional_text(r) == transcript(text@),
{
    match text {
        JsonValue::Invalid => None,
        JsonValue::Text(t) => Some(t.clone()),
        _ => {
            let empty = String::new();
            assert(empty@ =~= Seq::empty());
            Some(empty)
        },
    }
}

/// The transcript in an answer, or why there is none: the request failed, or the answer is
/// not JSON.
pub fn read_answer(success: bool, status: &str, body: &str) -> (r: Result<String, String>)
    ensures
        if !success {
            r matches Err(e) && e@ == "groq "@ + status@ + ": "@ + body@
        } else {
            match transcript(crate::json::json_value(body@, "/text"@)) {
                Some(t) => r matches Ok(s) && s@ == t,
                None => r matches Err(e) && e@ == "parse groq response: "@ + body@,
            }
        },
{
    if !success {
        let mut e = "groq ".to_owned();
        e.append(status);
        e.append(": ");
        e.append(body);
        return Err(e);
    }
    match transcript_from(&json_at(body, "/text")) {
        Some(t) => Ok(t),
        None => {
            let mut e = "parse groq response: ".to_owned();
            e.append(body);
            Err(e)
        },
    }
}

// ───────────────────────────── WAV ─────────────────────────────
/// A byte of `n`, the lowest for `k` = 0.
pub open spec fn byte_of(n: nat, k: nat) -> u8
    decreases k,
{
    if k == 0 {
        (n % 256) as u8
    } else {
        byte_of(n / 256, (k - 1) as nat)
    }
}

pub open spec fn le16(n: nat) -> Seq<u8> {
    seq![byte_of(n, 0), byte_of(n, 1)]
}

pub open spec fn le32(n: nat) -> Seq<u8> {
    seq![byte_of(n, 0), byte_of(n, 1), byte_of(n, 2), byte_of(n, 3)]
}

/// A sample in two's complement.
pub open spec fn two_complement(s: i16) -> nat {
    if s < 0 {
        (s + 65536) as nat
    } else {
        s as nat
    }
}

/// The bytes of the first `n` samples.
pub open spec fn sample_bytes(samples: Seq<i16>, n: int) -> Seq<u8>
    decreases n,
{
    if n <= 0 {
        Seq::empty()
    } else {
        sample_bytes(samples, n - 1) + le16(two_complement(samples[n - 1]))
    }
}

/// The bytes of the word `RIFF`, `WAVE`, `fmt ` or `data`.
pub open spec fn word(a: u8, b: u8, c: u8, d: u8) -> Seq<u8> {
    seq![a, b, c, d]
}

/// The header of a mono file of 16-bit samples.
pub open spec fn wav_header(count: nat, rate: nat) -> Seq<u8> {
    word(82, 73, 70, 70) + le32(36 + 2 * count) + word(87, 65, 86, 69) + word(102, 109, 116, 32)
        + le32(16) + le16(1) + le16(1) + le32(rate) + le32(2 * rate) + le16(2) + le16(16) + word(
        100,
        97,
        116,
        97,
    ) + le32(2 * count)
}

/// A WAV file: the header and the samples.
pub open spec fn wav(samples: Seq<i16>, rate: nat) -> Seq<u8> {
    wav_header(samples.len(), rate) + sample_bytes(samples, samples.len() as int)
}

fn push_le16(out: &mut Vec<u8>, n: u16)
    ensures
        final(out)@ == old(out)@ + le16(n as nat),
{
    let ghost before = out@;
    reveal_with_fuel(byte_of, 2);
    out.push((n % 256) as u8);
    out.push((n / 256) as u8);
    assert(out@ =~= before + le16(n as nat));
}

fn push_le32(out: &mut Vec<u8>, n: u32)
    ensures
        final(out)@ == old(out)@ + le32(n as nat),
{
    let ghost before = out@;
    reveal_with_fuel(byte_of, 4);
    out.push((n % 256) as u8);
    out.push((n / 256 % 256) as u8);
    out.push((n / 256 / 256 % 256) as u8);
    out.push((n / 256 / 256 / 256) as u8);
    assert(out@ =~= before + le32(n as nat));
}

fn push_word(out: &mut Vec<u8>, a: u8, b: u8, c: u8, d: u8)
    ensures
        final(out)@ == old(out)@ + word(a, b, c, d),
{
    let ghost before = out@;
    out.push(a);
    out.push(b);
    out.push(c);
    out.push(d);
    assert(out@ =~= before + word(a, b, c, d));
}

/// Samples as a mono WAV file. Its sizes and its byte rate have to fit their 32 bits.
pub fn encode_wav(samples: &[i16], sample_rate: u32) -> (r: Vec<u8>)
    requires
        36 + 2 * samples@.len() <= u32::MAX,
        2 * sample_rate <= u32::MAX,
    ensures
        r@ == wav(samples@, sample_rate as nat),
{
    let n: usize = samples.len();
    let data: u32 = (n as u32) * 2;
    let mut out: Vec<u8> = Vec::new();
    push_word(&mut out, 82, 73, 70, 70);
    push_le32(&mut out, 36 + data);
    push_word(&mut out, 87, 65, 86, 69);
    push_word(&mut out, 102, 109, 116, 32);
    push_le32(&mut out, 16);
    push_le16(&mut out, 1);
    push_le16(&mut out, 1);
    push_le32(&mut out, sample_rate);
    push_le32(&mut out, sample_rate * 2);
    push_le16(&mut out, 2);
    push_le16(&mut out, 16);
    push_word(&mut out, 100, 97, 116, 97);
    push_le32(&mut out, data);
    assert(out@ =~= wav_header(n as nat, sample_rate as nat));
    let ghost header = out@;
    let mut i: usize = 0;
    assert(out@ =~= header + sample_bytes(samples@, 0));
    while i < n
        invariant
            i <= n,
            n == samples@.len(),
            out@ == header + sample_bytes(samples@, i as int),
        decreases n - i,
    {
        let s: i16 = samples[i];
        let bits: u16 = if s < 0 {
            (s as i32 + 65536) as u16
        } else {
            s as u16
        };
        push_le16(&mut out, bits);
        i += 1;
        assert(out@ =~= header + sample_bytes(samples@, i as int));
    }
    out
}

// ───────────────────────────── mixing down ─────────────────────────────
/// Division towards zero.
pub open spec fn quotient(a: int, b: int) -> int {
    if a >= 0 {
        a / b
    } else {
        -((-a) / b)
    }
}

/// The sum of `n` values from `from` on.
pub open spec fn sum_of(s: Seq<int>, from: int, n: int) -> int
    decreases n,
{
    if n <= 0 {
        0
    } else {
        sum_of(s, from, n - 1) + s[from + n - 1]
    }
}

/// One value for each full group of `channels` values: their average, towards zero. A
/// single channel stays as it is.
pub open spec fn mixed_down(s: Seq<int>, channels: nat) -> Seq<int> {
    if channels <= 1 {
        s
    } else {
        Seq::new(
            s.len() / channels,
            |g: int| quotient(sum_of(s, g * channels, channels as int), channels as int),
        )
    }
}

pub open spec fn sample_values(s: Seq<i16>) -> Seq<int> {
    s.map_values(|v: i16| v as int)
}

/// Unsigned samples lie around 32768.
pub open spec fn unsigned_values(s: Seq<u16>) -> Seq<int> {
    s.map_values(|v: u16| v - 32768)
}

fn mix_down(values: &Vec<i16>, channels: usize) -> (r: Vec<i16>)
    requires
        1 < channels <= 65535,
    ensures
        sample_values(r@) == mixed_down(sample_values(values@), channels as nat),
{
    let ghost all = sample_values(values@);
    let n: usize = values.len();
    let groups: usize = n / channels;
    let mut r: Vec<i16> = Vec::new();
    let mut g: usize = 0;
    proof {
        vstd::arithmetic::div_mod::lemma_fundamental_div_mod(n as int, channels as int);
        assert(channels * (n / channels) == (n / channels) * channels) by (nonlinear_arith);
    }
    while g < groups
        invariant
            g <= groups,
            groups == n / channels,
            groups * channels <= n,
            n == values@.len(),
            1 < channels <= 65535,
            all == sample_values(values@),
            r@.len() == g,
            forall|k: int|
                0 <= k < g ==> #[trigger] r@[k] == quotient(
                    sum_of(all, k * channels, channels as int),
                    channels as int,
                ),
        decreases groups - g,
    {
        assert(g * channels + channels <= groups * channels) by (nonlinear_arith)
            requires
                g + 1 <= groups,
                channels > 1,
        ;
        assert(0 <= g * channels) by (nonlinear_arith)
            requires
                g >= 0,
                channels > 1,
        ;
        let from: usize = g * channels;
        let mut sum: i64 = 0;
        let mut c: usize = 0;
        while c < channels
            invariant
                c <= channels,
                channels <= 65535,
                from + channels <= n,
                n == values@.len(),
                all == sample_values(values@),
                -32768 * c <= sum <= 32767 * c,
                sum == sum_of(all, from as int, c as int),
            decreases channels - c,
        {
            assert(all[from + c] == values@[from + c]);
            sum = sum + values[from + c] as i64;
            c += 1;
        }
        let d: u64 = channels as u64;
        let size: u64 = if sum >= 0 {
            sum as u64
        } else {
            (-sum) as u64
        };
        let q: u64 = size / d;
        proof {
            assert(size <= 32768 * d);
            assert(q <= 32768) by (nonlinear_arith)
                requires
                    size <= 32768 * d,
                    d > 1,
                    q == size / d,
            ;
            if sum >= 0 {
                assert(q <= 32767) by (nonlinear_arith)
                    requires
                        size <= 32767 * d,
                        d > 1,
                        q == size / d,
                ;
            }
        }
        let avg: i16 = if sum >= 0 {
            q as i16
        } else {
            (-(q as i32)) as i16
        };
        r.push(avg);
        g += 1;
    }
    assert(sample_values(r@) =~= mixed_down(all, channels as nat));
    r
}

/// Signed samples of one channel.
pub fn downmix_i16(samples: &[i16], channels: usize) -> (r: Vec<i16>)
    requires
        channels <= 65535,
    ensures
        sample_values(r@) == mixed_down(sample_values(samples@), channels as nat),
{
    let mut values: Vec<i16> = Vec::new();
    values.extend_from_slice(samples);
    assert(values@ =~= samples@);
    if channels <= 1 {
        return values;
    }
    mix_down(&values, channels)
}

/// Signed samples of one channel, from unsigned ones.
pub fn u16_to_i16_mono(samples: &[u16], channels: usize) -> (r: Vec<i16>)
    requires
        channels <= 65535,
    ensures
        sample_values(r@) == mixed_down(unsigned_values(samples@), channels as nat),
{
    let mut values: Vec<i16> = Vec::new();
    let mut i: usize = 0;
    while i < samples.len()
        invariant
            i <= samples@.len(),
            values@.len() == i,
            forall|k: int| 0 <= k < i ==> #[trigger] values@[k] == samples@[k] - 32768,
        decreases samples@.len() - i,
    {
        values.push((samples[i] as i32 - 32768) as i16);
        i += 1;
    }
    assert(sample_values(values@) =~= unsigned_values(samples@));
    if channels <= 1 {
        return values;
    }
    mix_down(&values, channels)
}

// ───────────────────────────── laws ─────────────────────────────
proof fn lemma_sample_bytes(samples: Seq<i16>, n: int)
    requires
        0 <= n <= samples.len(),
    ensures
        sample_bytes(samples, n).len() == 2 * n,
        forall|i: int|
            #![trigger samples[i]]
            0 <= i < n ==> sample_bytes(samples, n)[2 * i] == byte_of(two_complement(samples[i]), 0)
                && sample_bytes(samples, n)[2 * i + 1] == byte_of(two_complement(samples[i]), 1),
    decreases n,
{
    if n > 0 {
        lemma_sample_bytes(samples, n - 1);
    }
}

/// The sample that two bytes hold.
pub open spec fn sample_from(lo: u8, hi: u8) -> int {
    let n = lo + 256 * hi;
    if n >= 32768 {
        n - 65536
    } else {
        n
    }
}

proof fn lemma_header_length(count: nat, rate: nat)
    ensures
        wav_header(count, rate).len() == 44,
{
}

proof fn lemma_bytes_of_a_sample(s: i16)
    ensures
        sample_from(byte_of(two_complement(s), 0), byte_of(two_complement(s), 1)) == s,
{
    reveal_with_fuel(byte_of, 2);
    let n = two_complement(s);
    assert(byte_of(n, 0) == n % 256);
    assert(byte_of(n, 1) == n / 256);
}

/// A WAV file is its header of 44 bytes and two bytes for each sample, and every sample can
/// be read back.
pub proof fn law_wav_samples_come_back(samples: Seq<i16>, rate: nat, i: int)
    requires
        0 <= i < samples.len(),
    ensures
        wav(samples, rate).len() == 44 + 2 * samples.len(),
        sample_from(wav(samples, rate)[44 + 2 * i], wav(samples, rate)[45 + 2 * i]) == samples[i],
{
    let header = wav_header(samples.len(), rate);
    let bytes = sample_bytes(samples, samples.len() as int);
    lemma_header_length(samples.len(), rate);
    lemma_sample_bytes(samples, samples.len() as int);
    lemma_bytes_of_a_sample(samples[i]);
    assert(wav(samples, rate) == header + bytes);
    assert((header + bytes)[44 + 2 * i] == bytes[2 * i]);
    assert((header + bytes)[45 + 2 * i] == bytes[2 * i + 1]);
}

/// A chunk is never shorter than ten seconds and starts with the samples that were
/// collected.
pub proof fn law_chunks_are_filled_up(s: Seq<i16>, rate: nat)
    ensures
        with_silence(s, rate).len() >= 10 * rate,
        with_silence(s, rate).len() >= s.len(),
        with_silence(s, rate).take(s.len() as int) == s,
{
    assert(with_silence(s, rate).take(s.len() as int) =~= s);
}

/// Window `k` of some samples.
pub open spec fn window_at(samples: Seq<i16>, window: nat, k: int) -> Seq<i16> {
    samples.subrange(k * window, k * window + window_len(samples.len(), window, k))
}

/// Of each window of some samples whether it is voiced, which `voiced` says of a window.
pub open spec fn loudness(
    samples: Seq<i16>,
    window: nat,
    voiced: spec_fn(Seq<i16>) -> bool,
) -> Seq<bool> {
    Seq::new(
        window_count(samples.len(), window),
        |k: int| voiced(window_at(samples, window, k)),
    )
}

proof fn lemma_whole_windows(n: nat, rest: nat, window: nat)
    requires
        window > 0,
        n % window == 0,
    ensures
        window_count(n, window) * window == n,
        window_count(n + rest, window) == window_count(n, window) + window_count(rest, window),
{
    let q = (n / window) as int;
    let w = window as int;
    vstd::arithmetic::div_mod::lemma_fundamental_div_mod(n as int, w);
    assert(n == q * w) by (nonlinear_arith)
        requires
            n == w * q,
    ;
    vstd::arithmetic::div_mod::lemma_hoist_over_denominator(w - 1, q, window);
    vstd::arithmetic::div_mod::lemma_hoist_over_denominator(rest + w - 1, q, window);
    assert((w - 1) / w == 0) by {
        vstd::arithmetic::div_mod::lemma_basic_div(w - 1, w);
    }
    assert(window_count(n, window) == q);
}

proof fn lemma_windows_lie_apart(n: nat, rest: nat, window: nat, k: int)
    requires
        window > 0,
        n % window == 0,
        0 <= k,
    ensures
        k < window_count(n, window) ==> (k + 1) * window <= n && window_len(n + rest, window, k)
            == window && window_len(n, window, k) == window,
        k >= window_count(n, window) ==> window_len(n + rest, window, k) == window_len(
            rest,
            window,
            k - window_count(n, window),
        ) && k * window == n + (k - window_count(n, window)) * window,
{
    lemma_whole_windows(n, rest, window);
    let q = window_count(n, window) as int;
    let w = window as int;
    if k < q {
        assert((k + 1) * w <= q * w) by (nonlinear_arith)
            requires
                k + 1 <= q,
                w > 0,
        ;
    } else {
        assert(k * w == q * w + (k - q) * w) by (nonlinear_arith);
        assert((k + 1) * w == q * w + (k - q + 1) * w) by (nonlinear_arith);
    }
}

proof fn lemma_windows_stay_the_same(a: Seq<i16>, b: Seq<i16>, window: nat, k: int)
    requires
        window > 0,
        a.len() % window == 0,
        0 <= k < window_count(a.len() + b.len(), window),
    ensures
        window_at(a + b, window, k) == (if k < window_count(a.len(), window) {
            window_at(a, window, k)
        } else {
            window_at(b, window, k - window_count(a.len(), window))
        }),
{
    let q = window_count(a.len(), window) as int;
    let w = window as int;
    lemma_whole_windows(a.len(), b.len(), window);
    lemma_windows_lie_apart(a.len(), b.len(), window, k);
    if k < q {
        assert(0 <= k * w && k * w + w == (k + 1) * w) by (nonlinear_arith)
            requires
                0 <= k,
                0 < w,
        ;
        assert(window_at(a + b, window, k) =~= window_at(a, window, k));
    } else {
        let j = k - q;
        let n = b.len() as int;
        let count = window_count(b.len(), window) as int;
        vstd::arithmetic::div_mod::lemma_fundamental_div_mod(n + w - 1, w);
        assert(0 <= j * w && j * w < n) by (nonlinear_arith)
            requires
                0 <= j < count,
                0 < w,
                w * count <= n + w - 1,
        ;
        assert((j + 1) * w == j * w + w) by (nonlinear_arith);
        assert(window_at(a + b, window, k) =~= window_at(b, window, j));
    }
}

proof fn lemma_heard_in_parts(
    c: ChunkerView,
    a: Seq<i16>,
    b: Seq<i16>,
    x: Seq<bool>,
    y: Seq<bool>,
    k: int,
)
    requires
        a.len() % window_size(c.rate) == 0,
        x.len() == window_count(a.len(), window_size(c.rate)),
        y.len() == window_count(b.len(), window_size(c.rate)),
        0 <= k <= x.len() + y.len(),
    ensures
        heard(c, x + y, a.len() + b.len(), k) == (if k <= x.len() {
            heard(c, x, a.len(), k)
        } else {
            heard(fed(c, a, x), y, b.len(), k - x.len())
        }),
    decreases k,
{
    if k > 0 {
        lemma_heard_in_parts(c, a, b, x, y, k - 1);
        lemma_windows_lie_apart(a.len(), b.len(), window_size(c.rate), k - 1);
        if k <= x.len() {
            assert((x + y)[k - 1] == x[k - 1]);
        } else {
            let c2 = fed(c, a, x);
            assert((x + y)[k - 1] == y[k - 1 - x.len()]);
            assert(heard(c2, y, b.len(), 0) == (c2.trailing, c2.voiced));
            assert(heard(c, x + y, a.len() + b.len(), k - 1) == heard(
                c2,
                y,
                b.len(),
                k - 1 - x.len(),
            ));
        }
    }
}

/// Samples may come in parts: hearing whole windows and then the rest is the same as hearing
/// them all at once. Nothing is dropped, the order is kept, and the counts are the same.
pub proof fn law_samples_may_come_in_parts(
    c: ChunkerView,
    a: Seq<i16>,
    b: Seq<i16>,
    voiced: spec_fn(Seq<i16>) -> bool,
)
    requires
        a.len() % window_size(c.rate) == 0,
    ensures
        ({
            let window = window_size(c.rate);
            fed(fed(c, a, loudness(a, window, voiced)), b, loudness(b, window, voiced)) == fed(
                c,
                a + b,
                loudness(a + b, window, voiced),
            )
        }),
{
    let window = window_size(c.rate);
    let x = loudness(a, window, voiced);
    let y = loudness(b, window, voiced);
    let z = loudness(a + b, window, voiced);
    let n = x.len() as int;
    lemma_whole_windows(a.len(), b.len(), window);
    assert(z.len() == n + y.len());
    assert forall|k: int| 0 <= k < z.len() implies #[trigger] z[k] == (x + y)[k] by {
        lemma_windows_stay_the_same(a, b, window, k);
    }
    assert(z =~= x + y);
    lemma_heard_in_parts(c, a, b, x, y, z.len() as int);
    assert((c.buf + a) + b =~= c.buf + (a + b));
}

/// When samples are cut off, at a sample rate that tenths of a second divide: after half a
/// second of silence where there are 1.4 seconds of them, at 25 seconds in any case, and when
/// it is asked for where there is half a second. Without samples nothing is.
pub proof fn law_chunks_are_cut_in_time(c: ChunkerView, force: bool)
    requires
        c.rate % 10 == 0,
    ensures
        is_due(c, force) <==> c.buf.len() > 0 && ((2 * c.trailing >= c.rate && 10 * c.buf.len()
            >= 14 * c.rate) || c.buf.len() >= 25 * c.rate || (force && 2 * c.buf.len() >= c.rate)),
        is_noise(c) <==> 100 * c.voiced < 4 * c.buf.len(),
{
    assert(c.rate * 500 / 1000 == c.rate / 2);
    assert(c.rate * 1400 / 1000 == 14 * (c.rate / 10));
    assert(c.rate * 25_000 / 1000 == 25 * c.rate);
}

/// How many samples are in the first `k` windows of `n`.
spec fn in_windows(n: nat, window: nat, k: int) -> int
    decreases k,
{
    if k <= 0 {
        0
    } else {
        in_windows(n, window, k - 1) + window_len(n, window, k - 1)
    }
}

proof fn lemma_in_windows(n: nat, window: nat, k: int)
    requires
        window > 0,
        0 <= k <= window_count(n, window),
    ensures
        in_windows(n, window, k) == (if k * window <= n {
            k * window
        } else {
            n as int
        }),
        k < window_count(n, window) ==> k * window < n,
        k == window_count(n, window) ==> k * window >= n,
    decreases k,
{
    let w = window as int;
    let count = window_count(n, window) as int;
    vstd::arithmetic::div_mod::lemma_fundamental_div_mod(n + w - 1, w);
    vstd::arithmetic::div_mod::lemma_mod_bound(n + w - 1, w);
    assert(w * count == count * w) by (nonlinear_arith);
    if k < count {
        assert(k * w + w <= count * w) by (nonlinear_arith)
            requires
                k + 1 <= count,
                w > 0,
        ;
    }
    if k > 0 {
        lemma_in_windows(n, window, k - 1);
        assert((k - 1) * w + w == k * w) by (nonlinear_arith);
        assert((k - 1 + 1) * window == k * w);
    } else {
        assert(0 * w == 0) by (nonlinear_arith);
    }
}

proof fn lemma_heard_silence(c: ChunkerView, loud: Seq<bool>, n: nat, k: int)
    requires
        c.trailing <= u32::MAX,
        0 <= k <= loud.len(),
        loud.len() == window_count(n, window_size(c.rate)),
        forall|i: int| 0 <= i < loud.len() ==> !#[trigger] loud[i],
    ensures
        heard(c, loud, n, k).0 == capped(c.trailing + in_windows(n, window_size(c.rate), k)),
        heard(c, loud, n, k).1 == c.voiced,
        0 <= in_windows(n, window_size(c.rate), k),
    decreases k,
{
    if k > 0 {
        lemma_heard_silence(c, loud, n, k - 1);
        lemma_in_windows(n, window_size(c.rate), k - 1);
        lemma_in_windows(n, window_size(c.rate), k);
        assert(!loud[k - 1]);
        let w = window_size(c.rate) as int;
        assert((k - 1) * w + w == k * w) by (nonlinear_arith);
    }
}

proof fn lemma_heard_voice(c: ChunkerView, loud: Seq<bool>, n: nat, k: int)
    requires
        c.voiced <= u32::MAX,
        0 <= k <= loud.len(),
        loud.len() == window_count(n, window_size(c.rate)),
        forall|i: int| 0 <= i < loud.len() ==> #[trigger] loud[i],
    ensures
        heard(c, loud, n, k).1 == capped(c.voiced + in_windows(n, window_size(c.rate), k)),
        heard(c, loud, n, k).0 == (if k > 0 {
            0
        } else {
            c.trailing
        }),
        0 <= in_windows(n, window_size(c.rate), k),
    decreases k,
{
    if k > 0 {
        lemma_heard_voice(c, loud, n, k - 1);
        lemma_in_windows(n, window_size(c.rate), k - 1);
        lemma_in_windows(n, window_size(c.rate), k);
        assert(loud[k - 1]);
        let w = window_size(c.rate) as int;
        assert((k - 1) * w + w == k * w) by (nonlinear_arith);
    }
}

/// Silent samples add to the silence, all of them, and to nothing else; loud ones end it and
/// count as voiced, all of them. Whatever they are, they are collected behind the others.
pub proof fn law_silence_and_voice_add_up(c: ChunkerView, samples: Seq<i16>, loud: Seq<bool>)
    requires
        loud.len() == window_count(samples.len(), window_size(c.rate)),
        c.trailing + samples.len() <= u32::MAX,
        c.voiced + samples.len() <= u32::MAX,
    ensures
        fed(c, samples, loud).buf == c.buf + samples,
        fed(c, samples, loud).rate == c.rate,
        (forall|i: int| 0 <= i < loud.len() ==> !#[trigger] loud[i]) ==> fed(c, samples, loud).trailing
            == c.trailing + samples.len() && fed(c, samples, loud).voiced == c.voiced,
        samples.len() > 0 && (forall|i: int| 0 <= i < loud.len() ==> #[trigger] loud[i]) ==> fed(
            c,
            samples,
            loud,
        ).trailing == 0 && fed(c, samples, loud).voiced == c.voiced + samples.len(),
{
    let w = window_size(c.rate);
    let n = samples.len();
    lemma_in_windows(n, w, loud.len() as int);
    if forall|i: int| 0 <= i < loud.len() ==> !#[trigger] loud[i] {
        lemma_heard_silence(c, loud, n, loud.len() as int);
        lemma_all_windows(n, w);
    }
    if samples.len() > 0 && (forall|i: int| 0 <= i < loud.len() ==> #[trigger] loud[i]) {
        lemma_heard_voice(c, loud, n, loud.len() as int);
        lemma_all_windows(n, w);
        assert(loud.len() > 0) by {
            if loud.len() == 0 {
                lemma_in_windows(n, w, 0);
                assert(0 * w == 0) by (nonlinear_arith);
            }
        }
    }
}

proof fn lemma_all_windows(n: nat, window: nat)
    requires
        window > 0,
    ensures
        in_windows(n, window, window_count(n, window) as int) == n,
{
    let count = window_count(n, window) as int;
    lemma_in_windows(n, window, count);
}

/// A window lasts a fiftieth of a second, and has at least 64 samples.
pub proof fn law_windows_last_a_fiftieth(rate: nat)
    ensures
        window_size(rate) >= 64,
        rate >= 3200 ==> window_size(rate) * 50 <= rate < (window_size(rate) + 1) * 50,
        rate < 3200 ==> window_size(rate) == 64,
{
}

/// What is added to a short chunk is silence, and a long one stays as it is.
pub proof fn law_chunks_are_filled_with_silence(s: Seq<i16>, rate: nat, i: int)
    ensures
        with_silence(s, rate).len() == (if s.len() < 10 * rate {
            10 * rate
        } else {
            s.len()
        }),
        s.len() <= i < with_silence(s, rate).len() ==> with_silence(s, rate)[i] == 0,
        s.len() >= 10 * rate ==> with_silence(s, rate) == s,
{
}

/// What goes with a chunk: the model, an answer in JSON, no randomness, and the language only
/// where one is given.
pub proof fn law_requests_name_the_language_they_are_given(language: Seq<char>)
    ensures
        form_fields(None).len() == 3,
        form_fields(None)[0] == ("model"@, "whisper-large-v3-turbo"@),
        form_fields(None)[1] == ("response_format"@, "json"@),
        form_fields(None)[2] == ("temperature"@, "0"@),
        form_fields(Some(Seq::empty())) == form_fields(None),
        language.len() > 0 ==> form_fields(Some(language)) == form_fields(None).push(
            ("language"@, language),
        ),
{
}

/// The microphone setting that is taken has one channel, signed samples and 16 kHz in its
/// range, and every such one may be.
pub proof fn law_settings_that_suit(c: InputConfig)
    ensures
        suits(c) <==> c.channels == 1 && c.is_i16 && c.min_rate <= 16_000 <= c.max_rate,
{
}

proof fn lemma_equal_sum(s: Seq<int>, from: int, n: int, v: int)
    requires
        0 <= from,
        0 <= n,
        from + n <= s.len(),
        forall|i: int| from <= i < from + n ==> #[trigger] s[i] == v,
    ensures
        sum_of(s, from, n) == n * v,
    decreases n,
{
    if n > 0 {
        lemma_equal_sum(s, from, n - 1, v);
        assert(s[from + n - 1] == v);
        assert((n - 1) * v + v == n * v) by (nonlinear_arith);
    } else {
        assert(0 * v == 0) by (nonlinear_arith);
    }
}

/// Mixing down gives one sample for each full group, and where all channels say the same, that
/// is what is left. One channel stays as it is.
pub proof fn law_equal_channels_stay(s: Seq<int>, channels: nat, g: int, v: int)
    requires
        channels >= 1,
        0 <= g,
        (g + 1) * channels <= s.len(),
        forall|i: int| g * channels <= i < (g + 1) * channels ==> #[trigger] s[i] == v,
    ensures
        g < mixed_down(s, channels).len(),
        mixed_down(s, channels)[g] == v,
        mixed_down(s, channels).len() == s.len() / channels,
        mixed_down(s, 1) == s,
{
    let c = channels as int;
    assert((g + 1) * c == g * c + c) by (nonlinear_arith);
    assert(g * c >= 0) by (nonlinear_arith)
        requires
            g >= 0,
            c >= 0,
    ;
    if channels > 1 {
        lemma_equal_sum(s, g * c, c, v);
        vstd::arithmetic::div_mod::lemma_fundamental_div_mod(s.len() as int, c);
        assert(g < s.len() as int / c) by {
            let q = s.len() as int / c;
            let r = s.len() as int % c;
            vstd::arithmetic::div_mod::lemma_mod_bound(s.len() as int, c);
            if g >= q {
                assert((g + 1) * c >= c * q + c) by (nonlinear_arith)
                    requires
                        g >= q,
                        c > 0,
                ;
            }
        }
        let total = c * v;
        assert(quotient(total, c) == v) by {
            if v >= 0 {
                assert(total >= 0) by (nonlinear_arith)
                    requires
                        total == c * v,
                        c > 0,
                        v >= 0,
                ;
                vstd::arithmetic::div_mod::lemma_div_multiples_vanish(v, c);
            } else {
                assert(total < 0) by (nonlinear_arith)
                    requires
                        total == c * v,
                        c > 0,
                        v < 0,
                ;
                assert(-total == c * (-v)) by (nonlinear_arith)
                    requires
                        total == c * v,
                ;
                vstd::arithmetic::div_mod::lemma_div_multiples_vanish(-v, c);
            }
        }
    } else {
        assert(g * 1 == g) by (nonlinear_arith);
        assert(s[g] == v);
        assert(s.len() as int / 1 == s.len());
    }
}

/// A chunker that was emptied keeps its rate and nothing else, so that nothing is due.
pub proof fn law_nothing_is_left_in_an_emptied_chunker(c: ChunkerView, force: bool)
    ensures
        emptied(c).rate == c.rate,
        emptied(c).buf.len() == 0 && emptied(c).trailing == 0 && emptied(c).voiced == 0,
        emptied(emptied(c)) == emptied(c),
{
}

/// An answer's text is its transcript, whatever it is; an answer without one has an empty
/// transcript, and only what is no JSON is none.
pub proof fn law_answers_are_read(text: crate::json::JsonView)
    ensures
        transcript(text) is None <==> text is Invalid,
        text matches crate::json::JsonView::Text(t) ==> transcript(text) == Some(t),
        !(text is Invalid) && !(text is Text) ==> transcript(text) == Some(Seq::<char>::empty()),
{
}

/// The value of four bytes of which the first is the lowest.
pub open spec fn value_of_bytes(b: Seq<u8>, i: int) -> int {
    b[i] + 256 * b[i + 1] + 65_536 * b[i + 2] + 16_777_216 * b[i + 3]
}

proof fn lemma_four_bytes(n: nat)
    requires
        n < 0x1_0000_0000,
    ensures
        le32(n).len() == 4,
        value_of_bytes(le32(n), 0) == n,
{
    reveal_with_fuel(byte_of, 4);
    let b = le32(n);
    assert(b[0] == n % 256);
    assert(b[1] == n / 256 % 256);
    assert(b[2] == n / 256 / 256 % 256);
    assert(b[3] == n / 256 / 256 / 256 % 256);
}

/// The header of a WAV file says what follows: the marks of the format at their places, the
/// length of the file behind its first eight bytes, plain samples of one channel and 16 bits,
/// the rate in samples and in bytes, and the length of the samples.
pub proof fn law_wav_headers_say_what_follows(samples: Seq<i16>, rate: nat)
    requires
        44 + 2 * samples.len() < 0x1_0000_0000,
        2 * rate < 0x1_0000_0000,
    ensures
        ({
            let f = wav(samples, rate);
            &&& f[0] == 'R' as u8 && f[1] == 'I' as u8 && f[2] == 'F' as u8 && f[3] == 'F' as u8
            &&& value_of_bytes(f, 4) == f.len() - 8
            &&& f[8] == 'W' as u8 && f[9] == 'A' as u8 && f[10] == 'V' as u8 && f[11] == 'E' as u8
            &&& f[12] == 'f' as u8 && f[13] == 'm' as u8 && f[14] == 't' as u8 && f[15]
                == ' ' as u8
            &&& value_of_bytes(f, 16) == 16
            &&& f[20] == 1 && f[21] == 0 && f[22] == 1 && f[23] == 0
            &&& value_of_bytes(f, 24) == rate
            &&& value_of_bytes(f, 28) == 2 * rate
            &&& f[32] == 2 && f[33] == 0 && f[34] == 16 && f[35] == 0
            &&& f[36] == 'd' as u8 && f[37] == 'a' as u8 && f[38] == 't' as u8 && f[39]
                == 'a' as u8
            &&& value_of_bytes(f, 40) == f.len() - 44
        }),
{
    reveal_with_fuel(byte_of, 4);
    let n = samples.len();
    let h = wav_header(n, rate);
    let f = wav(samples, rate);
    lemma_sample_bytes(samples, n as int);
    lemma_header_length(n, rate);
    lemma_four_bytes(36 + 2 * n);
    lemma_four_bytes(16);
    lemma_four_bytes(rate);
    lemma_four_bytes(2 * rate);
    lemma_four_bytes(2 * n);
    assert(f.len() == 44 + 2 * n);
    assert(f.take(44) =~= h);
    assert(h.subrange(4, 8) =~= le32(36 + 2 * n));
    assert(h.subrange(16, 20) =~= le32(16));
    assert(h.subrange(24, 28) =~= le32(rate));
    assert(h.subrange(28, 32) =~= le32(2 * rate));
    assert(h.subrange(40, 44) =~= le32(2 * n));
    assert forall|i: int, k: int| 0 <= i <= 40 && 0 <= k < 4 implies f[i + k] == #[trigger] h.subrange(
        i,
        i + 4,
    )[k] by {
        assert(f.take(44)[i + k] == f[i + k]);
    }
    assert(value_of_bytes(f, 4) == value_of_bytes(h.subrange(4, 8), 0));
    assert(value_of_bytes(f, 16) == value_of_bytes(h.subrange(16, 20), 0));
    assert(value_of_bytes(f, 24) == value_of_bytes(h.subrange(24, 28), 0));
    assert(value_of_bytes(f, 28) == value_of_bytes(h.subrange(28, 32), 0));
    assert(value_of_bytes(f, 40) == value_of_bytes(h.subrange(40, 44), 0));
    assert(h.subrange(0, 4) =~= word(82, 73, 70, 70));
    assert(h.subrange(8, 12) =~= word(87, 65, 86, 69));
    assert(h.subrange(12, 16) =~= word(102, 109, 116, 32));
    assert(h.subrange(20, 22) =~= le16(1));
    assert(h.subrange(22, 24) =~= le16(1));
    assert(h.subrange(32, 34) =~= le16(2));
    assert(h.subrange(34, 36) =~= le16(16));
    assert(h.subrange(36, 40) =~= word(100, 97, 116, 97));
    assert(f[0] == h[0] && f[1] == h[1] && f[2] == h[2] && f[3] == h[3]);
    assert forall|i: int| 0 <= i < 44 implies #[trigger] f[i] == h[i] by {
        assert(f.take(44)[i] == f[i]);
    }
    assert(h[20] == h.subrange(20, 22)[0] && h[21] == h.subrange(20, 22)[1]);
    assert(h[22] == h.subrange(22, 24)[0] && h[23] == h.subrange(22, 24)[1]);
    assert(h[32] == h.subrange(32, 34)[0] && h[33] == h.subrange(32, 34)[1]);
    assert(h[34] == h.subrange(34, 36)[0] && h[35] == h.subrange(34, 36)[1]);
    assert(h[0] == h.subrange(0, 4)[0] && h[1] == h.subrange(0, 4)[1] && h[2] == h.subrange(0, 4)[2]
        && h[3] == h.subrange(0, 4)[3]);
    assert(h[8] == h.subrange(8, 12)[0] && h[9] == h.subrange(8, 12)[1] && h[10] == h.subrange(
        8,
        12,
    )[2] && h[11] == h.subrange(8, 12)[3]);
    assert(h[12] == h.subrange(12, 16)[0] && h[13] == h.subrange(12, 16)[1] && h[14] == h.subrange(
        12,
        16,
    )[2] && h[15] == h.subrange(12, 16)[3]);
    assert(h[36] == h.subrange(36, 40)[0] && h[37] == h.subrange(36, 40)[1] && h[38] == h.subrange(
        36,
        40,
    )[2] && h[39] == h.subrange(36, 40)[3]);
}

/// Speech is sampled 16000 times a second, which every setting that suits allows.
pub proof fn law_speech_is_sampled_at_sixteen_kilohertz(c: InputConfig)
    ensures
        TARGET_SAMPLE_RATE == 16 * 1000,
        suits(c) ==> c.min_rate <= 16_000 <= c.max_rate && c.channels == 1 && c.is_i16,
{
}

/// Unsigned samples are signed ones moved up by half their range: the middle is silence, the
/// lowest the lowest and the highest the highest. Signed samples stay as they are.
pub proof fn law_unsigned_samples_lie_around_the_middle(s: Seq<u16>, t: Seq<i16>, i: int)
    requires
        0 <= i < s.len(),
        0 <= i < t.len(),
    ensures
        unsigned_values(s).len() == s.len() && sample_values(t).len() == t.len(),
        i16::MIN <= unsigned_values(s)[i] <= i16::MAX,
        s[i] == 0 ==> unsigned_values(s)[i] == i16::MIN,
        s[i] == u16::MAX ==> unsigned_values(s)[i] == i16::MAX,
        unsigned_values(s)[i] - unsigned_values(s)[0] == s[i] - s[0],
        sample_values(t)[i] == t[i],
{
}

/// Two channels are mixed to their average, rounded towards zero, and one stays as it is.
pub proof fn law_two_channels_are_averaged(s: Seq<int>, g: int)
    requires
        0 <= g,
        2 * g + 1 < s.len(),
    ensures
        mixed_down(s, 1) == s,
        mixed_down(s, 2).len() == s.len() / 2,
        ({
            let sum = s[2 * g] + s[2 * g + 1];
            let m = mixed_down(s, 2)[g];
            &&& sum >= 0 ==> m >= 0 && sum - 1 <= 2 * m <= sum
            &&& sum <= 0 ==> m <= 0 && sum <= 2 * m <= sum + 1
        }),
{
    reveal_with_fuel(sum_of, 3);
    assert(sum_of(s, g * 2, 2) == s[2 * g] + s[2 * g + 1]);
}

}
