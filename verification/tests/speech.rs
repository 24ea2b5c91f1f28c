use jot::json::JsonValue;
use jot::transcribe::{
    downmix_i16, encode_wav, may_finish, preferred_config, read_answer, request_fields, take_numbered_chunk,
    transcript_from, u16_to_i16_mono, worker_stops, Chunker, Inbox, InputConfig, TranscriptCmd,
    TranscriptEvent,
};
use jot::voice::{
    mic_tooltip, need_separator, session_label, voice_request, VoiceEnd, VoiceSession,
};

fn feed(c: &mut Chunker, n: usize, loud: bool) {
    let windows = n.div_ceil(c.window_samples());
    c.feed(&vec![1; n], &vec![loud; windows]);
}

#[test]
fn chunks_end_at_pauses() {
    let mut c = Chunker::new(1000);
    assert_eq!(c.window_samples(), 64);
    feed(&mut c, 1000, true);
    assert!(c.take_ready_chunk(false).is_none());
    feed(&mut c, 499, false);
    assert!(c.take_ready_chunk(false).is_none());
    feed(&mut c, 1, false);
    let chunk = c.take_ready_chunk(false).unwrap();
    assert_eq!(chunk.sample_rate, 1000);
    assert_eq!(chunk.samples.len(), 10_000);
    assert_eq!(chunk.samples[1499], 1);
    assert_eq!(chunk.samples[1500], 0);
    assert!(c.take_ready_chunk(true).is_none());
}

#[test]
fn short_pauses_do_not_split() {
    let mut c = Chunker::new(1000);
    feed(&mut c, 300, true);
    feed(&mut c, 600, false);
    assert!(c.take_ready_chunk(false).is_none());
    assert!(c.take_ready_chunk(true).is_some());
}

#[test]
fn long_speech_is_cut_and_noise_is_dropped() {
    let mut c = Chunker::new(100);
    feed(&mut c, 2499, true);
    assert!(c.take_ready_chunk(false).is_none());
    feed(&mut c, 1, true);
    assert_eq!(c.take_ready_chunk(false).unwrap().samples.len(), 2500);
    feed(&mut c, 64, true);
    feed(&mut c, 2436, false);
    assert!(c.take_ready_chunk(false).is_none());
    assert!(c.take_ready_chunk(true).is_none());
    feed(&mut c, 49, true);
    assert!(c.take_ready_chunk(true).is_none());
    feed(&mut c, 1, true);
    assert!(c.take_ready_chunk(true).is_some());
}

#[test]
fn chunks_are_numbered() {
    let mut c = Chunker::new(100);
    let mut next = 7;
    assert!(take_numbered_chunk(&mut c, &mut next, true).is_none());
    assert_eq!(next, 7);
    feed(&mut c, 60, true);
    assert_eq!(take_numbered_chunk(&mut c, &mut next, true).unwrap().0, 7);
    assert_eq!(next, 8);
}

#[test]
fn wav_files() {
    let wav = encode_wav(&[1, -2, i16::MIN], 16_000);
    assert_eq!(wav.len(), 50);
    assert_eq!(&wav[0..4], b"RIFF");
    assert_eq!(&wav[4..8], &42u32.to_le_bytes());
    assert_eq!(&wav[8..16], b"WAVEfmt ");
    assert_eq!(&wav[16..20], &16u32.to_le_bytes());
    assert_eq!(&wav[20..24], &[1, 0, 1, 0]);
    assert_eq!(&wav[24..28], &16_000u32.to_le_bytes());
    assert_eq!(&wav[28..32], &32_000u32.to_le_bytes());
    assert_eq!(&wav[32..36], &[2, 0, 16, 0]);
    assert_eq!(&wav[36..40], b"data");
    assert_eq!(&wav[40..44], &6u32.to_le_bytes());
    for (i, s) in [1i16, -2, i16::MIN].iter().enumerate() {
        assert_eq!(&wav[44 + 2 * i..46 + 2 * i], &s.to_le_bytes());
    }
}

#[test]
fn channels_are_mixed_down() {
    assert_eq!(downmix_i16(&[3, 4, -3, -4, 9], 2), vec![3, -3]);
    assert_eq!(downmix_i16(&[3, 4], 1), vec![3, 4]);
    assert_eq!(downmix_i16(&[3, 4], 0), vec![3, 4]);
    assert_eq!(downmix_i16(&[i16::MIN, i16::MIN, i16::MIN], 3), vec![i16::MIN]);
    assert_eq!(u16_to_i16_mono(&[0, 65535, 32768], 1), vec![i16::MIN, i16::MAX, 0]);
    assert_eq!(u16_to_i16_mono(&[0, 65535], 2), vec![0]);
}

#[test]
fn the_microphone_that_suits() {
    let c = |channels, is_i16, min_rate, max_rate| InputConfig {
        channels,
        is_i16,
        min_rate,
        max_rate,
    };
    let all = vec![
        c(2, true, 8000, 48_000),
        c(1, false, 8000, 48_000),
        c(1, true, 44_100, 48_000),
        c(1, true, 16_000, 16_000),
        c(1, true, 8000, 48_000),
    ];
    assert_eq!(preferred_config(&all), Some(3));
    assert_eq!(preferred_config(&vec![all[0]]), None);
}

#[test]
fn requests_and_answers() {
    let fields = request_fields(&Some("pt".to_string()));
    assert_eq!(fields[0], ("model".to_string(), "whisper-large-v3-turbo".to_string()));
    assert_eq!(fields[3], ("language".to_string(), "pt".to_string()));
    assert_eq!(request_fields(&Some(String::new())).len(), 3);
    assert_eq!(request_fields(&None).len(), 3);
    assert_eq!(read_answer(true, "200 OK", r#"{"text":" hi"}"#), Ok(" hi".to_string()));
    assert_eq!(read_answer(true, "200 OK", r#"{"text":5}"#), Ok(String::new()));
    assert_eq!(read_answer(true, "200 OK", "[]"), Ok(String::new()));
    assert_eq!(
        read_answer(true, "200 OK", "oops"),
        Err("parse groq response: oops".to_string())
    );
    assert_eq!(
        read_answer(false, "401 Unauthorized", "no"),
        Err("groq 401 Unauthorized: no".to_string())
    );
    assert_eq!(transcript_from(&JsonValue::Text("a".to_string())).as_deref(), Some("a"));
    assert_eq!(transcript_from(&JsonValue::Null).as_deref(), Some(""));
    assert_eq!(transcript_from(&JsonValue::Invalid), None);
}

#[test]
fn texts_keep_the_spoken_order() {
    let mut s = VoiceSession::new();
    assert!(!s.is_started());
    s.handle(TranscriptEvent::Recording);
    assert!(s.is_started());
    for seq in 0..4 {
        s.handle(TranscriptEvent::ChunkPending { seq });
    }
    assert_eq!(s.pending_chunk_count(), 4);
    let chunk = |seq, text: &str| TranscriptEvent::Chunk { seq, text: text.to_string() };
    assert!(s.handle(chunk(2, "c")).0.is_empty());
    assert!(s.handle(chunk(1, "  ")).0.is_empty());
    assert_eq!(s.pending_chunk_count(), 2);
    assert_eq!(s.handle(chunk(0, " a ")).0, vec!["a", "c"]);
    let (texts, end) = s.handle(TranscriptEvent::Error("lost".to_string()));
    assert!(texts.is_empty());
    assert!(matches!(end, VoiceEnd::Failed(m) if m == "lost"));
    s.chunk_pending(3);
    s.chunk_done(3, "d".to_string());
    let (texts, end) = s.handle(TranscriptEvent::Finished);
    assert_eq!(texts, vec!["d"]);
    assert!(matches!(end, VoiceEnd::Finished));
}

#[test]
fn around_a_session() {
    assert_eq!(voice_request("  ", "pt"), None);
    assert_eq!(voice_request(" k ", " "), Some(("k".to_string(), None)));
    assert_eq!(
        voice_request("k", " pt "),
        Some(("k".to_string(), Some("pt".to_string())))
    );
    assert!(!need_separator(0, 'x'));
    assert!(!need_separator(3, '\n'));
    assert!(!need_separator(3, ' '));
    assert!(need_separator(3, 'x'));
    assert_eq!(session_label(false, 3), "● Connecting…");
    assert_eq!(session_label(true, 3), "● Recording  ·  3 chunk(s) in flight");
    assert_eq!(session_label(true, 0), "● Recording");
    assert_eq!(mic_tooltip(true, false), "Stop transcription");
    assert_eq!(mic_tooltip(false, true), "Start voice transcription");
    assert_eq!(mic_tooltip(false, false), "Set your Groq API key in Settings → Voice");
}

#[test]
fn workers_stop() {
    assert!(!worker_stops(false, false, Inbox::Nothing));
    assert!(worker_stops(true, false, Inbox::Nothing));
    assert!(worker_stops(false, true, Inbox::Nothing));
    assert!(worker_stops(false, false, Inbox::Command(TranscriptCmd::Stop)));
    assert!(worker_stops(false, false, Inbox::Closed));
}

#[test]
fn workers_wait_for_their_chunks() {
    assert!(!may_finish(false, 0, 0));
    assert!(!may_finish(true, 2, 1));
    assert!(may_finish(true, 2, 2));
    assert!(may_finish(true, 0, 0));
}

#[test]
fn samples_may_come_in_parts() {
    let loud = |i: i16| i % 3 == 0;
    let chunk = |parts: &[(usize, &[bool])]| {
        let mut c = Chunker::new(100);
        for (n, flags) in parts {
            c.feed(&vec![1; *n], flags);
        }
        assert!(c.has_room(10));
        assert!(!c.has_room(usize::MAX));
        c.take_ready_chunk(true).map(|c| c.samples)
    };
    let flags: Vec<bool> = (0..4).map(loud).collect();
    assert_eq!(
        chunk(&[(128, &flags[..2]), (70, &flags[2..])]),
        chunk(&[(198, &flags[..])])
    );
    // A short window in the middle is a window of its own.
    let mut a = Chunker::new(100);
    a.feed(&[1; 10], &[true]);
    a.feed(&[1; 140], &[false, false, false]);
    assert!(a.take_ready_chunk(false).is_some());
}
