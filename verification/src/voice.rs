//! A session of voice input: chunks are transcribed in any order and written in the order
//! in which they were spoken.

use crate::text::{chars_of, push_dec, trimmed_text};
use crate::transcribe::TranscriptEvent;
use std::collections::BTreeMap;
use vstd::prelude::*;

verus! {

/// One live session.
pub struct VoiceSession {
    /// The chunks that are not written yet: their text, or `None` while they are in flight.
    pending: BTreeMap<u64, Option<String>>,
    /// The number of the next chunk to write.
    next_to_emit: u64,
    /// Whether the microphone runs.
    started: bool,
}

pub struct SessionView {
    pub pending: Map<u64, Option<Seq<char>>>,
    pub next: int,
    pub started: bool,
}

impl View for VoiceSession {
    type V = SessionView;

    closed spec fn view(&self) -> SessionView {
        SessionView {
            pending: self.pending@.map_values(|t: Option<String>| crate::canvas::optional_text(t)),
            next: self.next_to_emit as int,
            started: self.started,
        }
    }
}

/// Whether chunk `k` is transcribed and not written yet.
pub open spec fn is_ready(pending: Map<u64, Option<Seq<char>>>, k: int) -> bool {
    0 <= k < u64::MAX && pending.dom().contains(k as u64) && pending[k as u64] is Some
}

/// The first chunk from `k` on that is not ready.
pub open spec fn ready_end(pending: Map<u64, Option<Seq<char>>>, k: int) -> int
    decreases u64::MAX - k,
{
    if is_ready(pending, k) {
        ready_end(pending, k + 1)
    } else {
        k
    }
}

/// What is written of a chunk: its text without the space around it, and nothing where
/// that is empty.
pub open spec fn written(text: Seq<char>) -> Seq<Seq<char>> {
    if crate::text::trim(text).len() == 0 {
        Seq::empty()
    } else {
        seq![crate::text::trim(text)]
    }
}

/// What is written of the chunks that are ready, from `k` on up to the first hole.
pub open spec fn ready_texts(pending: Map<u64, Option<Seq<char>>>, k: int) -> Seq<Seq<char>>
    decreases u64::MAX - k,
{
    if is_ready(pending, k) {
        written(pending[k as u64]->0) + ready_texts(pending, k + 1)
    } else {
        Seq::empty()
    }
}

/// The chunks that are left when those before `end` are written.
pub open spec fn left_from(
    pending: Map<u64, Option<Seq<char>>>,
    from: int,
    end: int,
) -> Map<u64, Option<Seq<char>>> {
    pending.remove_keys(Set::new(|k: u64| from <= k < end))
}

/// The chunks in flight.
pub open spec fn in_flight(pending: Map<u64, Option<Seq<char>>>) -> Set<u64> {
    pending.dom().filter(|k: u64| pending[k] is None)
}

impl VoiceSession {
    pub fn new() -> (r: VoiceSession)
        ensures
            r@.pending == Map::<u64, Option<Seq<char>>>::empty(),
            r@.next == 0,
            !r@.started,
    {
        broadcast use vstd::std_specs::btree::group_btree_axioms;

        let r = VoiceSession { pending: BTreeMap::new(), next_to_emit: 0, started: false };
        assert(r@.pending =~= Map::<u64, Option<Seq<char>>>::empty());
        r
    }

    /// The microphone runs.
    pub fn recording(&mut self)
        ensures
            final(self)@ == (SessionView { started: true, ..old(self)@ }),
    {
        self.started = true;
    }

    pub fn is_started(&self) -> (r: bool)
        ensures
            r == self@.started,
    {
        self.started
    }

    /// A chunk was sent off. One that is there already stays as it is.
    pub fn chunk_pending(&mut self, seq: u64)
        ensures
            final(self)@ == (SessionView {
                pending: if old(self)@.pending.dom().contains(seq) {
                    old(self)@.pending
                } else {
                    old(self)@.pending.insert(seq, None)
                },
                ..old(self)@
            }),
    {
        broadcast use vstd::std_specs::btree::group_btree_axioms;

        let ghost before = self@;
        if !self.pending.contains_key(&seq) {
            self.pending.insert(seq, None);
            assert(self@.pending =~= before.pending.insert(seq, None));
        }
    }

    /// The text of a chunk came back.
    pub fn chunk_done(&mut self, seq: u64, text: String)
        ensures
            final(self)@ == (SessionView {
                pending: old(self)@.pending.insert(seq, Some(text@)),
                ..old(self)@
            }),
    {
        broadcast use vstd::std_specs::btree::group_btree_axioms;

        let ghost before = self@;
        self.pending.insert(seq, Some(text));
        assert(self@.pending =~= before.pending.insert(seq, Some(text@)));
    }

    /// Takes every text that is ready, in the order in which it was spoken. It stops at the
    /// first hole.
    pub fn drain_ready(&mut self) -> (r: Vec<String>)
        ensures
            crate::text::texts(r@) == ready_texts(old(self)@.pending, old(self)@.next),
            final(self)@ == (SessionView {
                pending: left_from(
                    old(self)@.pending,
                    old(self)@.next,
                    ready_end(old(self)@.pending, old(self)@.next),
                ),
                next: ready_end(old(self)@.pending, old(self)@.next),
                ..old(self)@
            }),
    {
        broadcast use vstd::std_specs::btree::group_btree_axioms;

        let ghost first = self@;
        let mut r: Vec<String> = Vec::new();
        assert(left_from(first.pending, first.next, first.next) =~= first.pending);
        assert(crate::text::texts(r@) =~= Seq::empty());
        assert(crate::text::texts(r@) + ready_texts(first.pending, first.next) =~= ready_texts(
            first.pending,
            first.next,
        ));
        while self.next_to_emit < u64::MAX
            invariant_except_break
                first == old(self)@,
                first.next <= self@.next,
                self@ == (SessionView {
                    pending: left_from(first.pending, first.next, self@.next),
                    next: self@.next,
                    ..first
                }),
                self@.next == self.next_to_emit,
                ready_end(first.pending, first.next) == ready_end(first.pending, self@.next),
                ready_texts(first.pending, first.next) == crate::text::texts(r@) + ready_texts(
                    first.pending,
                    self@.next,
                ),
            ensures
                first == old(self)@,
                self@ == (SessionView {
                    pending: left_from(first.pending, first.next, self@.next),
                    next: self@.next,
                    ..first
                }),
                ready_end(first.pending, first.next) == self@.next,
                ready_texts(first.pending, first.next) == crate::text::texts(r@),
            decreases u64::MAX - self.next_to_emit,
        {
            broadcast use vstd::std_specs::btree::group_btree_axioms;

            let ghost now = self@;
            let ghost have = crate::text::texts(r@);
            let k: u64 = self.next_to_emit;
            let ready: bool = match self.pending.get(&k) {
                Some(Some(_)) => true,
                _ => false,
            };
            proof {
                assert(now.pending == left_from(first.pending, first.next, k as int));
                assert(now.pending.dom().contains(k) == first.pending.dom().contains(k));
                assert(now.pending.dom().contains(k) == self.pending@.dom().contains(k));
                if self.pending@.dom().contains(k) {
                    assert(now.pending[k] == crate::canvas::optional_text(self.pending@[k]));
                    assert(now.pending[k] == first.pending[k]);
                }
                assert(ready == is_ready(first.pending, k as int));
            }
            if !ready {
                assert(have + ready_texts(first.pending, k as int) =~= have);
                break;
            }
            let taken = self.pending.remove(&k);
            self.next_to_emit = k + 1;
            assert(self@.pending =~= now.pending.remove(k));
            assert(now.pending.remove(k) =~= left_from(first.pending, first.next, k + 1));
            if let Some(Some(text)) = taken {
                assert(first.pending[k] == Some(text@));
                let piece = trimmed_text(text.as_str());
                if chars_of(piece.as_str()).len() > 0 {
                    r.push(piece);
                    assert(crate::text::texts(r@) =~= have + written(text@));
                } else {
                    assert(crate::text::texts(r@) =~= have + written(text@));
                }
                assert(have + (written(text@) + ready_texts(first.pending, k + 1))
                    =~= crate::text::texts(r@) + ready_texts(first.pending, k + 1));
            }
        }
        r
    }

    /// How many chunks are in flight.
    pub fn pending_chunk_count(&self) -> (r: usize)
        ensures
            r == in_flight(self@.pending).len(),
    {
        broadcast use vstd::std_specs::btree::group_btree_axioms;

        let mut n: usize = 0;
        let ghost mut seen: Seq<u64> = Seq::empty();
        let ghost pending = self@.pending;
        let total: usize = self.pending.len();
        for k in it: self.pending.keys()
            invariant
                pending == self@.pending,
                total == self.pending@.dom().len(),
                it.seq().no_duplicates(),
                it.seq().unref().to_set() == self.pending@.dom(),
                it.seq().len() == self.pending@.dom().len(),
                n == seen.len(),
                n <= it.index() <= it.seq().len(),
                seen.no_duplicates(),
                forall|j: u64| #[trigger]
                    seen.contains(j) ==> in_flight(pending).contains(j) && exists|i: int|
                        0 <= i < it.index() && *(#[trigger] it.seq()[i]) == j,
                forall|i: int|
                    0 <= i < it.index() && in_flight(pending).contains(*(#[trigger] it.seq()[i]))
                        ==> seen.contains(*it.seq()[i]),
        {
            broadcast use vstd::std_specs::btree::group_btree_axioms;

            let ghost had = seen;
            let flying: bool = match self.pending.get(k) {
                Some(None) => true,
                _ => false,
            };
            proof {
                assert(it.seq()[it.index() as int] == k);
                assert(it.seq().unref()[it.index() as int] == *k);
                assert(it.seq().unref().to_set().contains(*k));
                assert(flying == in_flight(pending).contains(*k));
                if had.contains(*k) {
                    let i = choose|i: int|
                        0 <= i < it.index() && *(#[trigger] it.seq()[i]) == *k;
                    assert(it.seq()[i] == it.seq()[it.index() as int]);
                }
            }
            if flying {
                n += 1;
                proof {
                    seen = had.push(*k);
                    assert(seen[had.len() as int] == *k);
                    assert forall|j: u64| had.contains(j) implies seen.contains(j) by {
                        let i = choose|i: int| 0 <= i < had.len() && had[i] == j;
                        assert(seen[i] == j);
                    }
                    assert forall|j: u64| #[trigger] seen.contains(j) implies had.contains(j) || j
                        == *k by {
                        let i = choose|i: int| 0 <= i < seen.len() && seen[i] == j;
                        if i < had.len() {
                            assert(had[i] == j);
                        }
                    }
                }
            }
        }
        proof {
            seen.unique_seq_to_set();
            assert(seen.to_set() =~= in_flight(pending));
        }
        n
    }

    /// Takes an event of the transcriber: the texts that can be written now, and whether the
    /// session goes on.
    pub fn handle(&mut self, event: TranscriptEvent) -> (r: (Vec<String>, VoiceEnd))
        ensures
            ({
                let before = heard_event(old(self)@, event);
                let end = ready_end(before.pending, before.next);
                if event is Recording || event is ChunkPending {
                    r.0@.len() == 0 && final(self)@ == before
                } else {
                    &&& crate::text::texts(r.0@) == ready_texts(before.pending, before.next)
                    &&& final(self)@ == (SessionView {
                        pending: left_from(before.pending, before.next, end),
                        next: end,
                        ..before
                    })
                }
            }),
            match event {
                TranscriptEvent::Finished => r.1 is Finished,
                TranscriptEvent::Error(m) => r.1 matches VoiceEnd::Failed(e) && e@ == m@,
                _ => r.1 is Open,
            },
    {
        match event {
            TranscriptEvent::Recording => {
                self.recording();
                (Vec::new(), VoiceEnd::Open)
            },
            TranscriptEvent::ChunkPending { seq } => {
                self.chunk_pending(seq);
                (Vec::new(), VoiceEnd::Open)
            },
            TranscriptEvent::Chunk { seq, text } => {
                self.chunk_done(seq, text);
                (self.drain_ready(), VoiceEnd::Open)
            },
            TranscriptEvent::Finished => (self.drain_ready(), VoiceEnd::Finished),
            TranscriptEvent::Error(m) => (self.drain_ready(), VoiceEnd::Failed(m)),
        }
    }
}

/// Whether a session goes on.
#[derive(Debug, Clone)]
pub enum VoiceEnd {
    Open,
    Finished,
    /// It ended with this error.
    Failed(String),
}

/// The session with what an event tells of its chunks.
pub open spec fn heard_event(s: SessionView, event: TranscriptEvent) -> SessionView {
    match event {
        TranscriptEvent::Recording => SessionView { started: true, ..s },
        TranscriptEvent::ChunkPending { seq } => SessionView {
            pending: if s.pending.dom().contains(seq) {
                s.pending
            } else {
                s.pending.insert(seq, None)
            },
            ..s
        },
        TranscriptEvent::Chunk { seq, text } => SessionView {
            pending: s.pending.insert(seq, Some(text@)),
            ..s
        },
        _ => s,
    }
}

// ───────────────────────────── around a session ─────────────────────────────
/// The key and the language of a session.
pub open spec fn session_of(api_key: Seq<char>, language: Seq<char>) -> Option<
    (Seq<char>, Option<Seq<char>>),
> {
    if crate::text::trim(api_key).len() == 0 {
        None
    } else {
        Some(
            (
                crate::text::trim(api_key),
                if crate::text::trim(language).len() == 0 {
                    None
                } else {
                    Some(crate::text::trim(language))
                },
            ),
        )
    }
}

/// The key and the language of a session, without the space around them. There is no
/// session without a key; an empty language is none.
pub fn voice_request(api_key: &str, language: &str) -> (r: Option<(String, Option<String>)>)
    ensures
        match r {
            Some(q) => session_of(api_key@, language@) == Some(
                (q.0@, crate::canvas::optional_text(q.1)),
            ),
            None => session_of(api_key@, language@) is None,
        },
{
    let key = trimmed_text(api_key);
    if chars_of(key.as_str()).len() == 0 {
        return None;
    }
    let hint = trimmed_text(language);
    if chars_of(hint.as_str()).len() == 0 {
        Some((key, None))
    } else {
        Some((key, Some(hint)))
    }
}

/// Whether a space goes in front of a text that is written at `offset`, behind the
/// character `before`: not at the start, nor behind a space or a line break.
pub fn need_separator(offset: i32, before: char) -> (r: bool)
    ensures
        r == (offset > 0 && before != ' ' && before != '\n'),
{
    offset > 0 && before != ' ' && before != '\n'
}

/// What is shown while a session runs.
pub fn session_label(started: bool, in_flight: usize) -> (r: String)
    ensures
        r@ == (if !started {
            "● Connecting…"@
        } else if in_flight > 0 {
            "● Recording  ·  "@ + crate::text::dec(in_flight as nat) + " chunk(s) in flight"@
        } else {
            "● Recording"@
        }),
{
    if !started {
        "● Connecting…".to_owned()
    } else if in_flight > 0 {
        let mut r = "● Recording  ·  ".to_owned();
        push_dec(&mut r, in_flight as u64);
        r.append(" chunk(s) in flight");
        r
    } else {
        "● Recording".to_owned()
    }
}

/// What the microphone's button offers.
pub fn mic_tooltip(active: bool, has_key: bool) -> (r: &'static str)
    ensures
        r@ == (if active {
            "Stop transcription"@
        } else if has_key {
            "Start voice transcription"@
        } else {
            "Set your Groq API key in Settings → Voice"@
        }),
{
    if active {
        "Stop transcription"
    } else if has_key {
        "Start voice transcription"
    } else {
        "Set your Groq API key in Settings → Voice"
    }
}

// ───────────────────────────── laws ─────────────────────────────
/// What was spoken in the first `n` chunks, as it is written.
pub open spec fn spoken(texts: Map<u64, Seq<char>>, n: int) -> Seq<Seq<char>>
    decreases n,
{
    if n <= 0 {
        Seq::empty()
    } else {
        spoken(texts, n - 1) + written(texts[(n - 1) as u64])
    }
}

/// Whatever the order in which the texts of the chunks come back, what has been written
/// is always the start of what was spoken, in the order in which it was spoken: what is
/// ready continues it without a gap.
pub proof fn law_texts_keep_the_spoken_order(
    texts: Map<u64, Seq<char>>,
    pending: Map<u64, Option<Seq<char>>>,
    next: int,
)
    requires
        0 <= next <= u64::MAX,
        forall|k: u64|
            k >= next && #[trigger] pending.dom().contains(k) && pending[k] is Some ==> pending[k]
                == Some(texts[k]),
    ensures
        spoken(texts, next) + ready_texts(pending, next) == spoken(
            texts,
            ready_end(pending, next),
        ),
        next <= ready_end(pending, next) <= u64::MAX,
    decreases u64::MAX - next,
{
    if is_ready(pending, next) {
        law_texts_keep_the_spoken_order(texts, pending, next + 1);
        assert(pending[next as u64] == Some(texts[next as u64]));
        assert(spoken(texts, next + 1) == spoken(texts, next) + written(texts[next as u64]));
        assert(spoken(texts, next) + (written(texts[next as u64]) + ready_texts(pending, next + 1))
            =~= spoken(texts, next + 1) + ready_texts(pending, next + 1));
    } else {
        assert(spoken(texts, next) + ready_texts(pending, next) =~= spoken(texts, next));
    }
}

/// Writing stops only at a chunk that is not transcribed, and everything that is written
/// leaves the session.
pub proof fn law_writing_stops_at_a_hole(pending: Map<u64, Option<Seq<char>>>, next: int)
    requires
        0 <= next <= u64::MAX,
    ensures
        !is_ready(pending, ready_end(pending, next)),
        forall|k: int| next <= k < ready_end(pending, next) ==> #[trigger] is_ready(pending, k),
        forall|k: u64|
            next <= k < ready_end(pending, next) ==> !left_from(
                pending,
                next,
                ready_end(pending, next),
            ).contains_key(k),
    decreases u64::MAX - next,
{
    if is_ready(pending, next) {
        law_writing_stops_at_a_hole(pending, next + 1);
    }
}

/// Nothing that was spoken is lost: when every chunk has come back, everything is written
/// and nothing is left in the session.
pub proof fn law_nothing_is_lost_at_the_end(
    texts: Map<u64, Seq<char>>,
    pending: Map<u64, Option<Seq<char>>>,
    next: int,
    sent: int,
)
    requires
        0 <= next <= sent <= u64::MAX,
        forall|k: u64| #[trigger] pending.dom().contains(k) <==> next <= k < sent,
        forall|k: u64| next <= k < sent ==> #[trigger] pending[k] == Some(texts[k]),
    ensures
        ready_end(pending, next) == sent,
        spoken(texts, next) + ready_texts(pending, next) == spoken(texts, sent),
        left_from(pending, next, sent) == Map::<u64, Option<Seq<char>>>::empty(),
{
    law_texts_keep_the_spoken_order(texts, pending, next);
    law_writing_stops_at_a_hole(pending, next);
    let end = ready_end(pending, next);
    if end < sent {
        assert(pending.dom().contains(end as u64));
        assert(pending[end as u64] == Some(texts[end as u64]));
        assert(is_ready(pending, end));
    } else if end > sent {
        assert(is_ready(pending, sent));
        assert(!pending.dom().contains(sent as u64));
    }
    assert(left_from(pending, next, sent) =~= Map::<u64, Option<Seq<char>>>::empty());
}

/// What is written of a chunk is its text without the white space around it, and nothing of a
/// blank one.
pub proof fn law_blank_chunks_are_not_written(text: Seq<char>)
    ensures
        (forall|i: int| 0 <= i < text.len() ==> crate::text::is_space(#[trigger] text[i])) ==> written(
            text,
        ) == Seq::<Seq<char>>::empty(),
        text.len() > 0 && !crate::text::is_space(text[0]) && !crate::text::is_space(text.last())
            ==> written(text) == seq![text],
{
    let (a, b) = crate::text::law_trimming_takes_white_space_only(text);
    if forall|i: int| 0 <= i < text.len() ==> crate::text::is_space(#[trigger] text[i]) {
        if a < b {
            assert(crate::text::is_space(text[a]));
        }
    }
    if text.len() > 0 && !crate::text::is_space(text[0]) && !crate::text::is_space(text.last()) {
        crate::text::law_trimmed_texts_stay(text);
    }
}

/// What an event tells: a chunk that was sent off is in flight until its text comes, and no
/// longer; a chunk whose text came first stays as it is. Nothing else changes.
pub proof fn law_events_tell_of_their_chunks(s: SessionView, seq: u64, text: String, k: u64)
    ensures
        ({
            let sent = heard_event(s, TranscriptEvent::ChunkPending { seq });
            let done = heard_event(s, TranscriptEvent::Chunk { seq, text });
            &&& sent.pending.contains_key(seq)
            &&& !s.pending.contains_key(seq) ==> sent.pending[seq] is None
            &&& s.pending.contains_key(seq) ==> sent.pending[seq] == s.pending[seq]
            &&& done.pending.contains_key(seq) && done.pending[seq] == Some(text@)
            &&& k != seq ==> sent.pending.contains_key(k) == s.pending.contains_key(k)
                && done.pending.contains_key(k) == s.pending.contains_key(k)
            &&& k != seq && s.pending.contains_key(k) ==> sent.pending[k] == s.pending[k]
                && done.pending[k] == s.pending[k]
            &&& sent.next == s.next && done.next == s.next
            &&& sent.started == s.started && done.started == s.started
            &&& heard_event(s, TranscriptEvent::Recording).started
            &&& heard_event(s, TranscriptEvent::Finished) == s
        }),
{
}

/// A chunk is in flight from when it was sent until its text is there: sending one adds it
/// alone, and its answer takes it alone away.
pub proof fn law_chunks_are_in_flight_until_answered(
    pending: Map<u64, Option<Seq<char>>>,
    k: u64,
    text: Seq<char>,
)
    ensures
        in_flight(pending.insert(k, None)) == in_flight(pending).insert(k),
        in_flight(pending.insert(k, Some(text))) == in_flight(pending).remove(k),
        in_flight(Map::<u64, Option<Seq<char>>>::empty()) == Set::<u64>::empty(),
{
    assert(in_flight(pending.insert(k, None)) =~= in_flight(pending).insert(k));
    assert(in_flight(pending.insert(k, Some(text))) =~= in_flight(pending).remove(k));
    assert(in_flight(Map::<u64, Option<Seq<char>>>::empty()) =~= Set::<u64>::empty());
}

/// A session needs a key that is not blank, and has the key and the language as they were
/// given but for the white space around them; a blank language is none.
pub proof fn law_sessions_need_a_key(key: Seq<char>, language: Seq<char>)
    ensures
        session_of(key, language) is None <==> is_blank(key),
        key.len() > 0 && !crate::text::is_space(key[0]) && !crate::text::is_space(key.last()) ==> {
            &&& session_of(key, language) matches Some(q)
            &&& q.0 == key
            &&& q.1 is None <==> is_blank(language)
            &&& language.len() > 0 && !crate::text::is_space(language[0]) && !crate::text::is_space(
                language.last(),
            ) ==> q.1 == Some(language)
        },
{
    lemma_blank(key);
    lemma_blank(language);
    if key.len() > 0 && !crate::text::is_space(key[0]) && !crate::text::is_space(key.last()) {
        crate::text::law_trimmed_texts_stay(key);
    }
    if language.len() > 0 && !crate::text::is_space(language[0]) && !crate::text::is_space(
        language.last(),
    ) {
        crate::text::law_trimmed_texts_stay(language);
    }
}

/// Whether a text holds nothing but white space.
pub open spec fn is_blank(s: Seq<char>) -> bool {
    forall|i: int| 0 <= i < s.len() ==> crate::text::is_space(#[trigger] s[i])
}

proof fn lemma_blank(s: Seq<char>)
    ensures
        crate::text::trim(s).len() == 0 <==> is_blank(s),
{
    let r = crate::text::law_trimming_takes_white_space_only(s);
    if r.0 < r.1 {
        assert(!crate::text::is_space(s[r.0]));
    } else {
        assert forall|i: int| 0 <= i < s.len() implies crate::text::is_space(#[trigger] s[i]) by {}
    }
}

}
