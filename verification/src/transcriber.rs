//! The speech transcriber around its model: chunks of samples in, timed texts out. Times are
//! in nanoseconds.

use vstd::prelude::*;
use vstd::slice::slice_subrange;
use vstd::string::*;

use crate::words::{words_in, WordsError};

verus! {

pub const SAMPLE_RATE: u64 = 16_000;

pub const SECOND: u64 = 1_000_000_000;

pub const MILLISECOND: u64 = 1_000_000;

/// The last time there is; the next number stands for no time.
pub const LAST_TIME: u64 = 0xFFFF_FFFF_FFFF_FFFE;

#[derive(Debug, Clone)]
pub struct Settings {
    /// The expected processing latency. Will count towards total latency.
    pub latency_ms: u32,
    /// The duration of chunks to accumulate for inference. Will count towards total latency.
    pub chunk_duration_ms: u32,
    /// How far the window of accepted tokens overlaps both chunks. Leaves time for tokens
    /// near the end of the current chunk to stabilize. Will count towards total latency.
    pub live_edge_offset_ms: u32,
    pub model_path: Option<String>,
    pub tokenizer_path: Option<String>,
}

impl Default for Settings {
    fn default() -> (r: Self)
        ensures
            r.latency_ms == 1_000,
            r.chunk_duration_ms == 4_000,
            r.live_edge_offset_ms == 1_000,
            r.model_path is None,
            r.tokenizer_path is None,
    {
        Settings {
            latency_ms: 1_000,
            chunk_duration_ms: 4_000,
            live_edge_offset_ms: 1_000,
            model_path: None,
            tokenizer_path: None,
        }
    }
}

/// Why a transcriber cannot be prepared.
#[derive(Debug, Clone, Copy, PartialEq, Eq, Structural)]
pub enum PrepareError {
    NoModelPath,
    NoTokenizerPath,
    OffsetTooLarge,
}

impl PrepareError {
    pub fn message(&self) -> (r: &'static str)
        ensures
            r@ == match self {
                PrepareError::NoModelPath => "model-path property must be set"@,
                PrepareError::NoTokenizerPath => "tokenizer-path property must be set"@,
                PrepareError::OffsetTooLarge
                    => "chunk-duration must be greater than live-edge-offset"@,
            },
    {
        match self {
            PrepareError::NoModelPath => "model-path property must be set",
            PrepareError::NoTokenizerPath => "tokenizer-path property must be set",
            PrepareError::OffsetTooLarge => "chunk-duration must be greater than live-edge-offset",
        }
    }
}

impl Settings {
    /// The paths of the model and the tokenizer, if the settings can be used.
    pub fn check(&self) -> (r: Result<(String, String), PrepareError>)
        ensures
            r == (if self.model_path is None {
                Err(PrepareError::NoModelPath)
            } else if self.tokenizer_path is None {
                Err(PrepareError::NoTokenizerPath)
            } else if self.live_edge_offset_ms >= self.chunk_duration_ms {
                Err(PrepareError::OffsetTooLarge)
            } else {
                Ok((self.model_path->0, self.tokenizer_path->0))
            }),
    {
        let model_path = match &self.model_path {
            Some(path) => path,
            None => {
                return Err(PrepareError::NoModelPath);
            },
        };
        let tokenizer_path = match &self.tokenizer_path {
            Some(path) => path,
            None => {
                return Err(PrepareError::NoTokenizerPath);
            },
        };
        if self.live_edge_offset_ms >= self.chunk_duration_ms {
            return Err(PrepareError::OffsetTooLarge);
        }
        Ok((model_path.clone(), tokenizer_path.clone()))
    }

    /// How long the start of the window of accepted tokens lies behind that of the oldest
    /// chunk.
    pub open spec fn window_offset(self) -> int {
        if self.live_edge_offset_ms >= self.chunk_duration_ms {
            0
        } else {
            (self.chunk_duration_ms - self.live_edge_offset_ms) * MILLISECOND
        }
    }

    /// A token that was spoken that many milliseconds behind the start of the oldest chunk
    /// lies in the window of accepted tokens. The window begins that far before the end of
    /// the previous chunk as the offset says, and at the start where there is no previous
    /// chunk; it ends as far before the end of the current chunk, and when draining nowhere.
    pub open spec fn accepts(self, time_ms: int, had_previous: bool, drain: bool) -> bool {
        let begin = self.chunk_duration_ms - self.live_edge_offset_ms;
        let end = if had_previous {
            2 * self.chunk_duration_ms - self.live_edge_offset_ms
        } else {
            self.chunk_duration_ms - self.live_edge_offset_ms
        };
        &&& had_previous ==> begin <= time_ms
        &&& !drain ==> time_ms < end
    }

    /// Whether a token lies in the window of accepted tokens.
    pub fn accepts_token(&self, time_ms: u64, had_previous: bool, drain: bool) -> (r: bool)
        ensures
            r == self.accepts(time_ms as int, had_previous, drain),
    {
        let chunk: u128 = self.chunk_duration_ms as u128;
        let time: u128 = time_ms as u128 + self.live_edge_offset_ms as u128;
        let end: u128 = if had_previous {
            2 * chunk
        } else {
            chunk
        };
        (!had_previous || chunk <= time) && (drain || time < end)
    }
}

/// Where the oldest chunk of an inference begins, in milliseconds behind the start of the
/// first one: each inference but the first has the chunk before it.
pub open spec fn inference_start(settings: Settings, k: int) -> int {
    if k == 0 {
        0
    } else {
        (k - 1) * settings.chunk_duration_ms
    }
}

/// The `k`-th inference accepts what is spoken at that time of the stream.
pub open spec fn accepted_in(settings: Settings, k: int, time_ms: int, drain: bool) -> bool {
    settings.accepts(time_ms - inference_start(settings, k), k > 0, drain)
}

/// No time is accepted by two inferences, of which the later one may be the last.
pub proof fn law_windows_do_not_overlap(
    settings: Settings,
    j: int,
    k: int,
    time_ms: int,
    drain: bool,
)
    requires
        0 <= j < k,
    ensures
        !(accepted_in(settings, j, time_ms, false) && accepted_in(settings, k, time_ms, drain)),
{
    let c = settings.chunk_duration_ms as int;
    assert((j - 1) * c + c == j * c) by (nonlinear_arith);
    assert((k - 1) * c + c == k * c) by (nonlinear_arith);
    assert((j + 1) * c <= k * c) by (nonlinear_arith)
        requires
            j + 1 <= k,
            0 <= c,
    ;
    assert((j + 1) * c == j * c + c) by (nonlinear_arith);
}

/// Every time of a stream is accepted by one of its inferences, the last of which drains.
pub proof fn law_windows_leave_no_time_out(settings: Settings, last: int, time_ms: int)
    requires
        0 <= last,
        0 <= time_ms,
    ensures
        accepted_in(settings, last, time_ms, true) || exists|k: int|
            0 <= k < last && #[trigger] accepted_in(settings, k, time_ms, false),
    decreases last,
{
    let c = settings.chunk_duration_ms as int;
    if last > 0 && !accepted_in(settings, last, time_ms, true) {
        let k = last - 1;
        law_windows_leave_no_time_out(settings, k, time_ms);
        assert((k - 1) * c + c == k * c) by (nonlinear_arith);
        if k == 0 {
            assert(k * c == 0) by (nonlinear_arith)
                requires
                    k == 0,
            ;
        }
        if accepted_in(settings, k, time_ms, true) {
            assert(accepted_in(settings, k, time_ms, false));
        }
    }
}

/// Latency as a live source reports it: whether it is live, and its bounds.
#[derive(Debug, Clone, Copy, PartialEq, Eq, Structural)]
pub struct Latency {
    pub live: bool,
    pub min: u64,
    pub max: Option<u64>,
}

/// The latency that the transcriber adds.
pub open spec fn own_latency(settings: Settings) -> int {
    (settings.latency_ms + settings.chunk_duration_ms + settings.live_edge_offset_ms)
        * MILLISECOND
}

/// The answer to a latency query. Nothing is added where upstream is not live, and there is
/// no answer where upstream gives none.
pub fn answer_latency(upstream: Option<Latency>, settings: &Settings) -> (r: Option<Latency>)
    requires
        upstream matches Some(latency) ==> (latency.live ==> {
            &&& settings.latency_ms + settings.chunk_duration_ms + settings.live_edge_offset_ms
                <= u32::MAX
            &&& latency.min + own_latency(*settings) <= LAST_TIME
            &&& latency.max matches Some(max) ==> max + own_latency(*settings) <= LAST_TIME
        }),
    ensures
        r is None <==> upstream is None,
        upstream matches Some(latency) && !latency.live ==> r == Some(
            Latency { live: false, min: 0, max: None },
        ),
        upstream matches Some(latency) ==> (latency.live ==> r == Some(
            Latency {
                live: true,
                min: (latency.min + own_latency(*settings)) as u64,
                max: match latency.max {
                    Some(max) => Some((max + own_latency(*settings)) as u64),
                    None => None,
                },
            },
        )),
        upstream matches Some(latency) ==> (latency.live ==> r->0.min - latency.min == (
        settings.latency_ms + settings.chunk_duration_ms + settings.live_edge_offset_ms)
            * 1_000_000),
{
    match upstream {
        Some(latency) => if latency.live {
            let ms: u32 = settings.latency_ms + settings.chunk_duration_ms
                + settings.live_edge_offset_ms;
            let own: u64 = ms as u64 * MILLISECOND;
            let max: Option<u64> = match latency.max {
                Some(max) => Some(max + own),
                None => None,
            };
            Some(Latency { live: true, min: latency.min + own, max })
        } else {
            Some(Latency { live: false, min: 0, max: None })
        },
        None => None,
    }
}

/// Whether the stream can be transcribed in time: a live source needs a latency no larger
/// than a chunk.
pub fn keeps_up(upstream: Option<Latency>, settings: &Settings) -> (r: bool)
    ensures
        r == !(upstream matches Some(latency) && latency.live && settings.latency_ms
            > settings.chunk_duration_ms),
{
    match upstream {
        Some(latency) => !(latency.live && settings.latency_ms > settings.chunk_duration_ms),
        None => true,
    }
}

/// A text and when it was spoken.
#[derive(Debug)]
pub struct TimedText {
    pub text: String,
    pub pts: u64,
    pub duration: u64,
}

/// Tokens of one word, and when it began.
#[derive(Debug)]
pub struct TokenAccumulator {
    pub gst_dtw: u64,
    pub data: Option<String>,
}

/// What an accumulator holds.
pub struct Pending {
    pub at: u64,
    pub text: Option<Seq<char>>,
}

/// What comes out of an accumulator.
pub struct Emitted {
    pub text: Seq<char>,
    pub pts: u64,
    pub duration: int,
}

/// What comes out, if anything.
pub open spec fn emitted(out: Option<TimedText>) -> Option<Emitted> {
    match out {
        Some(out) => Some(
            Emitted { text: out.text@, pts: out.pts, duration: out.duration as int },
        ),
        None => None,
    }
}

impl View for TokenAccumulator {
    type V = Pending;

    open spec fn view(&self) -> Pending {
        Pending {
            at: self.gst_dtw,
            text: match self.data {
                Some(text) => Some(text@),
                None => None,
            },
        }
    }
}

impl Pending {
    /// What is held comes out, and lasts up to `end`.
    pub open spec fn released(self, end: u64) -> Option<Emitted> {
        match self.text {
            Some(text) => Some(
                Emitted {
                    text,
                    pts: self.at,
                    duration: crate::geometry::int_max(end - self.at, 0),
                },
            ),
            None => None,
        }
    }

    /// The token begins a word.
    pub open spec fn begins_word(token: Seq<char>) -> bool {
        token.len() > 0 && token[0] == ' '
    }

    /// A token that begins a word replaces what is held; another one is appended to it, and
    /// takes its time over.
    pub open spec fn taking(self, at: u64, token: Seq<char>) -> Pending {
        if Pending::begins_word(token) {
            Pending { at, text: Some(token) }
        } else {
            match self.text {
                Some(text) => Pending { at, text: Some(text + token) },
                None => Pending { at: self.at, text: Some(token) },
            }
        }
    }

    /// What comes out when a token is taken.
    pub open spec fn gives(self, at: u64, token: Seq<char>) -> Option<Emitted> {
        if Pending::begins_word(token) {
            self.released(at)
        } else {
            None
        }
    }
}

impl TokenAccumulator {
    /// Release what is held.
    pub fn drain(&mut self, gst_dtw_end: u64) -> (r: Option<TimedText>)
        ensures
            emitted(r) == old(self)@.released(gst_dtw_end),
            final(self)@ == (Pending { at: old(self)@.at, text: None }),
    {
        match self.data.take() {
            Some(text) => {
                let duration: u64 = if gst_dtw_end > self.gst_dtw {
                    gst_dtw_end - self.gst_dtw
                } else {
                    0
                };
                Some(TimedText { text, pts: self.gst_dtw, duration })
            },
            None => None,
        }
    }

    /// Take a token; a token that begins with a space releases the word before it.
    pub fn push(&mut self, gst_dtw: u64, data: String) -> (r: Option<TimedText>)
        ensures
            emitted(r) == old(self)@.gives(gst_dtw, data@),
            final(self)@ == old(self)@.taking(gst_dtw, data@),
    {
        if data.as_str().unicode_len() > 0 && data.as_str().get_char(0) == ' ' {
            let ret = self.drain(gst_dtw);
            self.data = Some(data);
            self.gst_dtw = gst_dtw;
            ret
        } else {
            match self.data.take() {
                Some(mut held) => {
                    held.append(data.as_str());
                    self.data = Some(held);
                    self.gst_dtw = gst_dtw;
                },
                None => {
                    self.data = Some(data);
                },
            }
            None
        }
    }
}

/// What is held or comes out, as one text.
pub open spec fn text_or_empty(text: Option<Seq<char>>) -> Seq<char> {
    match text {
        Some(text) => text,
        None => Seq::empty(),
    }
}

/// The text of what comes out.
pub open spec fn emitted_text(out: Option<Emitted>) -> Seq<char> {
    match out {
        Some(out) => out.text,
        None => Seq::empty(),
    }
}

/// No character is lost or changes its place: what comes out, and then what is held, is what
/// was held, and then the token. Releasing what is held gives all of it.
pub proof fn law_tokens_are_kept(pending: Pending, at: u64, token: Seq<char>)
    ensures
        emitted_text(pending.gives(at, token)) + text_or_empty(pending.taking(at, token).text)
            == text_or_empty(pending.text) + token,
        emitted_text(pending.released(at)) == text_or_empty(pending.text),
{
    assert(emitted_text(pending.gives(at, token)) + text_or_empty(pending.taking(at, token).text)
        =~= text_or_empty(pending.text) + token);
}

/// A piece of text that was heard, and when: that many milliseconds behind the start of the
/// oldest chunk.
#[derive(Debug)]
pub struct Token {
    pub text: String,
    pub time_ms: u64,
}

/// The circumstances of an inference: when its oldest chunk begins, whether that is the
/// previous one, and whether the stream ends.
pub struct Inference {
    pub settings: Settings,
    pub begin: u64,
    pub had_previous: bool,
    pub drain: bool,
}

/// The word that is being put together, and what came out so far.
pub struct Heard {
    pub pending: Pending,
    pub output: Seq<Emitted>,
}

impl Heard {
    /// With one more text, if there is one.
    pub open spec fn plus(self, out: Option<Emitted>, pending: Pending) -> Heard {
        Heard {
            pending,
            output: match out {
                Some(out) => self.output.push(out),
                None => self.output,
            },
        }
    }
}

impl Inference {
    /// When a token was heard.
    pub open spec fn time_of(self, token: Token) -> int {
        self.begin + token.time_ms * MILLISECOND
    }

    pub open spec fn takes(self, token: Token) -> bool {
        self.settings.accepts(token.time_ms as int, self.had_previous, self.drain)
    }

    /// After a token. One in the window is taken, unless it continues a word of which nothing
    /// was taken; one outside of it only if it continues a word that was. A word that begins
    /// outside of the window ends the one before it.
    pub open spec fn after(self, heard: Heard, token: Token) -> Heard {
        let at = self.time_of(token) as u64;
        let begins = Pending::begins_word(token.text@);
        let holds = heard.pending.text is Some;
        if begins && !self.takes(token) {
            heard.plus(
                heard.pending.released(at),
                Pending { at: heard.pending.at, text: None },
            )
        } else if begins || holds {
            heard.plus(
                heard.pending.gives(at, token.text@),
                heard.pending.taking(at, token.text@),
            )
        } else {
            heard
        }
    }

    /// After a list of tokens.
    pub open spec fn after_all(self, tokens: Seq<Token>) -> Heard
        decreases tokens.len(),
    {
        if tokens.len() == 0 {
            Heard { pending: Pending { at: 0, text: None }, output: Seq::empty() }
        } else {
            self.after(self.after_all(tokens.drop_last()), tokens.last())
        }
    }

    /// What comes out of a list of tokens: the last word lasts up to `end`.
    pub open spec fn words(self, tokens: Seq<Token>, end: u64) -> Seq<Emitted> {
        let heard = self.after_all(tokens);
        heard.plus(heard.pending.released(end), heard.pending).output
    }
}

/// What a list of texts says.
pub open spec fn all_emitted(texts: Seq<TimedText>) -> Seq<Emitted> {
    Seq::new(
        texts.len(),
        |i: int|
            Emitted {
                text: texts[i].text@,
                pts: texts[i].pts,
                duration: texts[i].duration as int,
            },
    )
}

/// Put a text behind the others, if there is one.
fn push_text(texts: &mut Vec<TimedText>, out: Option<TimedText>)
    ensures
        all_emitted(final(texts)@) == match emitted(out) {
            Some(out) => all_emitted(old(texts)@).push(out),
            None => all_emitted(old(texts)@),
        },
{
    let ghost before = all_emitted(texts@);
    match out {
        Some(out) => {
            let ghost said = emitted(Some(out))->0;
            texts.push(out);
            assert(all_emitted(texts@) =~= before.push(said));
        },
        None => {},
    }
}

/// One text after the other.
pub open spec fn joined(texts: Seq<Seq<char>>) -> Seq<char>
    decreases texts.len(),
{
    if texts.len() == 0 {
        Seq::empty()
    } else {
        joined(texts.drop_last()) + texts.last()
    }
}

/// What tokens say.
pub open spec fn token_texts(tokens: Seq<Token>) -> Seq<Seq<char>> {
    Seq::new(tokens.len(), |i: int| tokens[i].text@)
}

/// What comes out says.
pub open spec fn output_texts(output: Seq<Emitted>) -> Seq<Seq<char>> {
    Seq::new(output.len(), |i: int| output[i].text)
}

proof fn lemma_joined_push(texts: Seq<Seq<char>>, text: Seq<char>)
    ensures
        joined(texts.push(text)) == joined(texts) + text,
{
    assert(texts.push(text).drop_last() =~= texts);
}

/// Where every token lies in the window and the first one begins a word, no character is lost
/// or changes its place.
pub proof fn law_accepted_tokens_are_put_out(inference: Inference, tokens: Seq<Token>, end: u64)
    requires
        forall|i: int| 0 <= i < tokens.len() ==> inference.takes(#[trigger] tokens[i]),
        tokens.len() > 0 ==> Pending::begins_word(tokens[0].text@),
    ensures
        joined(output_texts(inference.words(tokens, end))) == joined(token_texts(tokens)),
{
    lemma_accepted_tokens_are_kept(inference, tokens);
    let heard = inference.after_all(tokens);
    match heard.pending.released(end) {
        Some(out) => {
            assert(output_texts(heard.output.push(out)) =~= output_texts(heard.output).push(
                out.text,
            ));
            lemma_joined_push(output_texts(heard.output), out.text);
        },
        None => {
            assert(joined(token_texts(tokens)) =~= joined(output_texts(heard.output)));
        },
    }
}

proof fn lemma_accepted_tokens_are_kept(inference: Inference, tokens: Seq<Token>)
    requires
        forall|i: int| 0 <= i < tokens.len() ==> inference.takes(#[trigger] tokens[i]),
        tokens.len() > 0 ==> Pending::begins_word(tokens[0].text@),
    ensures
        ({
            let heard = inference.after_all(tokens);
            &&& tokens.len() > 0 ==> heard.pending.text is Some
            &&& joined(output_texts(heard.output)) + text_or_empty(heard.pending.text) == joined(
                token_texts(tokens),
            )
        }),
    decreases tokens.len(),
{
    let heard = inference.after_all(tokens);
    if tokens.len() == 0 {
        assert(joined(output_texts(heard.output)) + text_or_empty(heard.pending.text) =~= joined(
            token_texts(tokens),
        ));
    } else {
        let rest = tokens.drop_last();
        let token = tokens.last();
        assert(forall|i: int| 0 <= i < rest.len() ==> rest[i] == tokens[i]);
        assert(tokens[tokens.len() - 1] == token);
        lemma_accepted_tokens_are_kept(inference, rest);
        let before = inference.after_all(rest);
        let at = inference.time_of(token) as u64;
        law_tokens_are_kept(before.pending, at, token.text@);
        assert(token_texts(tokens) =~= token_texts(rest).push(token.text@));
        lemma_joined_push(token_texts(rest), token.text@);
        let said = joined(output_texts(before.output));
        match before.pending.gives(at, token.text@) {
            Some(out) => {
                assert(output_texts(heard.output) =~= output_texts(before.output).push(out.text));
                lemma_joined_push(output_texts(before.output), out.text);
                assert((said + out.text) + text_or_empty(heard.pending.text) =~= said + (out.text
                    + text_or_empty(heard.pending.text)));
            },
            None => {
                let none = Seq::<char>::empty();
                assert(none + text_or_empty(heard.pending.text) =~= text_or_empty(
                    heard.pending.text,
                ));
            },
        }
        assert(said + (text_or_empty(before.pending.text) + token.text@) =~= (said
            + text_or_empty(before.pending.text)) + token.text@);
    }
}

/// Where no token lies in the window, nothing comes out.
pub proof fn law_other_tokens_are_left_out(inference: Inference, tokens: Seq<Token>, end: u64)
    requires
        forall|i: int| 0 <= i < tokens.len() ==> !inference.takes(#[trigger] tokens[i]),
    ensures
        inference.words(tokens, end).len() == 0,
{
    lemma_other_tokens_are_left_out(inference, tokens);
}

proof fn lemma_other_tokens_are_left_out(inference: Inference, tokens: Seq<Token>)
    requires
        forall|i: int| 0 <= i < tokens.len() ==> !inference.takes(#[trigger] tokens[i]),
    ensures
        inference.after_all(tokens).output.len() == 0,
        inference.after_all(tokens).pending.text is None,
    decreases tokens.len(),
{
    if tokens.len() > 0 {
        let rest = tokens.drop_last();
        assert(forall|i: int| 0 <= i < rest.len() ==> rest[i] == tokens[i]);
        assert(tokens[tokens.len() - 1] == tokens.last());
        lemma_other_tokens_are_left_out(inference, rest);
    }
}

/// How long that many samples last.
pub open spec fn duration_of(samples: int) -> int {
    SECOND * samples / (SAMPLE_RATE as int)
}

/// A sample lasts a whole number of nanoseconds, so that durations add up without loss.
pub proof fn law_durations_add_up(a: int, b: int)
    ensures
        duration_of(a) == 62_500 * a,
        duration_of(a + b) == duration_of(a) + duration_of(b),
{
}

/// How long that many samples last.
pub fn duration_of_samples(samples: u64) -> (r: u64)
    requires
        duration_of(samples as int) <= u64::MAX,
    ensures
        r == duration_of(samples as int),
{
    proof {
        law_durations_add_up(samples as int, 0);
    }
    samples * 62_500
}

/// The samples between two inferences, each by its bits, and where the stream stands.
#[derive(Debug)]
pub struct ChunkState {
    /// The chunk that is being accumulated for inference.
    pub current_chunk: Vec<u32>,
    /// The previous chunk used for inference.
    pub previous_chunk: Vec<u32>,
    /// When the oldest chunk (previous or current) begins.
    pub chunked_pts: Option<u64>,
    /// Up to when output was pushed.
    pub out_pts: Option<u64>,
}

impl Default for ChunkState {
    fn default() -> (r: Self)
        ensures
            r.current_chunk@.len() == 0,
            r.previous_chunk@.len() == 0,
            r.chunked_pts is None,
            r.out_pts is None,
    {
        ChunkState {
            current_chunk: Vec::new(),
            previous_chunk: Vec::new(),
            chunked_pts: None,
            out_pts: None,
        }
    }
}

/// The samples in `bytes` were put behind those in `before`.
pub open spec fn appended(before: Seq<u32>, bytes: Seq<u8>, after: Seq<u32>) -> bool {
    exists|samples: Seq<u32>|
        #[trigger] crate::words::holds_words(bytes, samples) && after == before + samples
}

/// The size of a chunk in bytes: 16 samples per millisecond, 4 bytes per sample.
pub open spec fn chunk_bytes(chunk_duration_ms: u32) -> int {
    chunk_duration_ms * 64
}

impl ChunkState {
    /// How many of the bytes from `offset` on go into the current chunk.
    pub open spec fn share(self, len: int, offset: int, chunk_duration_ms: u32) -> int {
        crate::geometry::int_min(
            len - offset,
            chunk_bytes(chunk_duration_ms) - 4 * self.current_chunk@.len(),
        )
    }

    /// The first buffer of a chunk says when it begins.
    pub fn begin(&mut self, pts: u64)
        ensures
            final(self).current_chunk == old(self).current_chunk,
            final(self).previous_chunk == old(self).previous_chunk,
            old(self).chunked_pts is Some ==> *final(self) == *old(self),
            old(self).chunked_pts is None ==> final(self).chunked_pts == Some(pts)
                && final(self).out_pts == Some(pts),
    {
        if self.chunked_pts.is_none() {
            self.chunked_pts = Some(pts);
            self.out_pts = Some(pts);
        }
    }

    /// Put samples behind those of the current chunk, which has room for them. Returns
    /// whether the chunk is full.
    #[verifier::spinoff_prover]
    pub fn append_samples(&mut self, samples: &Vec<u32>, chunk_duration_ms: u32) -> (full: bool)
        requires
            chunk_bytes(chunk_duration_ms) <= usize::MAX,
            4 * (old(self).current_chunk@.len() + samples@.len()) <= chunk_bytes(
                chunk_duration_ms,
            ),
        ensures
            final(self).current_chunk@ == old(self).current_chunk@ + samples@,
            final(self).previous_chunk == old(self).previous_chunk,
            final(self).chunked_pts == old(self).chunked_pts,
            final(self).out_pts == old(self).out_pts,
            full == (4 * final(self).current_chunk@.len() == chunk_bytes(chunk_duration_ms)),
    {
        let ghost before = self.current_chunk@;
        let size: usize = chunk_duration_ms as usize * 16 * 4;
        let mut i: usize = 0;
        while i < samples.len()
            invariant
                i <= samples.len(),
                self.previous_chunk == old(self).previous_chunk,
                self.chunked_pts == old(self).chunked_pts,
                self.out_pts == old(self).out_pts,
                self.current_chunk@ == before + samples@.take(i as int),
            decreases samples.len() - i,
        {
            self.current_chunk.push(samples[i]);
            assert(self.current_chunk@ =~= before + samples@.take(i + 1));
            i = i + 1;
        }
        assert(samples@.take(i as int) =~= samples@);
        self.current_chunk.len() == size / 4
    }

    /// Put as many of the bytes from `offset` on as fit into the current chunk. Returns
    /// where the next bytes are, and whether the chunk is full.
    pub fn fill(
        &mut self,
        data: &[u8],
        offset: usize,
        chunk_duration_ms: u32,
    ) -> (r: Result<(usize, bool), WordsError>)
        requires
            offset <= data@.len(),
            chunk_bytes(chunk_duration_ms) <= usize::MAX,
            4 * old(self).current_chunk@.len() <= chunk_bytes(chunk_duration_ms),
        ensures
            final(self).previous_chunk == old(self).previous_chunk,
            final(self).chunked_pts == old(self).chunked_pts,
            final(self).out_pts == old(self).out_pts,
            r is Err ==> *final(self) == *old(self),
            r == Err::<(usize, bool), WordsError>(WordsError::Length) <==> old(self).share(
                data@.len() as int,
                offset as int,
                chunk_duration_ms,
            ) % 4 != 0,
            old(self).share(data@.len() as int, offset as int, chunk_duration_ms) == 0 ==> r is Ok,
            r matches Ok((end, full)) ==> {
                &&& end == offset + old(self).share(
                    data@.len() as int,
                    offset as int,
                    chunk_duration_ms,
                )
                &&& appended(
                    old(self).current_chunk@,
                    data@.subrange(offset as int, end as int),
                    final(self).current_chunk@,
                )
                &&& 4 * final(self).current_chunk@.len() <= chunk_bytes(chunk_duration_ms)
                &&& full == (4 * final(self).current_chunk@.len() == chunk_bytes(
                    chunk_duration_ms,
                ))
            },
    {
        let size: usize = chunk_duration_ms as usize * 16 * 4;
        let held: usize = self.current_chunk.len();
        let room: usize = size - held * 4;
        let left: usize = data.len() - offset;
        let taken: usize = if left < room {
            left
        } else {
            room
        };
        let end: usize = offset + taken;
        let samples = words_in(slice_subrange(data, offset, end));
        match samples {
            Ok(samples) => {
                let ghost before = self.current_chunk@;
                assert(crate::words::holds_words(
                    data@.subrange(offset as int, end as int),
                    samples@,
                ));
                let full: bool = self.append_samples(&samples, chunk_duration_ms);
                assert(appended(
                    before,
                    data@.subrange(offset as int, end as int),
                    self.current_chunk@,
                ));
                Ok((end, full))
            },
            Err(error) => Err(error),
        }
    }

    /// The circumstances of an inference on the chunks.
    pub open spec fn inference(self, settings: Settings, drain: bool) -> Inference {
        Inference {
            settings,
            begin: self.chunked_pts->0,
            had_previous: self.previous_chunk@.len() > 0,
            drain,
        }
    }

    /// When the chunks end.
    pub open spec fn chunks_end(self) -> int {
        self.chunked_pts->0 + duration_of(
            (self.previous_chunk@.len() + self.current_chunk@.len()) as int,
        )
    }

    /// Put the words together that the tokens of an inference make. Tokens outside of the
    /// window of accepted tokens are left out, unless they continue a word that began in it.
    pub fn gather_words(
        &self,
        tokens: &Vec<Token>,
        settings: &Settings,
        drain: bool,
    ) -> (r: Vec<TimedText>)
        requires
            self.chunked_pts is Some,
            self.chunks_end() <= LAST_TIME,
            forall|i: int|
                0 <= i < tokens@.len() ==> self.inference(*settings, drain).time_of(
                    #[trigger] tokens@[i],
                ) <= LAST_TIME,
        ensures
            all_emitted(r@) == self.inference(*settings, drain).words(
                tokens@,
                self.chunks_end() as u64,
            ),
    {
        let begin: u64 = self.chunked_pts.unwrap();
        let had_previous: bool = self.previous_chunk.len() > 0;
        let ghost inference = self.inference(*settings, drain);
        let mut held = TokenAccumulator { gst_dtw: 0, data: None };
        let mut texts: Vec<TimedText> = Vec::new();
        let mut i: usize = 0;
        assert(tokens@.take(0) =~= Seq::<Token>::empty());
        assert(all_emitted(texts@) =~= Seq::<Emitted>::empty());
        while i < tokens.len()
            invariant
                i <= tokens.len(),
                inference == self.inference(*settings, drain),
                begin == inference.begin,
                had_previous == inference.had_previous,
                forall|k: int|
                    0 <= k < tokens@.len() ==> inference.time_of(#[trigger] tokens@[k])
                        <= LAST_TIME,
                held@ == inference.after_all(tokens@.take(i as int)).pending,
                all_emitted(texts@) == inference.after_all(tokens@.take(i as int)).output,
            decreases tokens.len() - i,
        {
            let token = &tokens[i];
            proof {
                let next = tokens@.take(i + 1);
                assert(next.drop_last() =~= tokens@.take(i as int));
                assert(next.last() == token);
                assert(inference.time_of(tokens@[i as int]) <= LAST_TIME);
            }
            let at: u64 = begin + token.time_ms * MILLISECOND;
            let begins: bool = token.text.as_str().unicode_len() > 0
                && token.text.as_str().get_char(0) == ' ';
            let taken: bool = settings.accepts_token(token.time_ms, had_previous, drain);
            if begins && !taken {
                push_text(&mut texts, held.drain(at));
            } else if begins || held.data.is_some() {
                push_text(&mut texts, held.push(at, token.text.clone()));
            }
            i = i + 1;
        }
        assert(tokens@.take(i as int) =~= tokens@);
        let samples: u64 = self.previous_chunk.len() as u64 + self.current_chunk.len() as u64;
        let end: u64 = begin + duration_of_samples(samples);
        push_text(&mut texts, held.drain(end));
        texts
    }

    /// What inference works on: the previous chunk and the current one.
    pub fn to_process(&self) -> (r: Vec<u32>)
        ensures
            r@ == self.previous_chunk@ + self.current_chunk@,
    {
        let mut samples: Vec<u32> = Vec::new();
        let mut i: usize = 0;
        while i < self.previous_chunk.len()
            invariant
                i <= self.previous_chunk.len(),
                samples@ == self.previous_chunk@.take(i as int),
            decreases self.previous_chunk.len() - i,
        {
            samples.push(self.previous_chunk[i]);
            assert(samples@ =~= self.previous_chunk@.take(i + 1));
            i = i + 1;
        }
        assert(samples@ =~= self.previous_chunk@);
        let mut k: usize = 0;
        while k < self.current_chunk.len()
            invariant
                k <= self.current_chunk.len(),
                samples@ == self.previous_chunk@ + self.current_chunk@.take(k as int),
            decreases self.current_chunk.len() - k,
        {
            samples.push(self.current_chunk[k]);
            assert(samples@ =~= self.previous_chunk@ + self.current_chunk@.take(k + 1));
            k = k + 1;
        }
        assert(samples@ =~= self.previous_chunk@ + self.current_chunk@);
        samples
    }

    /// A full chunk was used for inference: it becomes the previous one, and the oldest chunk
    /// begins later by the length of the one that is dropped.
    pub fn advance(&mut self)
        requires
            old(self).chunked_pts matches Some(pts) && pts + duration_of(
                old(self).previous_chunk@.len() as int,
            ) <= LAST_TIME,
        ensures
            final(self).previous_chunk@ == old(self).current_chunk@,
            final(self).current_chunk@.len() == 0,
            final(self).chunked_pts == Some(
                (old(self).chunked_pts->0 + duration_of(
                    old(self).previous_chunk@.len() as int,
                )) as u64,
            ),
            final(self).out_pts == old(self).out_pts,
    {
        proof {
            law_durations_add_up(self.previous_chunk@.len() as int, 0);
        }
        let dropped: u64 = duration_of_samples(self.previous_chunk.len() as u64);
        match self.chunked_pts {
            Some(pts) => {
                self.chunked_pts = Some(pts + dropped);
            },
            None => {},
        }
        let mut full: Vec<u32> = Vec::new();
        std::mem::swap(&mut full, &mut self.current_chunk);
        self.previous_chunk = full;
    }

    /// All samples were used for inference: the next buffer begins anew.
    pub fn drained(&mut self)
        ensures
            final(self).current_chunk@.len() == 0,
            final(self).previous_chunk@.len() == 0,
            final(self).chunked_pts is None,
            final(self).out_pts == old(self).out_pts,
    {
        self.current_chunk.clear();
        self.previous_chunk.clear();
        self.chunked_pts = None;
    }

    /// A gap in the input moves the output behind it.
    pub fn skip_gap(&mut self, gap: InputGap)
        requires
            gap.duration matches Some(duration) ==> gap.pts + duration <= LAST_TIME,
        ensures
            final(self).current_chunk == old(self).current_chunk,
            final(self).previous_chunk == old(self).previous_chunk,
            final(self).chunked_pts == old(self).chunked_pts,
            final(self).out_pts == Some(
                match gap.duration {
                    Some(duration) => (gap.pts + duration) as u64,
                    None => gap.pts,
                },
            ),
    {
        self.out_pts = Some(
            match gap.duration {
                Some(duration) => gap.pts + duration,
                None => gap.pts,
            },
        );
    }
}

/// A step of the output.
#[derive(Debug, Clone, Copy, PartialEq, Eq, Structural)]
pub enum OutputStep {
    /// Nothing is spoken from `pts` on for `duration`.
    Gap { pts: u64, duration: u64 },
    /// The text at this place of the list is pushed.
    Push { index: usize },
}

/// When a text of the output begins, and how long it lasts.
#[derive(Debug, Clone, Copy, PartialEq, Eq, Structural)]
pub struct Span {
    pub pts: u64,
    pub duration: u64,
}

/// The steps of an output, and up to when it reaches.
#[verifier::ext_equal]
pub struct Plan {
    pub steps: Seq<OutputStep>,
    pub reach: int,
}

/// Where the window of accepted tokens begins: behind the oldest chunk.
pub open spec fn window_start(chunked_pts: u64, settings: Settings) -> int {
    chunked_pts + settings.window_offset()
}

/// First the output catches up with the window's start.
pub open spec fn caught_up(out_pts: u64, chunked_pts: Option<u64>, settings: Settings) -> Plan {
    match chunked_pts {
        Some(chunked) => {
            let start = window_start(chunked, settings);
            if out_pts < start {
                Plan {
                    steps: seq![
                        OutputStep::Gap { pts: out_pts, duration: (start - out_pts) as u64 },
                    ],
                    reach: start,
                }
            } else {
                Plan { steps: Seq::empty(), reach: out_pts as int }
            }
        },
        None => Plan { steps: Seq::empty(), reach: out_pts as int },
    }
}

/// Then the texts follow, each behind a gap where it begins later than the output reaches.
pub open spec fn followed(plan: Plan, spans: Seq<Span>) -> Plan
    decreases spans.len(),
{
    if spans.len() == 0 {
        plan
    } else {
        let before = followed(plan, spans.drop_last());
        let span = spans.last();
        let push = OutputStep::Push { index: (spans.len() - 1) as usize };
        let steps = if span.pts > before.reach {
            before.steps.push(
                OutputStep::Gap {
                    pts: before.reach as u64,
                    duration: (span.pts - before.reach) as u64,
                },
            ).push(push)
        } else {
            before.steps.push(push)
        };
        Plan { steps, reach: span.pts + span.duration }
    }
}

/// The output's times can be computed.
pub open spec fn spans_fit(spans: Seq<Span>) -> bool {
    forall|i: int|
        0 <= i < spans.len() ==> (#[trigger] spans[i]).pts + spans[i].duration <= LAST_TIME
}

/// Plan an output: what to push, with gaps where nothing is spoken, and up to when it
/// reaches. `None`, if the stream has not begun, which it has where there are texts.
pub fn plan_output(
    state: &ChunkState,
    settings: &Settings,
    spans: &Vec<Span>,
) -> (r: Option<(Vec<OutputStep>, u64)>)
    requires
        state.out_pts is None ==> spans@.len() == 0,
        state.chunked_pts matches Some(chunked) ==> window_start(chunked, *settings) <= LAST_TIME,
        spans_fit(spans@),
    ensures
        (r is None) == (state.out_pts is None),
        r matches Some((steps, reach)) ==> followed(
            caught_up(state.out_pts->0, state.chunked_pts, *settings),
            spans@,
        ) == (Plan { steps: steps@, reach: reach as int }),
        r matches Some((steps, reach)) ==> (state.chunked_pts matches Some(chunked) ==> ((forall|
            i: int,
        |
            0 <= i < spans@.len() ==> (#[trigger] spans@[i]).pts >= chunked + (
            settings.chunk_duration_ms - settings.live_edge_offset_ms) * 1_000_000) ==> reach
            >= chunked + (settings.chunk_duration_ms - settings.live_edge_offset_ms)
            * 1_000_000)),
{
    let mut reach: u64 = match state.out_pts {
        Some(out_pts) => out_pts,
        None => {
            return None;
        },
    };
    let mut steps: Vec<OutputStep> = Vec::new();
    let ghost start = caught_up(reach, state.chunked_pts, *settings);
    match state.chunked_pts {
        Some(chunked) => {
            let offset: u64 = if settings.live_edge_offset_ms >= settings.chunk_duration_ms {
                0
            } else {
                (settings.chunk_duration_ms - settings.live_edge_offset_ms) as u64 * MILLISECOND
            };
            let window: u64 = chunked + offset;
            if reach < window {
                steps.push(OutputStep::Gap { pts: reach, duration: window - reach });
                reach = window;
            }
        },
        None => {},
    }
    assert(start =~= Plan { steps: steps@, reach: reach as int });
    let mut i: usize = 0;
    assert(spans@.take(0) =~= Seq::<Span>::empty());
    while i < spans.len()
        invariant
            i <= spans.len(),
            spans_fit(spans@),
            followed(start, spans@.take(i as int)) == (Plan { steps: steps@, reach: reach as int }),
        decreases spans.len() - i,
    {
        let span = spans[i];
        proof {
            assert(spans@[i as int].pts + spans@[i as int].duration <= LAST_TIME);
            let next = spans@.take(i + 1);
            assert(next.drop_last() =~= spans@.take(i as int));
            assert(next.last() == span);
        }
        if span.pts > reach {
            steps.push(OutputStep::Gap { pts: reach, duration: span.pts - reach });
        }
        steps.push(OutputStep::Push { index: i });
        reach = span.pts + span.duration;
        assert(followed(start, spans@.take(i + 1)) =~= Plan { steps: steps@, reach: reach as int });
        i = i + 1;
    }
    assert(spans@.take(i as int) =~= spans@);
    proof {
        if let Some(chunked) = state.chunked_pts {
            law_output_reaches_the_window(state.out_pts->0, chunked, *settings, spans@);
        }
    }
    Some((steps, reach))
}

/// When a step begins.
pub open spec fn step_start(step: OutputStep, spans: Seq<Span>) -> int {
    match step {
        OutputStep::Gap { pts, duration } => pts as int,
        OutputStep::Push { index } => spans[index as int].pts as int,
    }
}

/// When a step ends.
pub open spec fn step_end(step: OutputStep, spans: Seq<Span>) -> int {
    match step {
        OutputStep::Gap { pts, duration } => pts + duration,
        OutputStep::Push { index } => spans[index as int].pts + spans[index as int].duration,
    }
}

/// Each step begins where the one before it ends, the first at `from` and the last at `to`.
pub open spec fn seamless(steps: Seq<OutputStep>, spans: Seq<Span>, from: int, to: int) -> bool
    decreases steps.len(),
{
    if steps.len() == 0 {
        from == to
    } else {
        &&& step_end(steps.last(), spans) == to
        &&& seamless(steps.drop_last(), spans, from, step_start(steps.last(), spans))
    }
}

/// A text does not begin before the one before it ends; the first not before `from`.
pub open spec fn follows(spans: Seq<Span>, from: int, i: int) -> bool {
    spans[i].pts >= (if i == 0 {
        from
    } else {
        spans[i - 1].pts + spans[i - 1].duration
    })
}

/// No text begins before the one before it ends, nor before `from`.
pub open spec fn in_sequence(spans: Seq<Span>, from: int) -> bool {
    forall|i: int| 0 <= i < spans.len() ==> #[trigger] follows(spans, from, i)
}

proof fn lemma_more_spans(
    steps: Seq<OutputStep>,
    spans: Seq<Span>,
    more: Seq<Span>,
    from: int,
    to: int,
    n: nat,
)
    requires
        seamless(steps, spans, from, to),
        n <= spans.len() <= more.len(),
        forall|i: int| 0 <= i < n ==> spans[i] == more[i],
        forall|k: int|
            0 <= k < steps.len() ==> (#[trigger] steps[k] matches OutputStep::Push { index } ==> index
                < n),
    ensures
        seamless(steps, more, from, to),
    decreases steps.len(),
{
    if steps.len() > 0 {
        let rest = steps.drop_last();
        assert(forall|k: int| 0 <= k < rest.len() ==> rest[k] == steps[k]);
        assert(steps.last() == steps[steps.len() - 1]);
        lemma_more_spans(rest, spans, more, from, step_start(steps.last(), spans), n);
    }
}

/// As long as the texts come in sequence, the output is without holes: from where it stood,
/// each gap or text begins where the one before it ends.
pub proof fn law_output_has_no_holes(
    out_pts: u64,
    chunked_pts: Option<u64>,
    settings: Settings,
    spans: Seq<Span>,
)
    requires
        chunked_pts matches Some(chunked) ==> window_start(chunked, settings) <= LAST_TIME,
        spans_fit(spans),
        spans.len() <= usize::MAX,
        in_sequence(spans, caught_up(out_pts, chunked_pts, settings).reach),
    ensures
        ({
            let plan = followed(caught_up(out_pts, chunked_pts, settings), spans);
            seamless(plan.steps, spans, out_pts as int, plan.reach)
        }),
{
    lemma_seamless(out_pts, chunked_pts, settings, spans);
}

proof fn lemma_seamless(
    out_pts: u64,
    chunked_pts: Option<u64>,
    settings: Settings,
    spans: Seq<Span>,
)
    requires
        chunked_pts matches Some(chunked) ==> window_start(chunked, settings) <= LAST_TIME,
        spans_fit(spans),
        spans.len() <= usize::MAX,
        in_sequence(spans, caught_up(out_pts, chunked_pts, settings).reach),
    ensures
        ({
            let plan = followed(caught_up(out_pts, chunked_pts, settings), spans);
            &&& seamless(plan.steps, spans, out_pts as int, plan.reach)
            &&& forall|k: int|
                0 <= k < plan.steps.len() ==> (
                #[trigger] plan.steps[k] matches OutputStep::Push { index } ==> index < spans.len())
            &&& 0 <= plan.reach <= u64::MAX
            &&& spans.len() > 0 ==> plan.reach == spans.last().pts + spans.last().duration
            &&& spans.len() == 0 ==> plan == caught_up(out_pts, chunked_pts, settings)
        }),
    decreases spans.len(),
{
    let start = caught_up(out_pts, chunked_pts, settings);
    let plan = followed(start, spans);
    if spans.len() == 0 {
        reveal_with_fuel(seamless, 2);
        if start.steps.len() > 0 {
            assert(start.steps.drop_last() =~= Seq::<OutputStep>::empty());
        }
        assert(seamless(plan.steps, spans, out_pts as int, plan.reach));
    } else {
        let rest = spans.drop_last();
        assert(spans_fit(rest)) by {
            assert forall|i: int| 0 <= i < rest.len() implies (#[trigger] rest[i]).pts
                + rest[i].duration <= LAST_TIME by {
                assert(rest[i] == spans[i]);
            }
        }
        assert forall|i: int| 0 <= i < rest.len() implies #[trigger] follows(
            rest,
            start.reach,
            i,
        ) by {
            assert(follows(spans, start.reach, i));
        }
        assert(follows(spans, start.reach, spans.len() - 1));
        lemma_seamless(out_pts, chunked_pts, settings, rest);
        let before = followed(start, rest);
        let n = rest.len();
        lemma_more_spans(before.steps, rest, spans, out_pts as int, before.reach, n);
        let span = spans.last();
        assert(span == spans[n as int]);
        assert(span.pts >= before.reach);
        let push = OutputStep::Push { index: n as usize };
        if span.pts > before.reach {
            let gap = OutputStep::Gap {
                pts: before.reach as u64,
                duration: (span.pts - before.reach) as u64,
            };
            let gapped = before.steps.push(gap);
            assert(gapped.drop_last() =~= before.steps);
            assert(seamless(gapped, spans, out_pts as int, span.pts as int));
            assert(plan.steps.drop_last() =~= gapped);
        } else {
            assert(plan.steps.drop_last() =~= before.steps);
        }
        assert(plan.steps.last() == push);
        assert(seamless(plan.steps.drop_last(), spans, out_pts as int, span.pts as int));
        assert(seamless(plan.steps, spans, out_pts as int, plan.reach));
        assert forall|k: int| 0 <= k < plan.steps.len() implies (
        #[trigger] plan.steps[k] matches OutputStep::Push { index } ==> index < spans.len()) by {
            if k < before.steps.len() {
                assert(plan.steps[k] == before.steps[k]);
            }
        }
    }
}

/// While a chunk is under way the output does not stand still: unless a text begins before
/// the window of accepted tokens, it reaches at least up to the window's start, as long
/// behind the oldest chunk as a chunk lasts but for the offset. Where nothing was spoken it
/// ends there, behind a single gap that goes on from where the output stood; an output that
/// is already there stays as it is.
pub proof fn law_output_reaches_the_window(
    out_pts: u64,
    chunked: u64,
    settings: Settings,
    spans: Seq<Span>,
)
    requires
        window_start(chunked, settings) <= LAST_TIME,
    ensures
        ({
            let plan = followed(caught_up(out_pts, Some(chunked), settings), spans);
            let offset = settings.chunk_duration_ms - settings.live_edge_offset_ms;
            let start = chunked + offset * 1_000_000;
            &&& (forall|i: int| 0 <= i < spans.len() ==> (#[trigger] spans[i]).pts >= start)
                ==> plan.reach >= start
            &&& spans.len() == 0 && offset >= 0 && out_pts < start ==> plan.reach == start
                && plan.steps.len() == 1 && plan.steps[0] == (OutputStep::Gap {
                pts: out_pts,
                duration: (start - out_pts) as u64,
            })
            &&& spans.len() == 0 && out_pts >= start && out_pts >= chunked ==> plan.reach == out_pts
                && plan.steps.len() == 0
        }),
{
    let start = chunked + (settings.chunk_duration_ms - settings.live_edge_offset_ms) * 1_000_000;
    if spans.len() > 0 {
        assert(spans.last() == spans[spans.len() - 1]);
    }
}

/// Every text is pushed, once, and in the order of the list; everything else is a gap. The
/// output then reaches up to the end of the last text.
pub proof fn law_every_text_is_pushed_once(
    out_pts: u64,
    chunked_pts: Option<u64>,
    settings: Settings,
    spans: Seq<Span>,
)
    requires
        spans.len() <= usize::MAX,
    ensures
        ({
            let plan = followed(caught_up(out_pts, chunked_pts, settings), spans);
            &&& forall|k: int|
                0 <= k < plan.steps.len() ==> (
                #[trigger] plan.steps[k] matches OutputStep::Push { index } ==> index < spans.len())
            &&& forall|k: int, l: int|
                0 <= k < l < plan.steps.len() ==> (
                #[trigger] plan.steps[k] matches OutputStep::Push { index: i } ==> (
                #[trigger] plan.steps[l] matches OutputStep::Push { index: j } ==> i < j))
            &&& forall|i: usize|
                i < spans.len() ==> #[trigger] plan.steps.contains(OutputStep::Push { index: i })
            &&& spans.len() > 0 ==> plan.reach == spans.last().pts + spans.last().duration
        }),
    decreases spans.len(),
{
    let plan = followed(caught_up(out_pts, chunked_pts, settings), spans);
    if spans.len() > 0 {
        let rest = spans.drop_last();
        law_every_text_is_pushed_once(out_pts, chunked_pts, settings, rest);
        let before = followed(caught_up(out_pts, chunked_pts, settings), rest);
        let push = OutputStep::Push { index: (spans.len() - 1) as usize };
        assert forall|k: int| 0 <= k < before.steps.len() implies plan.steps[k]
            == before.steps[k] by {}
        assert(plan.steps.last() == push);
        assert forall|i: usize| i < spans.len() implies #[trigger] plan.steps.contains(
            OutputStep::Push { index: i },
        ) by {
            if i < rest.len() {
                assert(before.steps.contains(OutputStep::Push { index: i }));
                let k = choose|k: int|
                    0 <= k < before.steps.len() && before.steps[k] == (OutputStep::Push {
                        index: i,
                    });
                assert(plan.steps[k] == before.steps[k]);
            } else {
                assert(plan.steps[plan.steps.len() - 1] == push);
            }
        }
        assert forall|k: int| 0 <= k < plan.steps.len() implies (
        #[trigger] plan.steps[k] matches OutputStep::Push { index } ==> index < spans.len()
            && (index == spans.len() - 1 ==> k == plan.steps.len() - 1)) by {
            if k < before.steps.len() {
                assert(plan.steps[k] == before.steps[k]);
            }
        }
        assert forall|k: int, l: int| 0 <= k < l < plan.steps.len() implies (
        #[trigger] plan.steps[k] matches OutputStep::Push { index: i } ==> (
        #[trigger] plan.steps[l] matches OutputStep::Push { index: j } ==> i < j)) by {
            if l < before.steps.len() {
                assert(plan.steps[k] == before.steps[k]);
                assert(plan.steps[l] == before.steps[l]);
            } else if k < before.steps.len() {
                assert(plan.steps[k] == before.steps[k]);
            }
        }
    }
}

/// What arrives at the transcriber besides buffers.
#[derive(Debug, Clone, Copy, PartialEq, Eq, Structural)]
pub enum SinkEvent {
    FlushStart,
    FlushStop,
    Caps,
    Eos,
    Segment,
    SegmentDone,
    Gap(InputGap),
    Other,
}

/// Nothing arrives from `pts` on for `duration`.
#[derive(Debug, Clone, Copy, PartialEq, Eq, Structural)]
pub struct InputGap {
    pub pts: u64,
    pub duration: Option<u64>,
}

/// What the transcriber does about it.
#[derive(Debug, Clone, Copy, PartialEq, Eq, Structural)]
pub enum SinkAction {
    /// Abandon the work under way, and pass the event on.
    Abandon,
    /// Start anew, and pass the event on.
    Reset,
    /// Announce the caps of the output instead of those of the input.
    AnnounceCaps,
    /// Transcribe what is there, push it, move the output behind the gap if there is one,
    /// and pass the event on.
    Drain { gap: Option<InputGap> },
    /// Pass the event on.
    Forward,
}

/// What the transcriber does about an event.
pub open spec fn action_for(event: SinkEvent) -> SinkAction {
    match event {
        SinkEvent::FlushStart => SinkAction::Abandon,
        SinkEvent::FlushStop => SinkAction::Reset,
        SinkEvent::Caps => SinkAction::AnnounceCaps,
        SinkEvent::Eos | SinkEvent::Segment | SinkEvent::SegmentDone => SinkAction::Drain {
            gap: None,
        },
        SinkEvent::Gap(gap) => SinkAction::Drain { gap: Some(gap) },
        SinkEvent::Other => SinkAction::Forward,
    }
}

/// What the transcriber does about an event.
pub fn sink_action(event: SinkEvent) -> (r: SinkAction)
    ensures
        r == action_for(event),
{
    match event {
        SinkEvent::FlushStart => SinkAction::Abandon,
        SinkEvent::FlushStop => SinkAction::Reset,
        SinkEvent::Caps => SinkAction::AnnounceCaps,
        SinkEvent::Eos | SinkEvent::Segment | SinkEvent::SegmentDone => SinkAction::Drain {
            gap: None,
        },
        SinkEvent::Gap(gap) => SinkAction::Drain { gap: Some(gap) },
        SinkEvent::Other => SinkAction::Forward,
    }
}

/// What is spoken within the offset before the end of the newest chunk is left to the next
/// inference, unless the stream ends; what is spoken before the same distance from the end
/// of the previous chunk was accepted by the one before.
pub proof fn law_the_live_edge_is_left_to_the_next(settings: Settings, time_ms: int)
    ensures
        settings.accepts(time_ms, false, false) <==> time_ms + settings.live_edge_offset_ms
            < settings.chunk_duration_ms,
        settings.accepts(time_ms, true, false) <==> settings.chunk_duration_ms <= time_ms
            + settings.live_edge_offset_ms < 2 * settings.chunk_duration_ms,
        settings.accepts(time_ms, true, true) <==> settings.chunk_duration_ms <= time_ms
            + settings.live_edge_offset_ms,
        settings.accepts(time_ms, false, true),
{
}

/// A full chunk lasts as long as is configured: its bytes are the samples of that time, four
/// bytes each.
pub proof fn law_full_chunks_last_as_configured(chunk_duration_ms: u32)
    ensures
        chunk_bytes(chunk_duration_ms) % 4 == 0,
        duration_of(chunk_bytes(chunk_duration_ms) / 4) == chunk_duration_ms * 1_000_000,
{
}

/// Data goes into a chunk as far as it and the room in the chunk go: all of it is taken, or
/// the chunk is full behind it. The samples that were there stay in front.
pub proof fn law_chunks_take_what_fits(
    state: ChunkState,
    len: int,
    offset: int,
    chunk_duration_ms: u32,
    bytes: Seq<u8>,
    after: Seq<u32>,
)
    requires
        0 <= offset <= len,
        4 * state.current_chunk@.len() <= 64 * chunk_duration_ms,
        appended(state.current_chunk@, bytes, after),
    ensures
        ({
            let taken = state.share(len, offset, chunk_duration_ms);
            &&& 0 <= taken <= len - offset
            &&& 4 * state.current_chunk@.len() + taken <= 64 * chunk_duration_ms
            &&& taken == len - offset || 4 * state.current_chunk@.len() + taken == 64
                * chunk_duration_ms
        }),
        4 * after.len() == 4 * state.current_chunk@.len() + bytes.len(),
        forall|i: int|
            0 <= i < state.current_chunk@.len() ==> after[i] == #[trigger] state.current_chunk@[i],
{
}

/// An inference counts its times from the start of the oldest chunk, knows whether that is
/// the previous one, and ends where the samples do: each lasts 62.5 microseconds.
pub proof fn law_inferences_cover_their_chunks(state: ChunkState, settings: Settings, drain: bool)
    requires
        state.chunked_pts is Some,
    ensures
        state.inference(settings, drain).begin == state.chunked_pts->0,
        state.inference(settings, drain).had_previous <==> state.previous_chunk@.len() > 0,
        state.inference(settings, drain).drain == drain,
        state.inference(settings, drain).settings == settings,
        state.chunks_end() == state.chunked_pts->0 + 62_500 * (state.previous_chunk@.len()
            + state.current_chunk@.len()),
{
    law_durations_add_up(
        (state.previous_chunk@.len() + state.current_chunk@.len()) as int,
        0,
    );
}

/// Where every token begins a word and lies in the window, each comes out as it was heard:
/// at its own time, and up to when the next one was heard, the last one up to the end. A
/// word does not end before it begins.
pub proof fn law_words_last_up_to_the_next(
    inference: Inference,
    tokens: Seq<Token>,
    end: u64,
    i: int,
)
    requires
        forall|k: int|
            0 <= k < tokens.len() ==> (#[trigger] tokens[k]).text@.len() > 0 && tokens[k].text@[0]
                == ' ' && inference.settings.accepts(
                tokens[k].time_ms as int,
                inference.had_previous,
                inference.drain,
            ) && inference.begin + tokens[k].time_ms * 1_000_000 <= u64::MAX,
        0 <= i < tokens.len(),
    ensures
        inference.words(tokens, end).len() == tokens.len(),
        ({
            let word = inference.words(tokens, end)[i];
            let next = if i + 1 < tokens.len() {
                inference.begin + tokens[i + 1].time_ms * 1_000_000
            } else {
                end as int
            };
            &&& word.text == tokens[i].text@
            &&& word.pts == inference.begin + tokens[i].time_ms * 1_000_000
            &&& word.duration >= 0
            &&& next >= word.pts ==> word.pts + word.duration == next
            &&& next < word.pts ==> word.duration == 0
        }),
{
    lemma_words_one_by_one(inference, tokens);
    let heard = inference.after_all(tokens);
    assert(inference.words(tokens, end) == heard.output.push(heard.pending.released(end)->0));
}

proof fn lemma_words_one_by_one(inference: Inference, tokens: Seq<Token>)
    requires
        forall|k: int|
            0 <= k < tokens.len() ==> (#[trigger] tokens[k]).text@.len() > 0 && tokens[k].text@[0]
                == ' ' && inference.settings.accepts(
                tokens[k].time_ms as int,
                inference.had_previous,
                inference.drain,
            ) && inference.begin + tokens[k].time_ms * 1_000_000 <= u64::MAX,
        tokens.len() > 0,
    ensures
        ({
            let heard = inference.after_all(tokens);
            let last = tokens.len() - 1;
            &&& heard.pending.at == inference.begin + tokens[last].time_ms * 1_000_000
            &&& heard.pending.text == Some(tokens[last].text@)
            &&& heard.output.len() == last
            &&& forall|i: int|
                #![trigger heard.output[i]]
                0 <= i < last ==> {
                    let word = heard.output[i];
                    let next = inference.begin + tokens[i + 1].time_ms * 1_000_000;
                    &&& word.text == tokens[i].text@
                    &&& word.pts == inference.begin + tokens[i].time_ms * 1_000_000
                    &&& word.duration >= 0
                    &&& next >= word.pts ==> word.pts + word.duration == next
                    &&& next < word.pts ==> word.duration == 0
                }
        }),
    decreases tokens.len(),
{
    let rest = tokens.drop_last();
    let last = tokens.len() - 1;
    assert(forall|k: int| 0 <= k < rest.len() ==> rest[k] == tokens[k]);
    assert(tokens.last() == tokens[last]);
    let before = inference.after_all(rest);
    let heard = inference.after_all(tokens);
    if rest.len() > 0 {
        lemma_words_one_by_one(inference, rest);
        assert(rest[last - 1] == tokens[last - 1]);
        assert forall|i: int| #![trigger heard.output[i]] 0 <= i < last implies {
            let word = heard.output[i];
            let next = inference.begin + tokens[i + 1].time_ms * 1_000_000;
            &&& word.text == tokens[i].text@
            &&& word.pts == inference.begin + tokens[i].time_ms * 1_000_000
            &&& word.duration >= 0
            &&& next >= word.pts ==> word.pts + word.duration == next
            &&& next < word.pts ==> word.duration == 0
        } by {
            if i < last - 1 {
                assert(heard.output[i] == before.output[i]);
                assert(rest[i] == tokens[i] && rest[i + 1] == tokens[i + 1]);
            }
        }
    } else {
        assert(rest =~= Seq::<Token>::empty());
    }
}

/// Every text that comes out begins with the space that begins a word.
pub proof fn law_words_begin_with_a_space(
    inference: Inference,
    tokens: Seq<Token>,
    end: u64,
    i: int,
)
    requires
        0 <= i < inference.words(tokens, end).len(),
    ensures
        inference.words(tokens, end)[i].text.len() > 0,
        inference.words(tokens, end)[i].text[0] == ' ',
{
    lemma_heard_words_begin_with_a_space(inference, tokens);
}

proof fn lemma_heard_words_begin_with_a_space(inference: Inference, tokens: Seq<Token>)
    ensures
        inference.after_all(tokens).pending.text matches Some(text) ==> text.len() > 0 && text[0]
            == ' ',
        forall|i: int|
            0 <= i < inference.after_all(tokens).output.len() ==> (
            #[trigger] inference.after_all(tokens).output[i]).text.len() > 0 && inference.after_all(
                tokens,
            ).output[i].text[0] == ' ',
    decreases tokens.len(),
{
    if tokens.len() > 0 {
        lemma_heard_words_begin_with_a_space(inference, tokens.drop_last());
    }
}

/// What was heard is transcribed before the stream ends, before a new segment and before a
/// gap, and the gap is then skipped; a flush discards it. Other events change nothing.
pub proof fn law_events_that_end_speech_drain(event: SinkEvent)
    ensures
        (event is Eos || event is Segment || event is SegmentDone) <==> action_for(event)
            == (SinkAction::Drain { gap: None }),
        event matches SinkEvent::Gap(gap) ==> action_for(event) == (SinkAction::Drain {
            gap: Some(gap),
        }),
        event is FlushStart <==> action_for(event) == SinkAction::Abandon,
        event is FlushStop <==> action_for(event) == SinkAction::Reset,
        event is Caps <==> action_for(event) == SinkAction::AnnounceCaps,
        event is Other <==> action_for(event) == SinkAction::Forward,
{
}

/// A token that begins with a space begins a word: it is held from then on, and what was held
/// before comes out, lasting up to then. Any other token is put behind what is held, which
/// then counts from the token's time, and nothing comes out.
pub proof fn law_tokens_join_their_word(pending: Pending, at: u64, token: Seq<char>)
    ensures
        token.len() > 0 && token[0] == ' ' ==> {
            &&& pending.taking(at, token) == (Pending { at, text: Some(token) })
            &&& (pending.gives(at, token) is Some) == (pending.text is Some)
            &&& pending.gives(at, token) matches Some(out) ==> {
                &&& out.text == pending.text->0
                &&& out.pts == pending.at
                &&& at >= pending.at ==> out.duration == at - pending.at
                &&& at < pending.at ==> out.duration == 0
            }
        },
        token.len() == 0 || token[0] != ' ' ==> {
            &&& pending.gives(at, token) is None
            &&& pending.text is None ==> pending.taking(at, token) == (Pending {
                at: pending.at,
                text: Some(token),
            })
            &&& pending.text matches Some(text) ==> pending.taking(at, token) == (Pending {
                at,
                text: Some(text + token),
            })
        },
{
}

/// Words are taken whole: whether one is taken is decided by the token that begins it. A
/// token that continues a word is put behind it, wherever it lies, and is left out where
/// nothing is held. A word that begins outside of the window ends the one before it, and is
/// not held.
pub proof fn law_words_are_taken_whole(inference: Inference, heard: Heard, token: Token)
    requires
        inference.begin + token.time_ms * 1_000_000 <= u64::MAX,
    ensures
        ({
            let begins = token.text@.len() > 0 && token.text@[0] == ' ';
            let at = (inference.begin + token.time_ms * 1_000_000) as u64;
            let inside = inference.settings.accepts(
                token.time_ms as int,
                inference.had_previous,
                inference.drain,
            );
            let after = inference.after(heard, token);
            &&& !begins && heard.pending.text is None ==> after == heard
            &&& !begins && heard.pending.text is Some ==> after.output == heard.output
                && after.pending == (Pending {
                at,
                text: Some(heard.pending.text->0 + token.text@),
            })
            &&& begins && inside ==> after.pending == (Pending { at, text: Some(token.text@) })
            &&& begins && !inside ==> after.pending.text is None
            &&& begins && heard.pending.text is None ==> after.output == heard.output
            &&& begins && heard.pending.text is Some ==> {
                &&& after.output.len() == heard.output.len() + 1
                &&& after.output.drop_last() == heard.output
                &&& after.output.last().text == heard.pending.text->0
                &&& after.output.last().pts == heard.pending.at
                &&& at >= heard.pending.at ==> after.output.last().duration == at
                    - heard.pending.at
            }
        }),
{
    let after = inference.after(heard, token);
    if token.text@.len() > 0 && token.text@[0] == ' ' && heard.pending.text is Some {
        assert(after.output.drop_last() =~= heard.output);
    }
}

/// A text that begins later than the output reaches is pushed behind a gap of just that
/// length, any other one directly; the output then reaches up to the text's end. Before a
/// chunk is under way there is no gap to begin with.
pub proof fn law_texts_are_pushed_behind_their_gap(
    plan: Plan,
    spans: Seq<Span>,
    span: Span,
    out_pts: u64,
    settings: Settings,
)
    requires
        spans.len() <= usize::MAX,
        0 <= followed(plan, spans).reach <= u64::MAX,
    ensures
        ({
            let before = followed(plan, spans);
            let after = followed(plan, spans.push(span));
            let n = before.steps.len() as int;
            let push = OutputStep::Push { index: spans.len() as usize };
            &&& after.reach == span.pts + span.duration
            &&& span.pts <= before.reach ==> after.steps == before.steps.push(push)
            &&& span.pts > before.reach ==> {
                &&& after.steps.len() == n + 2
                &&& after.steps.take(n) == before.steps
                &&& after.steps[n] matches OutputStep::Gap { pts, duration } && pts
                    == before.reach && pts + duration == span.pts
                &&& after.steps[n + 1] == push
            }
        }),
        caught_up(out_pts, None, settings).steps.len() == 0,
        caught_up(out_pts, None, settings).reach == out_pts,
{
    assert(spans.push(span).drop_last() =~= spans);
    let before = followed(plan, spans);
    let after = followed(plan, spans.push(span));
    if span.pts > before.reach {
        assert(after.steps.take(before.steps.len() as int) =~= before.steps);
    }
}

} // verus!
