use gstoverlays::attention::{create_causal_mask, AttentionConfig};
use gstoverlays::autobin::{child_factory, BinProperties, NamedValues};
use gstoverlays::scalar::Scalar;
use gstoverlays::text::{push_decimal, split_names};
use gstoverlays::transcriber::{
    answer_latency, duration_of_samples, keeps_up, plan_output, sink_action, ChunkState, InputGap,
    Latency, OutputStep, PrepareError, Settings, SinkAction, SinkEvent, Span, Token,
    TokenAccumulator,
};
use gstoverlays::words::WordsError;

const MS: u64 = 1_000_000;

fn settings() -> Settings {
    Settings {
        model_path: Some("model".to_string()),
        tokenizer_path: Some("tokenizer".to_string()),
        ..Settings::default()
    }
}

#[test]
fn settings_are_checked_before_the_start() {
    assert_eq!(
        settings().check(),
        Ok(("model".to_string(), "tokenizer".to_string()))
    );
    assert_eq!(Settings::default().check(), Err(PrepareError::NoModelPath));
    let no_tokenizer = Settings { tokenizer_path: None, ..settings() };
    assert_eq!(no_tokenizer.check(), Err(PrepareError::NoTokenizerPath));
    let too_large = Settings { live_edge_offset_ms: 4_000, ..settings() };
    assert_eq!(too_large.check(), Err(PrepareError::OffsetTooLarge));
    assert_eq!(PrepareError::NoModelPath.message(), "model-path property must be set");
    assert_eq!(PrepareError::NoTokenizerPath.message(), "tokenizer-path property must be set");
    assert_eq!(
        PrepareError::OffsetTooLarge.message(),
        "chunk-duration must be greater than live-edge-offset"
    );
}

#[test]
fn latency_grows_by_the_configured_times() {
    let live = Latency { live: true, min: 10 * MS, max: Some(20 * MS) };
    assert_eq!(
        answer_latency(Some(live), &settings()),
        Some(Latency { live: true, min: 6_010 * MS, max: Some(6_020 * MS) })
    );
    let unbounded = Latency { live: true, min: 0, max: None };
    assert_eq!(
        answer_latency(Some(unbounded), &settings()),
        Some(Latency { live: true, min: 6_000 * MS, max: None })
    );
    let stored = Latency { live: false, min: 5, max: Some(6) };
    assert_eq!(
        answer_latency(Some(stored), &settings()),
        Some(Latency { live: false, min: 0, max: None })
    );
    assert_eq!(answer_latency(None, &settings()), None);

    assert!(keeps_up(Some(live), &settings()));
    let slow = Settings { latency_ms: 5_000, ..settings() };
    assert!(!keeps_up(Some(live), &slow));
    assert!(keeps_up(Some(stored), &slow));
    assert!(keeps_up(None, &slow));
}

#[test]
fn tokens_are_gathered_into_words() {
    let mut words = TokenAccumulator { gst_dtw: 0, data: None };
    assert!(words.push(10, " Hel".to_string()).is_none());
    assert!(words.push(20, "lo".to_string()).is_none());
    let first = words.push(50, " you".to_string()).unwrap();
    assert_eq!(first.text, " Hello");
    assert_eq!((first.pts, first.duration), (20, 30));
    let last = words.drain(40).unwrap();
    assert_eq!(last.text, " you");
    // Words that end before they begin have no duration.
    assert_eq!((last.pts, last.duration), (50, 0));
    assert!(words.drain(60).is_none());
    // Without a word under way a token begins one, at the time of the one before.
    assert!(words.push(70, "x".to_string()).is_none());
    assert_eq!(words.drain(80).unwrap().pts, 50);
}

#[test]
fn samples_last() {
    assert_eq!(duration_of_samples(16_000), 1_000 * MS);
    assert_eq!(duration_of_samples(1), 62_500);
    assert_eq!(duration_of_samples(3) + duration_of_samples(4), duration_of_samples(7));
}

fn samples(values: &[f32]) -> Vec<u8> {
    values.iter().flat_map(|v| v.to_ne_bytes()).collect()
}

#[test]
fn chunks_are_filled_and_handed_on() {
    let mut state = ChunkState::default();
    state.begin(100);
    state.begin(999);
    assert_eq!((state.chunked_pts, state.out_pts), (Some(100), Some(100)));

    // A chunk of one millisecond holds sixteen samples.
    let data = samples(&[0.5; 20]);
    assert_eq!(state.fill(&data, 0, 1), Ok((64, true)));
    assert_eq!(state.current_chunk, vec![0.5f32.to_bits(); 16]);
    assert_eq!(state.to_process().len(), 16);
    state.advance();
    assert_eq!(state.chunked_pts, Some(100));
    assert_eq!(state.previous_chunk.len(), 16);

    assert_eq!(state.fill(&data, 64, 1), Ok((80, false)));
    assert_eq!(state.to_process().len(), 20);
    state.advance();
    // The first sixteen samples are gone: one millisecond.
    assert_eq!(state.chunked_pts, Some(100 + MS));

    assert_eq!(state.fill(&data[..6], 0, 1), Err(WordsError::Length));
    state.drained();
    assert!(state.to_process().is_empty());
    assert_eq!(state.chunked_pts, None);
    state.skip_gap(InputGap { pts: 7, duration: Some(3) });
    assert_eq!(state.out_pts, Some(10));
    state.skip_gap(InputGap { pts: 7, duration: None });
    assert_eq!(state.out_pts, Some(7));
}

#[test]
fn output_leaves_no_holes() {
    let mut state = ChunkState::default();
    assert_eq!(plan_output(&state, &settings(), &Vec::new()), None);
    state.begin(0);
    // The window of accepted tokens begins three seconds behind the oldest chunk.
    let spans = vec![
        Span { pts: 3_000 * MS, duration: 200 * MS },
        Span { pts: 3_500 * MS, duration: 100 * MS },
    ];
    assert_eq!(
        plan_output(&state, &settings(), &spans),
        Some((
            vec![
                OutputStep::Gap { pts: 0, duration: 3_000 * MS },
                OutputStep::Push { index: 0 },
                OutputStep::Gap { pts: 3_200 * MS, duration: 300 * MS },
                OutputStep::Push { index: 1 },
            ],
            3_600 * MS
        ))
    );
}

#[test]
fn events_are_answered() {
    assert_eq!(sink_action(SinkEvent::FlushStart), SinkAction::Abandon);
    assert_eq!(sink_action(SinkEvent::FlushStop), SinkAction::Reset);
    assert_eq!(sink_action(SinkEvent::Caps), SinkAction::AnnounceCaps);
    assert_eq!(sink_action(SinkEvent::Eos), SinkAction::Drain { gap: None });
    assert_eq!(sink_action(SinkEvent::Segment), SinkAction::Drain { gap: None });
    assert_eq!(sink_action(SinkEvent::SegmentDone), SinkAction::Drain { gap: None });
    let gap = InputGap { pts: 1, duration: None };
    assert_eq!(sink_action(SinkEvent::Gap(gap)), SinkAction::Drain { gap: Some(gap) });
    assert_eq!(sink_action(SinkEvent::Other), SinkAction::Forward);
}

#[test]
fn attention_shapes() {
    let config = AttentionConfig::new(512, 8, Some(2), 64, Some(100));
    let shape = config.shape();
    assert_eq!((shape.wq.d_input, shape.wq.d_output), (512, 512));
    assert_eq!((shape.wk.d_input, shape.wk.d_output), (512, 128));
    assert_eq!((shape.wo.d_input, shape.wo.d_output), (512, 512));
    assert_eq!(shape.kv_repeat(), Some(4));
    let full = AttentionConfig::new(512, 8, None, 64, None).shape();
    assert_eq!(full.n_kv_heads, 8);
    assert_eq!(full.kv_repeat(), None);
}

#[test]
fn causal_masks_hide_the_future() {
    let zero = Scalar::from_bits(0.0f32.to_bits());
    let hidden = Scalar::from_bits(f32::NEG_INFINITY.to_bits());
    assert_eq!(
        create_causal_mask(3),
        vec![zero, hidden, hidden, zero, zero, hidden, zero, zero, zero]
    );
}

#[test]
fn the_child_follows_the_memory() {
    let gl = vec!["memory:GLMemory".to_string()];
    let plain = vec!["memory:SystemMemory".to_string()];
    assert_eq!(child_factory("cpu", "gl", true, &gl), "gl");
    assert_eq!(child_factory("cpu", "gl", false, &gl), "cpu");
    assert_eq!(child_factory("cpu", "gl", true, &plain), "cpu");
}

#[test]
fn bin_properties_are_read_from_child_overrides_and_defaults() {
    let mut defaults = NamedValues::new();
    defaults.set("radius", 3);
    defaults.set("color", 7);
    let mut properties = BinProperties::new(defaults);
    properties.set("radius", 5);
    properties.set("radius", 6);
    assert_eq!(properties.read("radius", &None), Some(&6));
    assert_eq!(properties.read("color", &None), Some(&7));
    assert_eq!(properties.read("other", &None), None);
    assert_eq!(properties.read("radius", &Some(9)), Some(&9));
}

#[test]
fn numbers_and_names() {
    let mut text = "n=".to_string();
    push_decimal(&mut text, 0);
    push_decimal(&mut text, 1205);
    assert_eq!(text, "n=01205");
    assert_eq!(split_names(" a b ;\tc;;"), vec!["a b".to_string(), "c".to_string()]);
    assert!(split_names("").is_empty());
}

#[test]
fn appended_samples_fill_a_chunk() {
    let mut state = ChunkState::default();
    state.begin(5);
    assert!(!state.append_samples(&vec![1; 10], 1));
    assert!(!state.append_samples(&Vec::new(), 1));
    assert!(state.append_samples(&vec![2; 6], 1));
    assert_eq!(state.current_chunk, [vec![1; 10], vec![2; 6]].concat());
    assert!(state.previous_chunk.is_empty());
    assert_eq!((state.chunked_pts, state.out_pts), (Some(5), Some(5)));
}

#[test]
fn tokens_are_accepted_in_a_sliding_window() {
    // Chunks of four seconds, of which one second is left to stabilize.
    let settings = settings();
    let accepts = |ms, previous, drain| settings.accepts_token(ms, previous, drain);
    assert!(accepts(0, false, false));
    assert!(accepts(2_999, false, false));
    assert!(!accepts(3_000, false, false));
    assert!(accepts(3_000, false, true));
    assert!(!accepts(2_999, true, false));
    assert!(accepts(3_000, true, false));
    assert!(accepts(6_999, true, false));
    assert!(!accepts(7_000, true, false));
    assert!(!accepts(2_999, true, true));
    assert!(accepts(u64::MAX, true, true));

    // Over three inferences, the last of which drains, every time is accepted once.
    for time in (0..12_000u64).step_by(500) {
        let times = [(0, false, false), (0, true, false), (4_000, true, true)]
            .iter()
            .filter(|(start, previous, drain)| {
                time >= *start && settings.accepts_token(time - start, *previous, *drain)
            })
            .count();
        assert_eq!(times, 1, "at {time} ms");
    }
}

fn tokens(list: &[(&str, u64)]) -> Vec<Token> {
    list.iter().map(|(text, time_ms)| Token { text: text.to_string(), time_ms: *time_ms }).collect()
}

#[test]
fn words_are_gathered_from_the_tokens_in_the_window() {
    let mut state = ChunkState::default();
    state.begin(1_000);
    state.current_chunk = vec![0; 64_000];
    let gather = |state: &ChunkState, list: &[(&str, u64)], drain: bool| {
        state
            .gather_words(&tokens(list), &settings(), drain)
            .into_iter()
            .map(|text| (text.text, text.pts, text.duration))
            .collect::<Vec<_>>()
    };
    let word = |text: &str, pts: u64, duration: u64| (text.to_string(), pts, duration);

    // Nothing was taken that the first token could continue; the last word begins too late.
    let list = [("lo", 10), (" hel", 100), ("lo", 200), (" wor", 2_900), ("ld", 3_100), (" x", 3_500)];
    assert_eq!(
        gather(&state, &list, false),
        vec![
            word(" hello", 1_000 + 200 * MS, 2_700 * MS),
            word(" world", 1_000 + 3_100 * MS, 400 * MS),
        ]
    );
    // At the end of the stream the last word comes out too, up to the end of the chunk.
    assert_eq!(gather(&state, &list, true)[2], word(" x", 1_000 + 3_500 * MS, 500 * MS));
    assert!(gather(&state, &[(" late", 3_000), ("r", 3_200)], false).is_empty());

    state.previous_chunk = vec![0; 64_000];
    assert_eq!(
        gather(&state, &[(" old", 2_999), (" new", 3_000), (" next", 7_000)], false),
        vec![word(" new", 1_000 + 3_000 * MS, 4_000 * MS)]
    );
}
