use std::io::BufReader;

use herdr_picker::model::{Item, PreviewState, Target};
use herdr_picker::reader::LineSource;
use herdr_picker::preview::{
    line_chunk, read_limited_line, styled_rows, Arbiter, CellColor, CellStyle, LineChunk, LiveAction, LiveSelection, LiveStart, LiveState, Record,
    StreamState, FALLBACK_DELAY_MS, MAX_FRAME_DIMENSION, MAX_FRAME_LINE,
};

fn record(sequence: u64, full: bool, bytes: &str) -> Record {
    Record {
        kind: "terminal.frame".into(),
        bytes: Some(bytes.into()),
        full,
        height: 2,
        sequence,
        width: 10,
        encoding: Some("ansi".into()),
    }
}

#[test]
fn full_and_incremental_frames_require_contiguous_sequences() {
    let mut state = StreamState::new(None);
    assert!(state.apply(&record(1, true, "aGVsbG8=")).is_ok());
    assert!(state.apply(&record(2, false, "d29ybGQ=")).is_ok());
    assert_eq!(
        state.apply(&record(4, false, "eA==")).unwrap_err(),
        "terminal frame sequence gap"
    );
}

#[test]
fn stale_full_frame_is_rejected() {
    let mut state = StreamState::new(None);
    state.apply(&record(2, true, "bmV3")).unwrap();
    assert_eq!(
        state.apply(&record(1, true, "b2xk")).unwrap_err(),
        "terminal frame sequence did not advance"
    );
}

#[test]
fn oversized_line_is_rejected_before_json_parsing() {
    let input = vec![b'x'; MAX_FRAME_LINE + 1];
    let mut reader = LineSource::new(BufReader::new(input.as_slice()));
    assert!(read_limited_line(&mut reader, &mut Vec::new())
        .unwrap_err()
        .contains("exceeds"));
}

#[test]
fn huge_frame_dimensions_are_rejected_before_parser_construction() {
    let mut state = StreamState::new(None);
    let mut frame = record(1, true, "eA==");
    frame.width = MAX_FRAME_DIMENSION + 1;
    assert_eq!(
        state.apply(&frame).unwrap_err(),
        "terminal frame dimensions exceed preview limits"
    );
}

#[test]
fn live_frame_wins_over_earlier_or_later_fallback() {
    let now = 5_000;
    let mut arbiter = Arbiter::new();
    arbiter.reset(1, &LiveStart::Started, now);
    assert_eq!(arbiter.fallback(1, Ok("snapshot".into()), now), None);
    assert_eq!(
        arbiter.live(Ok("live".into()), now),
        Some(PreviewState::Ready("live".into()))
    );
    assert_eq!(
        arbiter.fallback(1, Ok("late snapshot".into()), now + FALLBACK_DELAY_MS),
        None
    );
}

#[test]
fn fallback_waits_for_deadline_when_live_has_no_first_frame() {
    let now = 5_000;
    let mut arbiter = Arbiter::new();
    arbiter.reset(3, &LiveStart::Started, now);
    assert_eq!(arbiter.fallback(3, Ok("snapshot".into()), now), None);
    assert_eq!(
        arbiter.tick(now + FALLBACK_DELAY_MS),
        Some(PreviewState::Ready("snapshot".into()))
    );
}

#[test]
fn stream_error_does_not_replace_a_valid_live_frame() {
    let now = 5_000;
    let mut arbiter = Arbiter::new();
    arbiter.reset(1, &LiveStart::Started, now);
    assert!(arbiter.live(Ok("live".into()), now).is_some());
    assert_eq!(arbiter.live(Err("stream ended".into()), now), None);
}

#[test]
fn snapshots_of_other_requests_are_ignored_and_errors_release_them() {
    let mut arbiter = Arbiter::new();
    arbiter.reset(7, &LiveStart::Started, 100);
    assert_eq!(arbiter.fallback(6, Ok("old".into()), 100), None);
    assert_eq!(arbiter.fallback(7, Err("no pane".into()), 110), None);
    assert_eq!(
        arbiter.live(Err("stream ended".into()), 120),
        Some(PreviewState::Error("no pane".into()))
    );
    assert_eq!(arbiter.live, LiveState::Unavailable);
    arbiter.reset(8, &LiveStart::NotApplicable, 200);
    assert_eq!(
        arbiter.fallback(8, Ok("now".into()), 200),
        Some(PreviewState::Ready("now".into()))
    );
    arbiter.reset(9, &LiveStart::Started, 300);
    assert_eq!(
        arbiter.live(Err("failed".into()), 301),
        Some(PreviewState::Error("failed".into()))
    );
}

#[test]
fn frames_are_checked_before_decoding() {
    let mut state = StreamState::new(Some((10, 2)));
    let mut other = record(1, true, "eA==");
    other.kind = "terminal.exit".into();
    assert_eq!(state.apply(&other), Ok(None));
    let mut plain = record(1, true, "eA==");
    plain.encoding = Some("utf8".into());
    assert_eq!(state.apply(&plain).unwrap_err(), "terminal frame encoding is not ANSI");
    let mut empty = record(1, true, "eA==");
    empty.height = 0;
    assert_eq!(state.apply(&empty).unwrap_err(), "terminal frame has zero dimensions");
    let mut narrow = record(1, true, "eA==");
    narrow.width = 1;
    assert_eq!(
        StreamState::new(None).apply(&narrow).unwrap_err(),
        "terminal frame is narrower than two columns"
    );
    let mut resized = record(1, true, "eA==");
    resized.width = 11;
    assert_eq!(
        state.apply(&resized).unwrap_err(),
        "terminal frame dimensions do not match preview geometry"
    );
    assert_eq!(
        state.apply(&record(1, false, "eA==")).unwrap_err(),
        "terminal frame sequence gap"
    );
    assert!(state.apply(&record(1, true, "not base64!")).is_err());
    let shown = state.apply(&record(1, true, "aGVsbG8=")).unwrap().unwrap();
    assert!(shown.contains("hello"));
}

#[test]
fn line_reader_stops_after_a_newline() {
    let mut reader = LineSource::new(BufReader::new(&b"one\ntwo"[..]));
    let mut line = Vec::new();
    assert_eq!(read_limited_line(&mut reader, &mut line), Ok(4));
    assert_eq!(line, b"one\n");
    line.clear();
    assert_eq!(read_limited_line(&mut reader, &mut line), Ok(3));
    assert_eq!(line, b"two");
    line.clear();
    assert_eq!(read_limited_line(&mut reader, &mut line), Ok(0));
}

fn pane_item(pane: Option<&str>) -> Item {
    Item {
        id: "w1".into(),
        label: "one".into(),
        detail: String::new(),
        search: String::new(),
        preview_pane: pane.map(String::from),
        match_paths: Vec::new(),
        target: Target::Workspace { id: "w1".into() },
    }
}

#[test]
fn live_stream_follows_selection_and_size() {
    let mut selection = LiveSelection::new();
    let with_pane = pane_item(Some("p1")).preview_identity();
    match selection.select(Some(&with_pane), (80, 24), false) {
        LiveAction::Observe(pane) => assert_eq!(pane, "p1"),
        _ => panic!("expected to observe p1"),
    }
    assert!(matches!(
        selection.select(Some(&with_pane), (80, 24), true),
        LiveAction::Keep(LiveStart::Started)
    ));
    assert!(matches!(
        selection.select(Some(&with_pane), (80, 24), false),
        LiveAction::Keep(LiveStart::NotApplicable)
    ));
    assert!(matches!(
        selection.select(Some(&with_pane), (100, 24), true),
        LiveAction::Observe(_)
    ));
    let without = pane_item(None).preview_identity();
    assert!(matches!(selection.select(Some(&without), (100, 24), true), LiveAction::Stop));
    assert!(matches!(selection.select(None, (100, 24), false), LiveAction::Stop));
}

#[test]
fn line_chunks_stop_at_the_newline_and_the_limit() {
    let mut line = b"ab".to_vec();
    assert_eq!(line_chunk(&mut line, b"cd\nef"), LineChunk::Complete(3));
    assert_eq!(line, b"abcd\n");
    let mut line = Vec::new();
    assert_eq!(line_chunk(&mut line, b"xyz"), LineChunk::Partial(3));
    assert_eq!(line, b"xyz");
    let mut line = vec![b'x'; MAX_FRAME_LINE - 2];
    assert_eq!(line_chunk(&mut line, b"y\n"), LineChunk::Complete(2));
    assert_eq!(line.len(), MAX_FRAME_LINE);
    let mut line = vec![b'x'; MAX_FRAME_LINE - 1];
    assert_eq!(
        line_chunk(&mut line, b"yz"),
        LineChunk::TooLong("terminal frame exceeds 2097152 bytes".into())
    );
    assert_eq!(line.len(), MAX_FRAME_LINE - 1);
}

#[test]
fn styled_rows_group_cells_by_style() {
    let plain = CellStyle {
        foreground: CellColor::Default,
        background: CellColor::Default,
        bold: false,
        italic: false,
        underline: false,
        inverse: false,
    };
    let red = CellStyle { foreground: CellColor::Indexed(1), ..plain };
    let rows = styled_rows("ab\x1b[31mcd\x1b[0m", 2, 6);
    assert_eq!(rows.len(), 2);
    assert_eq!(
        rows[0],
        vec![("ab".to_string(), plain), ("cd".to_string(), red), ("  ".to_string(), plain)]
    );
    assert_eq!(rows[1], vec![("      ".to_string(), plain)]);
    let wide = styled_rows("界x", 1, 4);
    assert_eq!(wide[0], vec![("界x ".to_string(), plain)]);
}
