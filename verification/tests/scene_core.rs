use therac_scene::layout::{split_layout, ViewportRect};
use therac_scene::progress::{progress_advance, text_collection_progress, TextLoadState};
use therac_scene::text::{excerpt, join_lines, random_excerpt, split_lines, EXCERPT_LINES};
use therac_scene::tint::{hint_tint, retint_count, HintTint};

fn lines_of(text: &[u8]) -> Vec<Vec<u8>> {
    split_lines(&text.to_vec())
}

#[test]
fn split_layout_even_window() {
    let l = split_layout(1920, 1080);
    assert_eq!(
        l.world2d,
        ViewportRect {
            x: 0,
            y: 0,
            width: 960,
            height: 540
        }
    );
    assert_eq!(
        l.scene3d,
        ViewportRect {
            x: 960,
            y: 0,
            width: 960,
            height: 1080
        }
    );
    assert_eq!(l.overlay, l.scene3d);
}

#[test]
fn split_layout_odd_window_rounds_down() {
    let l = split_layout(961, 541);
    assert_eq!(l.world2d.width, 480);
    assert_eq!(l.world2d.height, 270);
    assert_eq!(l.scene3d.x, 480);
    assert_eq!(l.scene3d.width, 480);
    assert_eq!(l.scene3d.height, 541);
}

#[test]
fn split_layout_zero_window() {
    let l = split_layout(0, 0);
    assert_eq!(l.world2d.width, 0);
    assert_eq!(l.scene3d.height, 0);
}

#[test]
fn progress_only_loaded_counts() {
    assert_eq!(text_collection_progress(None).done, 0);
    assert_eq!(text_collection_progress(Some(TextLoadState::NotLoaded)).done, 0);
    assert_eq!(text_collection_progress(Some(TextLoadState::Loading)).done, 0);
    assert_eq!(text_collection_progress(Some(TextLoadState::Failed)).done, 0);
    let p = text_collection_progress(Some(TextLoadState::Loaded));
    assert_eq!(p.done, 1);
    assert_eq!(p.total, 1);
}

#[test]
fn progress_total_is_always_one() {
    assert_eq!(text_collection_progress(None).total, 1);
    assert_eq!(text_collection_progress(Some(TextLoadState::Loading)).total, 1);
}

#[test]
fn progress_advance_reports_only_new_values() {
    assert_eq!(progress_advance(3, 2), (true, 3));
    assert_eq!(progress_advance(2, 2), (false, 2));
    assert_eq!(progress_advance(1, 2), (false, 2));
    assert_eq!(progress_advance(0, 0), (false, 0));
}

#[test]
fn hint_tint_by_kind() {
    assert_eq!(hint_tint(true, true), Some(HintTint::Crimson));
    assert_eq!(hint_tint(true, false), Some(HintTint::Crimson));
    assert_eq!(hint_tint(false, true), Some(HintTint::Cyan));
    assert_eq!(hint_tint(false, false), None);
}

#[test]
fn retint_stops_at_first_tinted() {
    assert_eq!(retint_count(&vec![]), 0);
    assert_eq!(retint_count(&vec![false, false, false]), 3);
    assert_eq!(retint_count(&vec![true, false, false]), 0);
    assert_eq!(retint_count(&vec![false, false, true, false]), 2);
}

#[test]
fn split_lines_basic() {
    assert_eq!(lines_of(b"a\nb"), vec![b"a".to_vec(), b"b".to_vec()]);
}

#[test]
fn split_lines_empty_text_has_no_lines() {
    assert_eq!(lines_of(b""), Vec::<Vec<u8>>::new());
}

#[test]
fn split_lines_trailing_newline_adds_no_line() {
    assert_eq!(lines_of(b"a\nb\n"), vec![b"a".to_vec(), b"b".to_vec()]);
    assert_eq!(lines_of(b"\n"), vec![b"".to_vec()]);
}

#[test]
fn split_lines_strips_carriage_return() {
    assert_eq!(
        lines_of(b"a\r\nb\r\n"),
        vec![b"a".to_vec(), b"b".to_vec()]
    );
    assert_eq!(lines_of(b"a\rb"), vec![b"a\rb".to_vec()]);
}

#[test]
fn split_lines_keeps_inner_empty_lines() {
    assert_eq!(
        lines_of(b"a\n\nb"),
        vec![b"a".to_vec(), b"".to_vec(), b"b".to_vec()]
    );
}

#[test]
fn join_lines_inverts_split() {
    let text = b"of Mans First Disobedience, and the Fruit\nof that Forbidden Tree".to_vec();
    assert_eq!(join_lines(&split_lines(&text)), text);
}

#[test]
fn join_lines_of_nothing_is_empty() {
    assert_eq!(join_lines(&Vec::new()), Vec::<u8>::new());
}

#[test]
fn excerpt_clips_at_the_end() {
    let mut lines: Vec<Vec<u8>> = Vec::new();
    for i in 0..70u8 {
        lines.push(vec![i]);
    }
    assert_eq!(excerpt(&lines, 0, EXCERPT_LINES).len(), 66);
    let tail = excerpt(&lines, 10, EXCERPT_LINES);
    assert_eq!(tail.len(), 60);
    assert_eq!(tail[0], vec![10u8]);
    assert_eq!(tail[59], vec![69u8]);
}

#[test]
fn excerpt_of_zero_lines_is_empty() {
    let lines = lines_of(b"a\nb\nc");
    assert_eq!(excerpt(&lines, 1, 0), Vec::<Vec<u8>>::new());
}

#[test]
fn random_excerpt_of_empty_text_is_none() {
    assert_eq!(random_excerpt(&Vec::new()), None);
}

#[test]
fn random_excerpt_of_one_line_is_that_line() {
    assert_eq!(
        random_excerpt(&b"abc".to_vec()),
        Some(b"abc".to_vec())
    );
}

#[test]
fn random_excerpt_is_a_window_of_the_text() {
    let text = b"a\nb\nc".to_vec();
    let got = random_excerpt(&text).unwrap();
    let candidates = [b"a\nb\nc".to_vec(), b"b\nc".to_vec(), b"c".to_vec()];
    assert!(candidates.contains(&got));
}
