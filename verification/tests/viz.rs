use ai_training::data::tokenizer::CharTokenizer;
use ai_training::viz::{
    channel_at, display, held_frames, layer_labels, on_canvas, tail_lines, top_tokens,
};

#[test]
fn every_row_has_a_label() {
    assert_eq!(layer_labels(0), vec!["embed", "final"]);
    let labels = layer_labels(12);
    assert_eq!(labels.len(), 14);
    assert_eq!(labels[1], "L1");
    assert_eq!(labels[12], "L12");
}

#[test]
fn white_space_is_made_visible() {
    assert_eq!(display("\n"), "\\n");
    assert_eq!(display(" "), "·");
    assert_eq!(display("a"), "a");
    assert_eq!(display("  "), "  ");
    assert_eq!(display(""), "");
}

#[test]
fn the_most_probable_tokens_come_first() {
    let tok = CharTokenizer::build("ab ");
    let probs: Vec<u32> = [0.3f32, 0.2, 0.5].iter().map(|p| p.to_bits()).collect();
    let top = top_tokens(&probs, &tok, 2);
    assert_eq!(top[0], ("b".to_string(), 0.5f32.to_bits()));
    assert_eq!(top[1], ("·".to_string(), 0.3f32.to_bits()));
    assert_eq!(top.len(), 2);
    assert_eq!(top_tokens(&probs, &tok, 9).len(), 3);
}

#[test]
fn the_last_lines_are_shown() {
    assert_eq!(tail_lines("a\nb\nc", 2), vec!["b", "c"]);
    assert_eq!(tail_lines("a\nb\n", 5), vec!["a", "b", ""]);
    assert_eq!(tail_lines("", 3), vec![""]);
}

#[test]
fn columns_run_through_the_channels() {
    assert_eq!(channel_at(0, 800, 384), 0);
    assert_eq!(channel_at(799, 800, 384), 383);
    assert_eq!(channel_at(400, 800, 384), 192);
    assert_eq!(channel_at(799, 800, 1), 0);
}

#[test]
fn pixels_outside_are_told() {
    assert!(on_canvas(0, 0, 1280, 720));
    assert!(on_canvas(1279, 719, 1280, 720));
    assert!(!on_canvas(-1, 0, 1280, 720));
    assert!(!on_canvas(0, 720, 1280, 720));
}

#[test]
fn the_last_frame_is_held() {
    assert_eq!(held_frames(10), 15);
    assert_eq!(held_frames(1), 1);
}
