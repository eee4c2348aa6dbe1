use llm_from_scratch::autograd::backward::attention_backward_notes;
use llm_from_scratch::viz::labels::token_label;
use llm_from_scratch::viz::terminal::TerminalViz;
use llm_from_scratch::viz::training::format_duration;

#[test]
fn test_tensor_shape_visualization() {
    let viz = TerminalViz::show_tensor_shape("Input", &[32, 10, 768]);
    assert!(viz.contains("32 × 10 × 768"));
}

/// The filled cells and the percentage text of a progress bar, computed from
/// the completed fraction in floating point.
fn bar_parts(current: usize, total: usize, width: usize) -> (usize, String) {
    let progress = current as f64 / total as f64;
    let filled = (progress * width as f64) as usize;
    (filled, format!("{:.1}", progress * 100.0))
}

#[test]
fn test_progress_bar() {
    let (filled, percent) = bar_parts(50, 100, 20);
    let bar = TerminalViz::progress_bar(50, 100, 20, filled, &percent);
    assert!(bar.contains("50/100"));
    assert!(bar.contains("50.0%"));
}

#[test]
fn test_format_duration() {
    assert_eq!(format_duration(30), "30s");
    assert_eq!(format_duration(90), "1m 30s");
    assert_eq!(format_duration(3661), "1h 1m 1s");
}

// ---- further cases ----

#[test]
fn format_duration_edges() {
    assert_eq!(format_duration(0), "0s");
    assert_eq!(format_duration(3600), "1h 0m 0s");
    assert_eq!(format_duration(60), "1m 0s");
}

fn bar(current: usize, total: usize, width: usize) -> String {
    let (filled, percent) = bar_parts(current, total, width);
    TerminalViz::progress_bar(current, total, width, filled, &percent)
}

#[test]
fn progress_bar_exact() {
    assert_eq!(bar(1, 4, 8), "[██░░░░░░] 1/4 (25.0%)");
    assert_eq!(bar(1, 3, 3), "[█░░] 1/3 (33.3%)");
    assert_eq!(bar(2, 3, 3), "[██░] 2/3 (66.7%)");
    assert_eq!(bar(0, 0, 2), "[░░] 0/0 (NaN%)");
    assert_eq!(bar(101, 100, 20), "[████████████████████] 101/100 (101.0%)");
    assert_eq!(bar(1, 16, 8), "[░░░░░░░░] 1/16 (6.2%)");
    assert_eq!(bar(29, 100, 100), format!("[{}{}] 29/100 (29.0%)", "█".repeat(28), "░".repeat(72)));
}

#[test]
fn progress_bar_renders_given_parts() {
    assert_eq!(TerminalViz::progress_bar(3, 7, 5, 2, "42.9"), "[██░░░] 3/7 (42.9%)");
    assert_eq!(TerminalViz::progress_bar(0, 5, 0, 0, "0.0"), "[] 0/5 (0.0%)");
}

#[test]
fn tensor_shape_one_dim() {
    let viz = TerminalViz::show_tensor_shape("v", &[3]);
    let expected = format!(
        "╔══════════════════════════════════════╗\n║ {:<36} ║\n║ Shape: {:<29} ║\n╠══════════════════════════════════════╣\n{}\n╚══════════════════════════════════════╝",
        "v", "3", "[■■■]"
    );
    assert_eq!(viz, expected);
    let long = TerminalViz::show_tensor_shape("v", &[100]);
    assert!(long.contains(&format!("[{}]", "■".repeat(20))));
}

#[test]
fn tensor_shape_two_dims() {
    let viz = TerminalViz::show_tensor_shape("m", &[7, 2]);
    assert!(viz.contains("│■■│\n│■■│\n│■■│\n│■■│\n│■■│\n╚"));
    assert!(viz.contains("7 × 2"));
}

#[test]
fn tensor_shape_four_and_more_dims() {
    let viz = TerminalViz::show_tensor_shape("x", &[2, 8, 16, 64]);
    assert!(viz.contains("│ Heads: 8 │"));
    assert!(viz.contains("2 × 8 × 16 × 64"));
    let five = TerminalViz::show_tensor_shape("y", &[1, 1, 1, 1, 1]);
    assert!(five.contains("\n...\n"));
    let three = TerminalViz::show_tensor_shape("z", &[4, 5, 6]);
    assert!(three.contains("│ Batch: 4 │\n│ Seq: 5 │\n│ Dim: 6 │"));
}

#[test]
fn transformer_flow_numbers() {
    let s = TerminalViz::show_transformer_flow(2, 16, 64, 1000);
    assert!(s.contains("(2, 16)"));
    assert!(s.contains("(2, 16, 64)"));
    assert!(s.contains("(2, 16, 1000)"));
    assert!(s.starts_with('\n'));
}

#[test]
fn attention_computation_numbers() {
    let s = TerminalViz::show_attention_computation(10, 64, 8);
    assert!(s.contains("(batch, 10, 64)"));
    assert!(s.contains("Split into 8 heads"));
    assert!(s.contains("√8  "));
}

#[test]
fn attention_notes_text() {
    let notes = attention_backward_notes();
    assert!(notes.contains("∂L/∂V = Attention_weights^T · ∂L/∂output"));
}

#[test]
fn heatmap_draws_levels_and_frame() {
    let grid = vec![vec![0, 1], vec![2, 3], vec![7, 0]];
    let map = TerminalViz::heatmap("W", 3, 2, &grid, "-1.000", "2.500");
    assert_eq!(
        map,
        "┌─ W ─┐\n│░▒│\n│▓█│\n│█░│\n└────┘\n  Range: [-1.000, 2.500]\n"
    );
}

#[test]
fn heatmap_marks_left_out_rows_and_columns() {
    let grid: Vec<Vec<usize>> = (0..15).map(|_| vec![1; 40]).collect();
    let map = TerminalViz::heatmap("big", 20, 50, &grid, "0.000", "1.000");
    let row = format!("│{}...│\n", "▒".repeat(40));
    assert_eq!(map.matches(&row).count(), 15);
    assert!(map.contains("│ ... │\n"));
    assert!(map.contains(&format!("└{}┘\n", "─".repeat(42))));
}

#[test]
fn heatmap_sample_positions() {
    assert_eq!(TerminalViz::heatmap_sample(0, 100, 15), 0);
    assert_eq!(TerminalViz::heatmap_sample(7, 100, 15), 46);
    assert_eq!(TerminalViz::heatmap_sample(14, 100, 15), 93);
    assert_eq!(TerminalViz::heatmap_sample(3, 4, 4), 3);
    assert_eq!(TerminalViz::heatmap_sample(1, usize::MAX, 2), usize::MAX / 2);
}

#[test]
fn token_labels() {
    assert_eq!(token_label(65), "A");
    assert_eq!(token_label(32), " ");
    assert_eq!(token_label(127), "\u{7f}");
    assert_eq!(token_label(128), "[128]");
    assert_eq!(token_label(4321), "[4321]");
}
