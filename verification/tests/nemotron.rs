use jevons::nemotron::adapter::{chat_format, THRESHOLD};
use jevons::nemotron::image::token_grid;

#[test]
fn token_grids_cap_the_longest_edge_and_round_up_to_cells() {
    assert_eq!(token_grid(300, 200), (11, 8));
    assert_eq!(token_grid(28, 28), (1, 1));
    assert_eq!(token_grid(29, 1), (2, 1));
    // 2800x1400 halves to 1400x700: 50 x 25 cells.
    assert_eq!(token_grid(2800, 1400), (50, 25));
    // 4201x1 has ratio 3.0007; width rounds to 1400.
    assert_eq!(token_grid(4201, 3), (50, 1));
}

#[test]
fn token_grids_follow_double_precision_at_half_pixels() {
    for (longest, other) in [(3248usize, 261usize), (3920, 707), (6384, 3705), (1456, 117), (2000, 5)] {
        let ratio = longest as f64 / 1400.0;
        let pixels = (other as f64 / ratio).round_ties_even() as usize;
        let cells = (pixels.max(1) - 1) / 28 + 1;
        assert_eq!(token_grid(longest, other), (50, cells));
        assert_eq!(token_grid(other, longest), (cells, 50));
    }
    assert_eq!(token_grid(3248, 261), (50, 5));
    assert_eq!(token_grid(0, 0), (1, 1));
}

#[test]
fn chat_markers_are_those_of_the_checkpoint() {
    let chat = chat_format();
    assert!(!chat.bos && chat.space_joins_answers);
    assert_eq!(chat.user_open, "<|im_start|>user\n");
    assert_eq!(chat.model_open, "<|im_end|>\n<|im_start|>assistant\n");
    assert_eq!(chat.empty_thought, "<think></think>");
    assert_eq!(chat.thought_stops, ["</think>", "<|im_end|>"]);
    assert_eq!(f64::from_bits(THRESHOLD), 0.9);
}

#[test]
fn token_grids_have_at_most_fifty_cells_a_side_and_turn_with_their_image() {
    for (w, h) in [(1, 1), (1400, 1400), (1401, 7), (5000, 4999), (3, 100000)] {
        let (columns, rows) = token_grid(w, h);
        assert!((1..=50).contains(&columns) && (1..=50).contains(&rows));
        assert_eq!(token_grid(h, w), (rows, columns));
    }
    assert_eq!(token_grid(1400, 1400), (50, 50));
    assert_eq!(token_grid(1401, 7), (50, 1));
}
