use mazegen::gen_maze;
use mazegen::Maze;
use mazegen::Size;
use mazegen::TileDirection;

#[test]
fn fresh_two_by_one_renders_exactly() {
    let maze = Maze::new(&Size { width: 2, height: 1 });
    assert_eq!(maze.display_string(), " ___\n|   |\n");
}

#[test]
fn fully_walled_two_by_two_renders_exactly() {
    let mut maze = Maze::new(&Size { width: 2, height: 2 });
    maze.enable_all_walls();
    assert_eq!(maze.display_string(), " ___\n| # |\n|###|\n| # |\n");
}

#[test]
fn marker_count_matches_wall_queries() {
    let size = Size { width: 5, height: 4 };
    let maze = gen_maze(&size);
    let text = maze.display_string();
    let hashes = text.chars().filter(|c| *c == '#').count();
    let mut east = 0;
    let mut south = 0;
    for i in 0..5 {
        for j in 0..4 {
            if i + 1 < 5 && maze.is_wall_enabled((i, j), &TileDirection::EAST) {
                east += 1;
            }
            if i + 1 < 5 && j + 1 < 4 && maze.is_wall_enabled((i, j), &TileDirection::SOUTH) {
                south += 1;
            }
        }
    }
    // beside the markers, each of the height-1 interior row lines carries
    // exactly `width` fixed filler markers
    assert_eq!(hashes, east + south + (4 - 1) * 5);
}

#[test]
fn render_chars_match_display_string() {
    let maze = gen_maze(&Size { width: 3, height: 3 });
    let chars: String = maze.render().into_iter().collect();
    assert_eq!(chars, maze.display_string());
}
