use first_to_five::{GameArea, Play, Player};
use rand::seq::SliceRandom;

/// Creates a new GameArea from a static template string
///
/// Example creating a 4x5 area with a vertical line for
/// Player::Cross in the second column from top to bottom:
///
/// ```
/// let area = create_area_from_template(
///   ".x..\n\
///    .x..\n\
///    .x..\n\
///    .x..\n\
///    .x..",
/// );
/// ```
fn create_area_from_template(template: &'static str) -> GameArea {
    let mut rng = rand::thread_rng();
    let lines: Vec<&str> = template.split("\n").collect();
    let height = lines.len() as i128;
    let width = lines[0].len() as i128;
    let mut area = GameArea::default();
    let mut shuffled_lines = lines.iter().enumerate().collect::<Vec<(usize, &&str)>>();
    shuffled_lines.shuffle(&mut rng);
    for (row, &line) in shuffled_lines.iter() {
        let row_width = line.chars().count();
        assert_eq!(
            row_width, width as usize,
            "All line should have same width. Row {row} had a width of {wrong_width} when expected was {expected_width}",
            row = row + 1,
            wrong_width = row_width,
            expected_width = width
        );
        let mut shuffled_chars = line.chars().enumerate().collect::<Vec<(usize, char)>>();
        shuffled_chars.shuffle(&mut rng);
        for (column, character) in shuffled_chars {
            match character {
                '.' => { /* blank, do nothing */ }
                'x' => area.mark(Player::Cross, column as i128, *row as i128),
                'o' => area.mark(Player::Naught, column as i128, *row as i128),
                _ => panic!("Invalid template character: '{}'", character),
            }
        }
    }
    assert_eq!(
        (area.left - area.right).abs(),
        width,
        "The created area width isn't the same width as the template string. Maybe the rightmost or leftmost column was empty?"
    );
    assert_eq!(
        (area.top - area.bottom).abs(),
        height,
        "The created area height isn't the same height as the template string. Maybe the topmost or bottommost column was empty?"
    );
    area
}

fn assert_area_formatted_to(area: &GameArea, expected: &str) {
    let formatted_area = area.render();

    assert_eq!(formatted_area, expected);
}

#[test]
fn test_format_empty_area() {
    let area = GameArea::default();
    assert_area_formatted_to(
        &area,
        "⌜⌝\n\
       ⌞⌟",
    );
}

#[test]
fn test_format_full_area() {
    let mut area = GameArea::default();
    area.mark(Player::Naught, 0, 0);
    area.mark(Player::Naught, 1, 0);
    area.mark(Player::Cross, 0, 1);
    area.mark(Player::Cross, 1, 1);
    assert_area_formatted_to(
        &area,
        "⌜⎺⎺⌝\n\
       |oo|\n\
       |xx|\n\
       ⌞⎽⎽⌟",
    );
}

#[test]
fn test_partial_area() {
    let mut area = GameArea::default();
    area.mark(Player::Naught, 0, 0);
    area.mark(Player::Naught, 2, 0);
    area.mark(Player::Cross, 1, 1);
    assert_area_formatted_to(
        &area,
        "⌜⎺⎺⎺⌝\n\
       |o o|\n\
       | x |\n\
       ⌞⎽⎽⎽⌟",
    );
    assert_eq!(area.width(), 3);
}

#[test]
fn test_all_plays() {
    let mut area = GameArea::default();
    area.mark(Player::Naught, 0, 0);
    area.mark(Player::Naught, 2, 0);
    area.mark(Player::Cross, 1, 1);
    // Sanity check first
    assert_area_formatted_to(
        &area,
        "⌜⎺⎺⎺⌝\n\
       |o o|\n\
       | x |\n\
       ⌞⎽⎽⎽⌟",
    );
    assert_eq!(
        area.all_plays(),
        vec![
            Some(Player::Naught),
            None,
            Some(Player::Naught),
            None,
            Some(Player::Cross),
            None
        ]
    );
}

#[test]
fn test_area_from_template() {
    let area = create_area_from_template(
        ".x..\n\
       ....\n\
       ..o.\n\
       .xx.\n\
       x..x",
    );
    assert_area_formatted_to(
        &area,
        "⌜⎺⎺⎺⎺⌝\n\
       | x  |\n\
       |    |\n\
       |  o |\n\
       | xx |\n\
       |x  x|\n\
       ⌞⎽⎽⎽⎽⌟",
    );
}

#[test]
fn test_no_winner() {
    let area = create_area_from_template(
        ".x..oo\n\
       .x..o.\n\
       .oooo.\n\
       xoxxxx\n\
       .x..o.",
    );
    assert_eq!(area.winner(), None);
}

#[test]
fn test_winner_horizontal() {
    assert_eq!(
        create_area_from_template(
            "x.....\n\
         ......\n\
         .ooooo\n\
         ......\n\
         .....x",
        )
        .winner()
        .unwrap(),
        Player::Naught
    );

    assert_eq!(
        create_area_from_template(
            "o.....\n\
         ......\n\
         .xxxxx\n\
         ......\n\
         .....o",
        )
        .winner()
        .unwrap(),
        Player::Cross
    );
}

#[test]
fn test_winner_vertical() {
    assert_eq!(
        create_area_from_template(
            "x..o..\n\
         ...o..\n\
         ...o..\n\
         ...o..\n\
         ...o..\n\
         .....x",
        )
        .winner()
        .unwrap(),
        Player::Naught
    );

    assert_eq!(
        create_area_from_template(
            "o.....\n\
         ...x..\n\
         ...x..\n\
         ...x..\n\
         ...x..\n\
         ...x.o",
        )
        .winner()
        .unwrap(),
        Player::Cross
    );
}

#[test]
fn test_winner_diagonally_down_from_left_to_right() {
    assert_eq!(
        create_area_from_template(
            "o....x\n\
         .o....\n\
         ..o...\n\
         ...o..\n\
         ....o.\n\
         x.....",
        )
        .winner()
        .unwrap(),
        Player::Naught
    );

    assert_eq!(
        create_area_from_template(
            ".....o\n\
         .x....\n\
         ..x...\n\
         ...x..\n\
         ....x.\n\
         o....x",
        )
        .winner()
        .unwrap(),
        Player::Cross
    );
}

#[test]
fn test_winner_diagonally_down_from_right_to_left() {
    assert_eq!(
        create_area_from_template(
            "x....o\n\
         ....o.\n\
         ...o..\n\
         ..o...\n\
         .o....\n\
         .....x",
        )
        .winner()
        .unwrap(),
        Player::Naught
    );

    assert_eq!(
        create_area_from_template(
            "o.....\n\
         ....x.\n\
         ...x..\n\
         ..x...\n\
         .x....\n\
         x....o",
        )
        .winner()
        .unwrap(),
        Player::Cross
    );
}

#[test]
fn test_longest_consecutive_line_horizontal() {
    let mut area = GameArea::default();
    let player = Player::Cross;
    area.mark(player, 1, 0);
    area.mark(player, 2, 0);
    area.mark(player, 3, 0);
    area.mark(player, 4, 0);

    assert_line(
        area.longest_consecutive_line(3, 0).expect("line expected"),
        vec![
            Play { player, x: 1, y: 0 },
            Play { player, x: 2, y: 0 },
            Play { player, x: 3, y: 0 },
            Play { player, x: 4, y: 0 },
        ],
    );

    area.mark(player, 6, 0);
    area.mark(player, 7, 0);
    area.mark(player, 8, 0);
    area.mark(player, 9, 0);
    area.mark(player, 5, 0);

    assert_line(
        area.longest_consecutive_line(4, 0).expect("line expected"),
        vec![
            Play { player, x: 1, y: 0 },
            Play { player, x: 2, y: 0 },
            Play { player, x: 3, y: 0 },
            Play { player, x: 4, y: 0 },
            Play { player, x: 5, y: 0 },
            Play { player, x: 6, y: 0 },
            Play { player, x: 7, y: 0 },
            Play { player, x: 8, y: 0 },
            Play { player, x: 9, y: 0 },
        ],
    );
}

#[test]
fn test_longest_consecutive_line_vertical() {
    let mut area = GameArea::default();
    let player = Player::Cross;
    area.mark(player, 0, 1);
    area.mark(player, 0, 2);
    area.mark(player, 0, 3);
    area.mark(player, 0, 4);

    assert_line(
        area.longest_consecutive_line(0, 3).expect("line expected"),
        vec![
            Play { player, x: 0, y: 1 },
            Play { player, x: 0, y: 2 },
            Play { player, x: 0, y: 3 },
            Play { player, x: 0, y: 4 },
        ],
    );

    area.mark(player, 0, 6);
    area.mark(player, 0, 7);
    area.mark(player, 0, 8);
    area.mark(player, 0, 9);
    area.mark(player, 0, 5);

    assert_line(
        area.longest_consecutive_line(0, 4).expect("line expected"),
        vec![
            Play { player, x: 0, y: 1 },
            Play { player, x: 0, y: 2 },
            Play { player, x: 0, y: 3 },
            Play { player, x: 0, y: 4 },
            Play { player, x: 0, y: 5 },
            Play { player, x: 0, y: 6 },
            Play { player, x: 0, y: 7 },
            Play { player, x: 0, y: 8 },
            Play { player, x: 0, y: 9 },
        ],
    );
}

#[test]
fn test_longest_consecutive_line_diagonally_down_from_left_to_right() {
    let mut area = GameArea::default();
    let player = Player::Cross;
    area.mark(player, 0, 1);
    area.mark(player, 1, 2);
    area.mark(player, 2, 3);
    area.mark(player, 3, 4);

    assert_line(
        area.longest_consecutive_line(2, 3).expect("line expected"),
        vec![
            Play { player, x: 0, y: 1 },
            Play { player, x: 1, y: 2 },
            Play { player, x: 2, y: 3 },
            Play { player, x: 3, y: 4 },
        ],
    );

    area.mark(player, 5, 6);
    area.mark(player, 6, 7);
    area.mark(player, 7, 8);
    area.mark(player, 8, 9);
    area.mark(player, 4, 5);

    assert_line(
        area.longest_consecutive_line(3, 4).expect("line expected"),
        vec![
            Play { player, x: 0, y: 1 },
            Play { player, x: 1, y: 2 },
            Play { player, x: 2, y: 3 },
            Play { player, x: 3, y: 4 },
            Play { player, x: 4, y: 5 },
            Play { player, x: 5, y: 6 },
            Play { player, x: 6, y: 7 },
            Play { player, x: 7, y: 8 },
            Play { player, x: 8, y: 9 },
        ],
    );
}

#[test]
fn test_longest_consecutive_line_diagonally_down_from_right_to_left() {
    let mut area = GameArea::default();
    let player = Player::Cross;
    area.mark(player, 9, 1);
    area.mark(player, 8, 2);
    area.mark(player, 7, 3);
    area.mark(player, 6, 4);

    assert_line(
        area.longest_consecutive_line(7, 3).expect("line expected"),
        vec![
            Play { player, x: 9, y: 1 },
            Play { player, x: 8, y: 2 },
            Play { player, x: 7, y: 3 },
            Play { player, x: 6, y: 4 },
        ],
    );

    area.mark(player, 4, 6);
    area.mark(player, 3, 7);
    area.mark(player, 2, 8);
    area.mark(player, 1, 9);
    area.mark(player, 5, 5);

    assert_line(
        area.longest_consecutive_line(5, 5).expect("line expected"),
        vec![
            Play { player, x: 9, y: 1 },
            Play { player, x: 8, y: 2 },
            Play { player, x: 7, y: 3 },
            Play { player, x: 6, y: 4 },
            Play { player, x: 5, y: 5 },
            Play { player, x: 4, y: 6 },
            Play { player, x: 3, y: 7 },
            Play { player, x: 2, y: 8 },
            Play { player, x: 1, y: 9 },
        ],
    );
}

fn assert_line(actual_line: Vec<Play>, expected_line: Vec<Play>) {
    let mut expected_line = expected_line.clone();
    let mut actual_line = actual_line.clone();
    expected_line.sort_unstable_by(|a, b| a.partial_cmp(b).unwrap());
    actual_line.sort_unstable_by(|a, b| a.partial_cmp(b).unwrap());
    assert_eq!(actual_line, expected_line);
}
