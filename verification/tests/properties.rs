use first_to_five::{GameArea, Player, PlayedGames};

#[test]
fn test_empty_area_dimensions() {
    let area = GameArea::default();
    assert_eq!(area.width(), 0);
    assert_eq!(area.height(), 0);
    assert_eq!(area.all_plays(), vec![]);
    assert_eq!(area.winner(), None);
}

#[test]
fn test_area_enlargening_fixed_origin() {
    for &(origin_x, origin_y) in &[(0i128, 0i128), (-7, 3), (9, -10)] {
        let mut area = GameArea::default();
        assert_eq!(area.width(), 0);
        assert_eq!(area.height(), 0);
        // The first mark makes the area exactly 1x1, wherever it lands.
        area.mark(Player::Cross, origin_x, origin_y);
        assert_eq!(area.width(), 1);
        assert_eq!(area.height(), 1);
        assert_eq!(
            area.render(),
            "⌜⎺⌝\n\
             |x|\n\
             ⌞⎽⌟"
        );
        // One to the right of the original mark.
        area.mark(Player::Naught, origin_x + 1, origin_y);
        assert_eq!(area.width(), 2);
        assert_eq!(area.height(), 1);
        // Three to the left of the original mark.
        area.mark(Player::Cross, origin_x - 3, origin_y);
        assert_eq!(area.width(), 5);
        assert_eq!(area.height(), 1);
        // Four above.
        area.mark(Player::Naught, origin_x, origin_y - 4);
        assert_eq!(area.width(), 5);
        assert_eq!(area.height(), 5);
        // Two below.
        area.mark(Player::Cross, origin_x + 1, origin_y + 2);
        assert_eq!(area.width(), 5);
        assert_eq!(area.height(), 7);
    }
}

#[test]
fn test_mark_order_insensitive() {
    // Three marks in every order give the same box and the same occupancy.
    let marks = [
        (Player::Cross, 0i128, 0i128),
        (Player::Naught, 5, 5),
        (Player::Cross, -3, -3),
    ];
    let orders: [[usize; 3]; 6] = [
        [0, 1, 2],
        [0, 2, 1],
        [1, 0, 2],
        [1, 2, 0],
        [2, 0, 1],
        [2, 1, 0],
    ];
    let mut reference: Option<(u128, u128, Vec<Option<Player>>, String)> = None;
    for order in &orders {
        let mut area = GameArea::default();
        for &i in order {
            let (player, x, y) = marks[i];
            area.mark(player, x, y);
        }
        let snapshot = (area.width(), area.height(), area.all_plays(), area.render());
        match &reference {
            None => reference = Some(snapshot),
            Some(expected) => assert_eq!(&snapshot, expected),
        }
    }
}

#[test]
fn test_five_in_row_scenario() {
    let mut area = GameArea::default();
    area.mark(Player::Cross, 1, 0);
    area.mark(Player::Cross, 2, 0);
    area.mark(Player::Cross, 3, 0);
    area.mark(Player::Cross, 4, 0);
    assert_eq!(area.winner(), None);
    area.mark(Player::Cross, 5, 0);
    assert_eq!(area.winner(), Some(Player::Cross));
    assert_eq!(area.width(), 5);
    assert_eq!(area.height(), 1);
}

#[test]
fn test_no_premature_win_in_any_direction() {
    // Four in a row is never a win; the fifth consecutive mark always is.
    let directions = [(1i128, 0i128), (0, 1), (1, 1), (-1, 1)];
    for &(dx, dy) in &directions {
        let mut area = GameArea::default();
        for k in 0..4i128 {
            area.mark(Player::Naught, 10 + k * dx, 20 + k * dy);
            assert_eq!(area.winner(), None);
        }
        area.mark(Player::Naught, 10 + 4 * dx, 20 + 4 * dy);
        assert_eq!(area.winner(), Some(Player::Naught));
    }
}

#[test]
fn test_sticky_winner() {
    let mut area = GameArea::default();
    for x in 0..5i128 {
        area.mark(Player::Cross, x, 0);
    }
    assert_eq!(area.winner(), Some(Player::Cross));
    // A later five-in-a-row by the other player changes nothing.
    for x in 0..5i128 {
        area.mark(Player::Naught, x, 2);
    }
    assert_eq!(area.winner(), Some(Player::Cross));
    // Even overwriting a cell of the winning line changes nothing.
    area.mark(Player::Naught, 2, 0);
    assert_eq!(area.winner(), Some(Player::Cross));
}

#[test]
fn test_overwrite_idempotent() {
    let mut once = GameArea::default();
    once.mark(Player::Cross, 2, 3);
    let mut twice = GameArea::default();
    twice.mark(Player::Cross, 2, 3);
    twice.mark(Player::Cross, 2, 3);
    assert_eq!(once.width(), twice.width());
    assert_eq!(once.height(), twice.height());
    assert_eq!(once.all_plays(), twice.all_plays());
    assert_eq!(once.render(), twice.render());
    assert_eq!(once.winner(), twice.winner());
}

#[test]
fn test_remark_changes_owner() {
    let mut area = GameArea::default();
    area.mark(Player::Cross, 0, 0);
    assert_eq!(area.all_plays(), vec![Some(Player::Cross)]);
    area.mark(Player::Naught, 0, 0);
    assert_eq!(area.all_plays(), vec![Some(Player::Naught)]);
    assert_eq!(area.width(), 1);
    assert_eq!(area.height(), 1);
}

#[test]
fn test_longest_line_on_free_cell() {
    let mut area = GameArea::default();
    area.mark(Player::Cross, 0, 0);
    assert!(area.longest_consecutive_line(4, 4).is_none());
    let single = area.longest_consecutive_line(0, 0).expect("line expected");
    assert_eq!(single.len(), 1);
    assert_eq!(single[0].x, 0);
    assert_eq!(single[0].y, 0);
    assert_eq!(single[0].player, Player::Cross);
}

#[test]
fn test_played_games_store() {
    let mut games = PlayedGames::default();
    assert!(games.get(&(3, -8)).is_none());
    games.mark(Player::Cross, (3, -8));
    let play = games.get(&(3, -8)).expect("play expected");
    assert_eq!(play.x, 3);
    assert_eq!(play.y, -8);
    assert_eq!(play.player, Player::Cross);
    // Last write wins on the same coordinate.
    games.mark(Player::Naught, (3, -8));
    let play = games.get(&(3, -8)).expect("play expected");
    assert_eq!(play.player, Player::Naught);
    assert!(games.get(&(-8, 3)).is_none());
}

#[test]
fn test_run_across_negative_coordinates() {
    // A winning run that straddles the origin is still found.
    let mut area = GameArea::default();
    area.mark(Player::Cross, -2, 0);
    area.mark(Player::Cross, -1, 0);
    area.mark(Player::Cross, 0, 0);
    area.mark(Player::Cross, 1, 0);
    assert_eq!(area.winner(), None);
    area.mark(Player::Cross, 2, 0);
    assert_eq!(area.winner(), Some(Player::Cross));
}
