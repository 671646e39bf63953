use territory::cell::{Cell, Color};
use territory::match_state::{Match, TURN_MS};
use territory::players::{Point, User, UserList};
use territory::registry::Registry;
use territory::universe::Universe;

fn fresh_match_4x4() -> Match {
    Match::new(Universe::new_empty_sized(4, 4))
}

#[test]
fn seats_are_assigned_red_then_blue_then_full() {
    let mut m = fresh_match_4x4();
    assert_eq!(m.assign_seat(), Some(Color::Red));
    assert_eq!(m.assign_seat(), Some(Color::Blue));
    assert_eq!(m.assign_seat(), None);
    assert_eq!(m.assign_seat(), None);
}

#[test]
fn claim_by_the_turn_owner_reaches_the_grid() {
    let mut m = fresh_match_4x4();
    assert!(m.attempt_claim(Color::Red, (0, 0)));
    let cells = m.grid.get_cells();
    assert_eq!(cells[m.grid.get_index((0, 0)).unwrap()], Cell::Red);
    assert_eq!(m.grid.get_cell_numbers(), (15, 1, 0, 0));
}

#[test]
fn out_of_turn_claim_is_always_rejected() {
    let mut m = fresh_match_4x4();
    // Red owns the first turn; Blue is rejected on a valid empty cell
    assert!(!m.attempt_claim(Color::Blue, (1, 1)));
    // and on an invalid position alike
    assert!(!m.attempt_claim(Color::Blue, (99, 99)));
    assert!(!m.attempt_claim(Color::Neither, (0, 0)));
    assert_eq!(m.grid.get_cell_numbers(), (16, 0, 0, 0));
}

#[test]
fn second_claim_in_one_turn_is_ignored() {
    let mut m = fresh_match_4x4();
    assert!(m.attempt_claim(Color::Red, (0, 0)));
    // a different, valid, empty cell: still a no-op this turn
    assert!(!m.attempt_claim(Color::Red, (2, 2)));
    let cells = m.grid.get_cells();
    assert_eq!(cells[m.grid.get_index((2, 2)).unwrap()], Cell::Empty);
    assert_eq!(m.grid.get_cell_numbers(), (15, 1, 0, 0));
}

#[test]
fn claim_spends_the_turn_even_when_the_cell_is_taken() {
    let mut m = fresh_match_4x4();
    assert!(m.attempt_claim(Color::Red, (0, 0)));
    m.tick(TURN_MS);
    // Blue aims at a cell Red already owns: rejected, and the turn's one
    // claim is spent
    assert!(!m.attempt_claim(Color::Blue, (0, 0)));
    assert!(!m.attempt_claim(Color::Blue, (3, 3)));
    let cells = m.grid.get_cells();
    assert_eq!(cells[m.grid.get_index((3, 3)).unwrap()], Cell::Empty);
}

#[test]
fn tick_below_threshold_changes_nothing() {
    let mut m = fresh_match_4x4();
    assert!(m.attempt_claim(Color::Red, (0, 0)));
    let before = m.grid.get_cell_numbers();
    assert!(!m.tick(0));
    assert!(!m.tick(TURN_MS - 1));
    assert_eq!(m.grid.get_cell_numbers(), before);
    // the turn still belongs to Red and the claim stays spent
    assert!(!m.attempt_claim(Color::Blue, (1, 1)));
    assert!(!m.attempt_claim(Color::Red, (1, 1)));
}

#[test]
fn tick_past_threshold_advances_and_flips_the_turn() {
    let mut m = fresh_match_4x4();
    assert!(m.attempt_claim(Color::Red, (0, 0)));
    assert!(m.tick(TURN_MS));
    // one generation ran: the seed spread to its two neighbours
    assert_eq!(m.grid.get_cell_numbers(), (13, 3, 0, 0));
    // the turn flipped to Blue, whose claim is accepted now
    assert!(m.attempt_claim(Color::Blue, (3, 3)));
    assert_eq!(m.grid.get_cell_numbers(), (12, 3, 1, 0));
}

#[test]
fn alternating_match_on_4x4_finishes_with_every_cell_owned() {
    let mut m = fresh_match_4x4();
    assert!(m.attempt_claim(Color::Red, (0, 0)));
    assert!(m.tick(TURN_MS));
    // Red expanded to (0,1) and (1,0)
    let cells = m.grid.get_cells();
    assert_eq!(cells[m.grid.get_index((0, 1)).unwrap()], Cell::Red);
    assert_eq!(cells[m.grid.get_index((1, 0)).unwrap()], Cell::Red);
    assert!(m.attempt_claim(Color::Blue, (3, 3)));
    assert!(m.tick(TURN_MS));
    // Blue expanded to (2,3) and (3,2)
    let cells = m.grid.get_cells();
    assert_eq!(cells[m.grid.get_index((2, 3)).unwrap()], Cell::Blue);
    assert_eq!(cells[m.grid.get_index((3, 2)).unwrap()], Cell::Blue);
    // keep polling until the board fills
    let mut rounds = 0;
    while !m.grid.is_finished() {
        assert!(m.tick(TURN_MS));
        rounds += 1;
        assert!(rounds < 16, "match should finish quickly");
    }
    let (empty, red, blue, neutral) = m.grid.get_cell_numbers();
    assert_eq!(empty, 0);
    assert_eq!(neutral, 0);
    assert_eq!(red + blue, 16);
    // every cell is owned by exactly one side
    assert!(m
        .grid
        .get_cells()
        .iter()
        .all(|c| *c == Cell::Red || *c == Cell::Blue));
    assert!(red > 0 && blue > 0);
}

#[test]
fn snapshot_copies_the_grid_and_carries_the_clock() {
    let mut m = fresh_match_4x4();
    assert!(m.attempt_claim(Color::Red, (1, 2)));
    let snap = m.snapshot(777);
    assert_eq!(snap.get_timer(), 777);
    assert_eq!(snap.get_cells(), m.grid.get_cells());
    assert_eq!(snap.get_cell_numbers(), m.grid.get_cell_numbers());
}

#[test]
fn registry_seeds_one_open_match() {
    let mut reg = Registry::new();
    assert!(reg.contains(0));
    assert!(!reg.contains(1));
    assert!(reg.get_match(0).is_some());
    assert!(reg.get_match(7).is_none());
    assert_eq!(reg.request_seat(), Some((Color::Red, 0)));
    assert_eq!(reg.request_seat(), Some((Color::Blue, 0)));
}

#[test]
fn full_match_rolls_the_cursor_onto_a_fresh_one() {
    let mut reg = Registry::new();
    assert_eq!(reg.request_seat(), Some((Color::Red, 0)));
    assert_eq!(reg.request_seat(), Some((Color::Blue, 0)));
    // the open match is full: a third caller gets Red in a new match
    assert_eq!(reg.request_seat(), Some((Color::Red, 1)));
    assert!(reg.contains(0));
    assert!(reg.contains(1));
    // the fourth caller fills the new match
    assert_eq!(reg.request_seat(), Some((Color::Blue, 1)));
}

#[test]
fn removed_match_fails_cleanly_afterwards() {
    let mut reg = Registry::new();
    assert!(reg.remove(0));
    assert!(!reg.remove(0));
    assert!(!reg.contains(0));
    assert!(reg.poll(0, 0).is_none());
    assert_eq!(reg.claim_cell(0, Color::Red, (0, 0)), None);
    // with the open match gone, seat requests fail cleanly too
    assert_eq!(reg.request_seat(), None);
}

#[test]
fn registry_poll_gates_the_generation() {
    let mut reg = Registry::new();
    let (advanced, snap) = reg.poll(0, 100).unwrap();
    assert!(!advanced);
    assert_eq!(snap.get_timer(), 100);
    let before = snap.get_cell_numbers();
    let (advanced, snap) = reg.poll(0, TURN_MS + 50).unwrap();
    assert!(advanced);
    assert_eq!(snap.get_timer(), 0);
    // the seeded grid has an empty frontier, so the generation that ran
    // changed no cell
    assert_eq!(snap.get_cell_numbers(), before);
}

#[test]
fn registry_routes_claims_through_the_turn_rules() {
    let mut reg = Registry::new();
    // Red owns the first turn: Blue is rejected, the grid untouched
    assert_eq!(reg.claim_cell(0, Color::Blue, (4, 4)), Some(false));
    let snap_before = reg.poll(0, 0).unwrap().1;
    // Red's claim is evaluated by the grid (it may land on a neutral cell)
    let accepted = reg.claim_cell(0, Color::Red, (4, 4)).unwrap();
    let snap_after = reg.poll(0, 0).unwrap().1;
    let before = snap_before.get_cell_numbers();
    let after = snap_after.get_cell_numbers();
    if accepted {
        assert_eq!(after, (before.0 - 1, 1, 0, before.3));
    } else {
        assert_eq!(after, before);
    }
}

#[test]
fn user_starts_without_a_side() {
    let u = User::new(String::from("ada"));
    assert_eq!(u.name, "ada");
    assert_eq!(u.color, Color::Neither);
}

#[test]
fn user_list_registers_and_unregisters() {
    let mut l = UserList::new();
    assert_eq!(l.n_users, 0);
    l.add_user(User::new(String::from("ada")));
    l.add_user(User::new(String::from("bob")));
    l.add_user(User::new(String::from("ada")));
    assert_eq!(l.n_users, 3);
    assert_eq!(l.users.len(), 3);
    // removal takes the first carrier of the name and keeps the order
    assert!(l.remove_user(&String::from("ada")));
    assert_eq!(l.n_users, 2);
    assert_eq!(l.users[0].name, "bob");
    assert_eq!(l.users[1].name, "ada");
    assert!(!l.remove_user(&String::from("eve")));
    assert_eq!(l.n_users, 2);
    assert!(l.remove_user(&String::from("ada")));
    assert!(l.remove_user(&String::from("bob")));
    assert_eq!(l.n_users, 0);
}

#[test]
fn point_keeps_its_coordinates() {
    let p = Point::new(-3, 44);
    assert_eq!(p.x, -3);
    assert_eq!(p.y, 44);
}
