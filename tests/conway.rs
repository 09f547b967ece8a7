use maze_generator::conway::Conway;

fn alive(c: &Conway, row: usize, col: usize) -> bool {
    *c.get(row, col).unwrap()
}

#[test]
fn blinker_oscillates() {
    let mut c = Conway::new(7, 3, 5, 5);
    c.set(2, 1, true);
    c.set(2, 2, true);
    c.set(2, 3, true);
    assert_eq!(c.neighbour_count(2, 2), 2);
    assert_eq!(c.neighbour_count(1, 2), 3);
    c.update();
    assert!(alive(&c, 1, 2) && alive(&c, 2, 2) && alive(&c, 3, 2));
    assert!(!alive(&c, 2, 1) && !alive(&c, 2, 3));
    assert_eq!(c.population(), 3);
    assert_eq!(c.tick(), 1);
    c.update();
    assert!(alive(&c, 2, 1) && alive(&c, 2, 2) && alive(&c, 2, 3));
    assert_eq!(c.tick(), 2);
}

#[test]
fn lonely_cell_dies() {
    let mut c = Conway::new(1, 1, 3, 4);
    c.set(0, 3, true);
    c.update();
    assert_eq!(c.population(), 0);
    assert!(!alive(&c, 0, 3));
}

#[test]
fn neighbours_off_the_board_are_dead() {
    let mut c = Conway::new(1, 0, 2, 2);
    c.set(0, 0, true);
    c.set(0, 1, true);
    c.set(1, 0, true);
    c.set(1, 1, true);
    assert_eq!(c.neighbour_count(0, 0), 3);
    assert_eq!(c.neighbour_count(5, 5), 0);
    assert_eq!(c.get(2, 0), None);
}

#[test]
fn random_generation_places_the_population() {
    let mut c = Conway::new(1337, 12, 4, 5);
    c.random_generation();
    let mut live = 0;
    for r in 0..4 {
        for k in 0..5 {
            if alive(&c, r, k) {
                live += 1;
            }
        }
    }
    assert_eq!(live, 12);
    assert_eq!(c.current_seed(), 1337);
    c.seed(42);
    assert_eq!(c.current_seed(), 42);
}

#[test]
fn random_generation_stops_when_the_board_is_full() {
    let mut c = Conway::new(3, 50, 2, 3);
    c.random_generation();
    assert!((0..2).all(|r| (0..3).all(|k| alive(&c, r, k))));
    assert_eq!(c.population(), 50);
}

#[test]
fn same_seed_same_board() {
    let mut a = Conway::new(99, 7, 6, 6);
    let mut b = Conway::new(99, 7, 6, 6);
    a.random_generation();
    b.random_generation();
    for r in 0..6 {
        for k in 0..6 {
            assert_eq!(alive(&a, r, k), alive(&b, r, k));
        }
    }
}

#[test]
fn population_moves_by_births_and_deaths() {
    let mut c = Conway::new(4, 5, 3, 3);
    c.update();
    assert_eq!(c.population(), 5);
    c.set(0, 0, true);
    c.set(0, 1, true);
    c.set(1, 0, true);
    c.update();
    assert_eq!(c.population(), 6);
    assert!(alive(&c, 1, 1));
}
