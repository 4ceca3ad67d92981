use crosswords_rs::{Crosswords, Dir, Point};

fn cv(s: &str) -> Vec<char> {
    s.chars().collect()
}

#[test]
fn test_put_word() {
    let mut cw = Crosswords::new(6, 2);
    let p00 = Point::new(0, 0);
    let p01 = Point::new(0, 1);
    let p30 = Point::new(3, 0);
    // Words are too long:
    assert_eq!(false, cw.try_word(p00, Dir::Down, &"FOO".chars().collect()));
    assert_eq!(false, cw.try_word(p00, Dir::Right, &"FOOBARBAZ".chars().collect()));
    // BAR fits horizontally, but cannot be duplicated.
    assert_eq!(true, cw.try_word(p00, Dir::Right, &"BAR".chars().collect()));
    assert_eq!(false, cw.try_word(p01, Dir::Right, &"BAR".chars().collect()));
    assert_eq!(
        "BAR".to_string(),
        cw.chars_at(p00, Dir::Right).iter().collect::<String>()
    );
    assert_eq!(true, cw.try_word(p30, Dir::Right, &"BAZ".chars().collect()));
    // BARBAZ is also a word. Combine BAR and BAZ, so that they are free again:
    assert_eq!(true, cw.try_word(p00, Dir::Right, &"BARBAZ".chars().collect()));
    assert_eq!(true, cw.try_word(p01, Dir::Right, &"BAR".chars().collect()));
    assert_eq!(true, cw.try_word(p00, Dir::Down, &"BB".chars().collect()));
}

#[test]
fn superseded_words_leave_the_set() {
    let mut cw = Crosswords::new(6, 2);
    assert!(cw.try_word(Point::new(0, 0), Dir::Right, &cv("BAR")));
    assert!(cw.try_word(Point::new(3, 0), Dir::Right, &cv("BAZ")));
    assert!(cw.try_word(Point::new(0, 0), Dir::Right, &cv("BARBAZ")));
    let words = cw.get_words();
    assert_eq!(1, words.len());
    assert_eq!(cv("BARBAZ"), words[0]);
    // Removing BARBAZ leaves no words at all: BAR and BAZ were consumed.
    let popped = cw.pop_word(Point::new(2, 0), Dir::Right);
    assert_eq!(cv("BARBAZ"), popped);
    assert!(cw.is_empty());
}

#[test]
fn empty_grid_statistics() {
    let cw = Crosswords::new(5, 4);
    assert_eq!(2 * 5 * 4 - 5 - 4, cw.max_border_count());
    assert_eq!(cw.max_border_count(), cw.count_borders());
    assert!(cw.is_empty());
    assert!(!cw.is_full());
}

#[test]
fn placement_removes_and_restores_borders() {
    let mut cw = Crosswords::new(6, 2);
    let max = cw.max_border_count();
    assert!(cw.try_word(Point::new(0, 0), Dir::Right, &cv("BAR")));
    // A placement of length 3 clears exactly 2 boundaries.
    assert_eq!(max - 2, cw.count_borders());
    let popped = cw.pop_word(Point::new(0, 0), Dir::Right);
    assert_eq!(cv("BAR"), popped);
    assert_eq!(max, cw.count_borders());
    assert!(cw.is_empty());
}

#[test]
fn failed_placement_changes_nothing() {
    let mut cw = Crosswords::new(6, 2);
    assert!(cw.try_word(Point::new(0, 0), Dir::Right, &cv("BAR")));
    let borders_before = cw.count_borders();
    let words_before = cw.get_words().clone();
    // Conflicts with the R of BAR.
    assert!(!cw.try_word(Point::new(2, 0), Dir::Right, &cv("XYZA")));
    assert_eq!(borders_before, cw.count_borders());
    assert_eq!(&words_before, cw.get_words());
    assert_eq!(Some('B'), cw.get_char(Point::new(0, 0)));
    assert_eq!(Some('#'), cw.get_char(Point::new(0, 1)));
}

#[test]
fn is_word_allowed_agrees_with_try_word() {
    let mut cw = Crosswords::new(6, 2);
    let cases: Vec<(Point, Dir, Vec<char>)> = vec![
        (Point::new(0, 0), Dir::Right, cv("BAR")),
        (Point::new(0, 0), Dir::Right, cv("BAR")),
        (Point::new(0, 0), Dir::Down, cv("BB")),
        (Point::new(5, 0), Dir::Down, cv("XY")),
        (Point::new(4, 1), Dir::Right, cv("QQQ")),
        (Point::new(0, 1), Dir::Right, cv("B")),
    ];
    for (p, dir, w) in cases {
        let allowed = cw.is_word_allowed(p, dir, &w);
        assert_eq!(allowed, cw.try_word(p, dir, &w));
    }
}

#[test]
fn word_at_reads_whole_word_through_cell() {
    let mut cw = Crosswords::new(6, 2);
    assert!(cw.try_word(Point::new(0, 0), Dir::Right, &cv("BAR")));
    assert_eq!(cv("BAR"), cw.word_at(Point::new(1, 0), Dir::Right));
    assert_eq!(cv("BAR"), cw.word_at(Point::new(0, 0), Dir::Right));
    // An isolated letter along the other axis is a one-letter run.
    assert_eq!(cv("B"), cw.word_at(Point::new(0, 0), Dir::Down));
    // An empty cell carries no word.
    assert_eq!(cv(""), cw.word_at(Point::new(0, 1), Dir::Right));
}

#[test]
fn placed_letters_stay_linked() {
    let mut cw = Crosswords::new(6, 2);
    assert!(cw.try_word(Point::new(0, 0), Dir::Right, &cv("BAR")));
    // Every letter cell misses a boundary along some axis.
    for x in 0..3 {
        let p = Point::new(x, 0);
        assert!(
            !cw.both_borders(p, Dir::Right) || !cw.both_borders(p, Dir::Down)
        );
    }
    // The empty cells keep boundaries all around.
    for x in 0..6 {
        let p = Point::new(x, 1);
        assert!(cw.both_borders(p, Dir::Right) && cw.both_borders(p, Dir::Down));
    }
}

#[test]
fn word_ranges_lists_every_word() {
    let mut cw = Crosswords::new(6, 2);
    assert!(cw.try_word(Point::new(0, 0), Dir::Right, &cv("BAR")));
    assert!(cw.try_word(Point::new(0, 0), Dir::Down, &cv("BB")));
    let ranges = cw.word_ranges();
    assert_eq!(2, ranges.len());
    assert_eq!(Point::new(0, 0), ranges[0].point);
    assert_eq!(Dir::Right, ranges[0].dir);
    assert_eq!(3, ranges[0].len);
    assert_eq!(Dir::Down, ranges[1].dir);
    assert_eq!(2, ranges[1].len);
}

#[test]
fn free_ranges_follow_words() {
    let mut cw = Crosswords::new(6, 1);
    // The whole row is free at first.
    let free = cw.get_free_range_at(Point::new(0, 0), Dir::Right);
    assert_eq!(6, free.len);
    assert_eq!(Point::new(0, 0), free.point);
    assert!(cw.is_range_free(free));
    assert!(cw.try_word(Point::new(0, 0), Dir::Right, &cv("BAR")));
    // After BAR the free row continues at x = 3.
    let rest = cw.get_free_range_containing(Point::new(4, 0), Dir::Right);
    assert_eq!(Point::new(3, 0), rest.point);
    assert_eq!(3, rest.len);
    let word_range = cw.get_word_range_containing(Point::new(1, 0), Dir::Right);
    let after = cw.get_range_after(&word_range);
    assert_eq!(Point::new(3, 0), after.point);
    assert_eq!(3, after.len);
    let before = cw.get_range_before(&word_range);
    assert_eq!(0, before.len);
    assert!(!cw.is_range_free(word_range));
}

#[test]
fn hints_mark_word_starts() {
    let mut cw = Crosswords::new(6, 2);
    assert!(cw.try_word(Point::new(0, 0), Dir::Right, &cv("BAR")));
    assert!(cw.try_word(Point::new(0, 0), Dir::Down, &cv("BB")));
    assert!(cw.has_hint_at(Point::new(0, 0)));
    assert!(cw.has_hint_at_dir(Point::new(0, 0), Dir::Right));
    assert!(cw.has_hint_at_dir(Point::new(0, 0), Dir::Down));
    assert!(!cw.has_hint_at(Point::new(1, 0)));
    assert!(!cw.has_hint_at(Point::new(1, 1)));
}

#[test]
fn smallest_boundary_pairs_are_sound() {
    let mut cw = Crosswords::new(4, 3);
    assert!(cw.try_word(Point::new(0, 0), Dir::Right, &cv("ABCD")));
    let pairs = cw.get_smallest_boundary();
    assert!(pairs.len() > 0);
    for (q, o) in pairs.iter() {
        // The inside cell is an empty cell of the grid.
        assert_eq!(Some('#'), cw.get_char(*q));
        // The outside point is an adjacent letter or beyond the grid.
        let dx = (o.x - q.x).abs();
        let dy = (o.y - q.y).abs();
        assert_eq!(1, dx + dy);
        match cw.get_char(*o) {
            None => {}
            Some(c) => assert_ne!('#', c),
        }
    }
}

#[test]
fn boundary_iter_of_letter_cell_is_empty() {
    let mut cw = Crosswords::new(4, 3);
    assert!(cw.try_word(Point::new(0, 0), Dir::Right, &cv("ABCD")));
    assert_eq!(0, cw.get_boundary_iter_for(Point::new(0, 0)).len());
    assert!(cw.get_boundary_iter_for(Point::new(0, 1)).len() > 0);
}

#[test]
fn smallest_boundary_picks_the_smaller_pocket() {
    // A word across the third row splits the empty cells into a pocket of
    // ten cells above and a pocket of five below; the smaller pocket's
    // boundary has 12 pairs (5 letters above, 5 grid edges below, 2 sides).
    let mut cw = Crosswords::new(5, 4);
    assert!(cw.try_word(Point::new(0, 2), Dir::Right, &cv("ABCDE")));
    let pairs = cw.get_smallest_boundary();
    assert_eq!(12, pairs.len());
    for (q, _) in pairs.iter() {
        assert_eq!(3, q.y);
    }
}

#[test]
fn smallest_boundary_of_wordless_grid_is_empty() {
    let cw = Crosswords::new(4, 3);
    assert_eq!(0, cw.get_smallest_boundary().len());
}

#[test]
fn boundary_iter_traces_the_whole_cluster() {
    // One word in a 4 x 2 grid: the empty cells form a single cluster of
    // four cells around it.
    let mut cw = Crosswords::new(4, 2);
    assert!(cw.try_word(Point::new(0, 0), Dir::Right, &cv("AB")));
    let pairs = cw.get_boundary_iter_for(Point::new(3, 1));
    // Each empty cell contributes its letter and out-of-grid neighbours:
    // (2,0): A? no — left neighbour is B, top edge, right is (3,0).
    let qs: Vec<(i32, i32)> = pairs.iter().map(|(q, _)| (q.x, q.y)).collect();
    assert!(qs.contains(&(2, 0)));
    assert!(qs.contains(&(3, 0)));
    assert!(qs.contains(&(0, 1)));
    assert!(qs.contains(&(3, 1)));
    // No pair is repeated and each names an empty cell.
    for (i, (q, o)) in pairs.iter().enumerate() {
        assert_eq!(Some('#'), cw.get_char(*q));
        assert_eq!(1, (o.x - q.x).abs() + (o.y - q.y).abs());
        for (j, other) in pairs.iter().enumerate() {
            if i != j {
                assert_ne!((q, o), (&other.0, &other.1));
            }
        }
    }
}
