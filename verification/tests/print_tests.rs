use crosswords_rs::print::{PrintItem, PrintIter};
use crosswords_rs::{Crosswords, Dir, Point};

fn cv(s: &str) -> Vec<char> {
    s.chars().collect()
}

fn collect_items(mut it: PrintIter) -> Vec<PrintItem> {
    let mut out = Vec::new();
    loop {
        match it.next() {
            Some(t) => out.push(t),
            None => break,
        }
    }
    out
}

#[test]
fn solution_stream_walks_the_token_matrix() {
    let mut cw = Crosswords::new(3, 1);
    assert!(cw.try_word(Point::new(0, 0), Dir::Right, &cv("BAR")));
    let items = collect_items(cw.print_items());
    // (2 * H + 1) rows of 2 * W + 2 tokens each.
    assert_eq!((2 * 1 + 1) * (2 * 3 + 2), items.len());
    let breaks = items.iter().filter(|t| matches!(t, PrintItem::LineBreak)).count();
    assert_eq!(3, breaks);
    // The middle row reads the word's letters between vertical boundaries.
    assert_eq!(PrintItem::VertBorder(true), items[8]);
    assert_eq!(PrintItem::Character('B'), items[9]);
    assert_eq!(PrintItem::VertBorder(false), items[10]);
    assert_eq!(PrintItem::Character('A'), items[11]);
    assert_eq!(PrintItem::Character('R'), items[13]);
    assert_eq!(PrintItem::VertBorder(true), items[14]);
}

#[test]
fn puzzle_stream_numbers_word_starts() {
    let mut cw = Crosswords::new(3, 2);
    assert!(cw.try_word(Point::new(0, 0), Dir::Right, &cv("BAR")));
    assert!(cw.try_word(Point::new(0, 1), Dir::Right, &cv("FOO")));
    let items = collect_items(PrintIter::new_puzzle(&cw));
    let hints: Vec<u32> = items
        .iter()
        .filter_map(|t| match t {
            PrintItem::Hint(n) => Some(*n),
            _ => None,
        })
        .collect();
    assert_eq!(vec![1, 2], hints);
    // In puzzle mode no letters are shown, only blanks.
    assert!(items.iter().all(|t| !matches!(t, PrintItem::Character(c) if *c != ' ')));
    // In solution mode the same cells show their letters.
    let solution = collect_items(PrintIter::new_solution(&cw));
    let letters: Vec<char> = solution
        .iter()
        .filter_map(|t| match t {
            PrintItem::Character(c) => Some(*c),
            _ => None,
        })
        .collect();
    assert_eq!(cv("BARFOO"), letters);
}

#[test]
fn empty_cells_print_as_blocks() {
    let cw = Crosswords::new(2, 1);
    let items = collect_items(cw.print_items());
    let blocks = items.iter().filter(|t| matches!(t, PrintItem::Block)).count();
    assert_eq!(2, blocks);
}
