use boggler::board::{is_1d_len_square_in_2d, Board, BoardCell};
use boggler::charset::EnglishAlpha;
use boggler::error::Error;
use boggler::grid::Grid;
use boggler::search::find_words;
use boggler::simple::{SimpleBoard, SimpleNeighbors};
use boggler::trie::Prefixes;

fn owned(words: &[&str]) -> Vec<String> {
    words.iter().map(|w| w.to_string()).collect()
}

#[test]
fn test_4x4() {
    let words = owned(&["met", "tea", "tear", "gem", "zzz"]);

    let board = SimpleBoard::<EnglishAlpha>::new("rrridaetswemrkoeeghheiana").unwrap();
    let prefixes = Prefixes::<EnglishAlpha>::from_words(&words, 50);

    let mut indexes = Vec::new();

    find_words(&board, &prefixes, &mut indexes);

    for i in &indexes {
        println!("word: {}", words[*i]);
    }

    assert!(indexes.contains(&0));
    assert!(indexes.contains(&1));
    assert!(indexes.contains(&2));
    assert!(indexes.contains(&3));
    assert!(!indexes.contains(&4));
}

#[test]
fn test_neighbors() {
    let grid = Grid::from_grid("modnstedetripyij").unwrap();
    let neighbors = grid.neighbors((0, 0));

    assert_eq!(neighbors.len(), 3);
    assert!(neighbors.contains(&(0, 1)));
    assert!(neighbors.contains(&(1, 0)));
    assert!(neighbors.contains(&(1, 1)));

    let neighbors = grid.neighbors((1, 1));

    assert_eq!(neighbors.len(), 8);
    assert!(neighbors.contains(&(0, 0)));
    assert!(neighbors.contains(&(1, 0)));
    assert!(neighbors.contains(&(2, 0)));
    assert!(neighbors.contains(&(0, 1)));
    assert!(neighbors.contains(&(0, 2)));
    assert!(neighbors.contains(&(0, 2)));
    assert!(neighbors.contains(&(1, 2)));
    assert!(neighbors.contains(&(2, 2)));
}

#[test]
fn test_graph() {
    let grid = Grid::from_grid("modnstedetripyij").unwrap();
    let mut graph = boggler::graph::GridGraph::new(&grid);

    let root = graph.root();
    println!("{:?}", graph.get_children_matching_ch(root, 'm'));

    // the root points at every cell, grouped by character
    assert_eq!(graph.get_children_matching_ch(root, 'm'), Some(&vec![1]));
    assert_eq!(graph.get_children_matching_ch(root, 'd'), Some(&vec![3, 8]));
    assert_eq!(graph.get_children_matching_ch(root, 'e'), Some(&vec![7, 9]));
    assert_eq!(graph.get_children_matching_ch(root, 'z'), None);

    // the m cell points at its three neighbors t, o and s
    assert_eq!(graph.get_children_matching_ch(1, 't'), Some(&vec![6]));
    assert_eq!(graph.get_children_matching_ch(1, 'o'), Some(&vec![2]));
    assert_eq!(graph.get_children_matching_ch(1, 's'), Some(&vec![5]));
    assert_eq!(graph.get_children_matching_ch(1, 'm'), None);
    assert_eq!(graph.get_children_matching_ch(99, 'm'), None);
}

#[test]
fn test_grid_accessors() {
    let grid = Grid::from_grid("modnstedetripyij").unwrap();
    assert_eq!(grid.size(), 4);
    assert_eq!(grid.max_word_len(), 16);
    assert_eq!(grid.min_word_len(), 3);
    assert_eq!(grid.at((0, 0)), 'm');
    assert_eq!(grid.at((0, 1)), 'o');
    assert_eq!(grid.at((1, 0)), 's');
    assert_eq!(grid.next((0, 0)), Some((1, 0)));
    assert_eq!(grid.next((3, 0)), Some((0, 1)));
    assert_eq!(grid.next((3, 3)), None);
    // the successor formula is total: points past the grid have no successor
    assert_eq!(grid.next((9, 9)), None);
    let empty = Grid::from_grid("").unwrap();
    assert_eq!(empty.next((0, 0)), None);
}

#[test]
fn test_custom_kernel() {
    // a four-neighbor kernel: diagonals are no longer adjacent
    let grid = Grid::new("abcd", 3, vec![(0, -1), (0, 1), (-1, 0), (1, 0)]).unwrap();
    assert_eq!(grid.neighbors((0, 0)), vec![(0, 1), (1, 0)]);
    assert_eq!(grid.neighbors((1, 1)), vec![(1, 0), (0, 1)]);

    // an empty kernel leaves every cell isolated
    let grid = Grid::new("abcd", 3, vec![]).unwrap();
    assert_eq!(grid.neighbors((0, 0)), vec![]);

    // a kernel without the zero offset never yields the cell itself
    let grid = Grid::from_grid("abcdefghi").unwrap();
    for x in 0..3 {
        for y in 0..3 {
            assert!(!grid.neighbors((x, y)).contains(&(x, y)));
        }
    }
}

#[test]
fn test_grid_not_square() {
    assert!(matches!(Grid::from_grid("abc"), Err(Error::NotSquare)));
    assert!(Grid::from_grid("").is_ok());
    assert!(Grid::from_grid("a").is_ok());
}

#[test]
fn test_board_errors() {
    assert!(matches!(
        SimpleBoard::<EnglishAlpha>::new("ab1c"),
        Err(Error::InvalidCharacter('1'))
    ));
    assert!(matches!(
        SimpleBoard::<EnglishAlpha>::new("abc"),
        Err(Error::NotSquare)
    ));
    assert!(SimpleBoard::<EnglishAlpha>::new("abcd").is_ok());
}

#[test]
fn test_board_cells() {
    let board = SimpleBoard::<EnglishAlpha>::new("abcd").unwrap();
    assert_eq!(board.size(), 2);
    let cell = board.at(1, 0).unwrap();
    assert_eq!(cell.x(), 1);
    assert_eq!(cell.y(), 0);
    assert_eq!(cell.ch(), 1);
    assert!(board.at(2, 0).is_none());
    assert!(board.at(0, 2).is_none());
}

#[test]
fn test_simple_neighbors_order() {
    // kernel order for the top-left cell of a 2x2 board: (1,1), (0,1), (1,0)
    let board = SimpleBoard::<EnglishAlpha>::new("abcd").unwrap();
    let mut it = SimpleNeighbors::new(&board, 0, 0);

    let c = it.next().unwrap();
    assert_eq!((c.x(), c.y(), c.ch()), (1, 1, 3));
    let c = it.next().unwrap();
    assert_eq!((c.x(), c.y(), c.ch()), (0, 1, 2));
    let c = it.next().unwrap();
    assert_eq!((c.x(), c.y(), c.ch()), (1, 0, 1));
    assert!(it.next().is_none());
    assert!(it.next().is_none());
}

#[test]
fn test_board_with_kernel() {
    // a four-neighbor kernel: the corner cell of "abcd" has two neighbors
    let board = SimpleBoard::<EnglishAlpha>::with_kernel(
        "abcd",
        vec![(0, -1), (0, 1), (-1, 0), (1, 0)],
    )
    .unwrap();
    let cells = board.neighbors(0, 0);
    assert_eq!(cells.len(), 2);
    assert_eq!((cells[0].x(), cells[0].y(), cells[0].ch()), (0, 1, 2));
    assert_eq!((cells[1].x(), cells[1].y(), cells[1].ch()), (1, 0, 1));
}

#[test]
fn test_search_with_kernel() {
    // "aba" is traceable under king moves but not under diagonal-only or
    // empty adjacency on this board
    let words = owned(&["aba"]);
    let prefixes = Prefixes::<EnglishAlpha>::from_words(&words, 50);

    let board = SimpleBoard::<EnglishAlpha>::with_kernel(
        "abba",
        vec![(1, 1), (-1, -1), (1, -1), (-1, 1)],
    )
    .unwrap();
    let mut indexes = Vec::new();
    find_words(&board, &prefixes, &mut indexes);
    assert!(indexes.is_empty());

    let board = SimpleBoard::<EnglishAlpha>::with_kernel("abba", vec![]).unwrap();
    let mut indexes = Vec::new();
    find_words(&board, &prefixes, &mut indexes);
    assert!(indexes.is_empty());
}

#[test]
fn test_is_square() {
    assert!(is_1d_len_square_in_2d(0));
    assert!(is_1d_len_square_in_2d(1));
    assert!(is_1d_len_square_in_2d(16));
    assert!(is_1d_len_square_in_2d(25));
    assert!(!is_1d_len_square_in_2d(2));
    assert!(!is_1d_len_square_in_2d(24));
}

#[test]
fn test_find_words_deterministic() {
    let words = owned(&["met", "tea", "tear", "gem"]);
    let board = SimpleBoard::<EnglishAlpha>::new("rrridaetswemrkoeeghheiana").unwrap();
    let prefixes = Prefixes::<EnglishAlpha>::from_words(&words, 50);

    let mut first = Vec::new();
    find_words(&board, &prefixes, &mut first);
    let mut second = Vec::new();
    find_words(&board, &prefixes, &mut second);

    assert_eq!(first, second);
}

#[test]
fn test_single_cell_board_finds_nothing() {
    // a path on a 1x1 board has length 1, below the minimum word length of 3
    let words = owned(&["aaa"]);
    let board = SimpleBoard::<EnglishAlpha>::new("a").unwrap();
    let prefixes = Prefixes::<EnglishAlpha>::from_words(&words, 50);

    let mut indexes = Vec::new();
    find_words(&board, &prefixes, &mut indexes);
    assert!(indexes.is_empty());
}

#[test]
fn test_empty_word_list() {
    let words: Vec<String> = Vec::new();
    let prefixes = Prefixes::<EnglishAlpha>::from_words(&words, 50);
    assert_eq!(prefixes.root_index(), None);
    assert!(prefixes.arena().is_empty());

    let board = SimpleBoard::<EnglishAlpha>::new("abcd").unwrap();
    let mut indexes = Vec::new();
    find_words(&board, &prefixes, &mut indexes);
    assert!(indexes.is_empty());
}

#[test]
fn test_word_found_via_multiple_paths() {
    // "aba" can be traced many ways on a board of a and b tiles
    let words = owned(&["aba"]);
    let board = SimpleBoard::<EnglishAlpha>::new("abba").unwrap();
    let prefixes = Prefixes::<EnglishAlpha>::from_words(&words, 50);

    let mut indexes = Vec::new();
    find_words(&board, &prefixes, &mut indexes);
    assert!(indexes.len() > 1);
    assert!(indexes.iter().all(|&i| i == 0));
}

#[test]
fn test_cell_not_reused_within_word() {
    // "aba" needs two distinct a cells; a board with one a cannot trace it
    let words = owned(&["aba"]);
    let board = SimpleBoard::<EnglishAlpha>::new("ab").err();
    assert!(board.is_some());

    let board = SimpleBoard::<EnglishAlpha>::new("abbb").unwrap();
    let prefixes = Prefixes::<EnglishAlpha>::from_words(&words, 50);
    let mut indexes = Vec::new();
    find_words(&board, &prefixes, &mut indexes);
    assert!(indexes.is_empty());
}
