use strands::{Candidates, Strands, Trie};

fn trie_of(words: &[&str]) -> Trie {
    let mut trie = Trie::new();
    for w in words.iter() {
        trie.insert(w.to_string());
    }
    trie
}

fn is_simple_path(path: &[(isize, isize)], rows: isize, cols: isize) -> bool {
    for (i, c) in path.iter().enumerate() {
        if c.0 < 0 || c.1 < 0 || c.0 >= rows || c.1 >= cols {
            return false;
        }
        if i > 0 {
            let p = path[i - 1];
            let (dr, dc) = (c.0 - p.0, c.1 - p.1);
            if dr.abs() > 1 || dc.abs() > 1 || (dr == 0 && dc == 0) {
                return false;
            }
        }
        for d in path[..i].iter() {
            if d == c {
                return false;
            }
        }
    }
    true
}

fn spelled(puzzle: &Vec<Vec<char>>, path: &[(isize, isize)]) -> String {
    path.iter().map(|c| puzzle[c.0 as usize][c.1 as usize]).collect()
}

fn check_solution(strands: &Strands, sol: &Candidates) {
    let rows = strands.puzzle.len();
    let cols = strands.puzzle[0].len();
    assert_eq!(sol.entries.len(), strands.num_answers);
    let mut hits = vec![vec![0usize; cols]; rows];
    for (w, p) in sol.entries.iter() {
        assert!(is_simple_path(p, rows as isize, cols as isize));
        assert_eq!(&spelled(&strands.puzzle, p), w);
        for c in p.iter() {
            hits[c.0 as usize][c.1 as usize] += 1;
        }
    }
    for row in hits.iter() {
        for h in row.iter() {
            assert_eq!(*h, 1);
        }
    }
}

#[test]
fn solve_word_absent_from_grid() {
    let strands = Strands::new("AB\nCD".to_string(), 1);
    let trie = trie_of(&["Z"]);
    assert_eq!(strands.solve(&trie), None);
}

#[test]
fn solve_without_reachable_words_is_none() {
    let strands = Strands::new("CAT\nDOG\nBEE".to_string(), 2);
    let trie = trie_of(&["CB", "TD", "XYZ", "CATS"]);
    let found = strands.find_words(&trie);
    assert_eq!(found.entries.len(), 0);
    assert_eq!(strands.solve(&trie), None);
}

#[test]
fn found_words_follow_simple_paths_and_spell_the_word() {
    let strands = Strands::new("CAT\nDOG\nEES".to_string(), 3);
    let trie = trie_of(&["CAT", "DOG", "SEE", "DOGS", "COD", "TOAD", "GOD", "SEES", "ACT", "CODE"]);
    let found = strands.find_words(&trie);
    let mut words: Vec<String> = found.entries.iter().map(|e| e.0.clone()).collect();
    words.sort();
    assert_eq!(words, vec!["CAT", "COD", "CODE", "DOG", "DOGS", "GOD", "SEE", "TOAD"]);
    for (w, p) in found.entries.iter() {
        assert!(is_simple_path(p, 3, 3));
        assert_eq!(&spelled(&strands.puzzle, p), w);
    }
}

#[test]
fn found_words_in_order_of_discovery() {
    let strands = Strands::new("AB\nCD".to_string(), 1);
    let trie = trie_of(&["DA", "AB", "BC"]);
    let found = strands.find_words(&trie);
    let words: Vec<String> = found.entries.iter().map(|e| e.0.clone()).collect();
    assert_eq!(words, vec!["AB", "BC", "DA"]);
    assert_eq!(found.entries[1].1, vec![(0, 1), (1, 0)]);
}

#[test]
fn solutions_cover_every_cell_once() {
    let strands = Strands::new("CAT\nDOG\nEES".to_string(), 3);
    let trie = trie_of(&["CAT", "DOG", "SEE", "DOGS", "COD", "TOAD", "GOD", "SEES", "ACT", "CODE"]);
    let sol = strands.solve(&trie).unwrap();
    check_solution(&strands, &sol);

    let strands = Strands::new("AB\nCD".to_string(), 2);
    let trie = trie_of(&["AB", "CD", "ABC", "ACDB"]);
    let sol = strands.solve(&trie).unwrap();
    check_solution(&strands, &sol);
}

#[test]
fn solve_with_wrong_count_is_none() {
    let strands = Strands::new("CAT\nDOG\nBEE".to_string(), 2);
    let trie = trie_of(&["CAT", "DOG", "BEE"]);
    assert_eq!(strands.solve(&trie), None);
    let strands = Strands::new("CAT\nDOG\nBEE".to_string(), 4);
    assert_eq!(strands.solve(&trie), None);
    let strands = Strands::new("CAT\nDOG\nBEE".to_string(), 0);
    assert_eq!(strands.solve(&trie), None);
}

#[test]
fn solve_single_letter_words() {
    let strands = Strands::new("AB".to_string(), 2);
    let trie = trie_of(&["A", "B", "AB"]);
    let sol = strands.solve(&trie).unwrap();
    check_solution(&strands, &sol);
    let mut words: Vec<String> = sol.entries.iter().map(|e| e.0.clone()).collect();
    words.sort();
    assert_eq!(words, vec!["A", "B"]);
}

#[test]
fn overlap_false_on_disjoint_paths() {
    let mut candidates = Candidates::new();
    candidates.insert("AB".to_string(), vec![(0, 0), (0, 1)]);
    candidates.insert("CD".to_string(), vec![(1, 0), (1, 1)]);
    assert!(!Strands::has_overlap(&candidates, &"AB".to_string(), &"CD".to_string()));
    assert!(!Strands::has_overlap(&candidates, &"CD".to_string(), &"AB".to_string()));
}

#[test]
fn candidates_replace_path_in_place() {
    let mut candidates = Candidates::new();
    candidates.insert("A".to_string(), vec![(0, 0)]);
    candidates.insert("B".to_string(), vec![(0, 1)]);
    candidates.insert("A".to_string(), vec![(1, 1)]);
    assert_eq!(candidates.len(), 2);
    assert_eq!(candidates.entries[0], ("A".to_string(), vec![(1, 1)]));
    assert_eq!(candidates.entries[1], ("B".to_string(), vec![(0, 1)]));
    assert_eq!(candidates.get(&"A".to_string()), Some(&vec![(1, 1)]));
    assert_eq!(candidates.get(&"C".to_string()), None);
}

#[test]
fn covers_grid_checks_every_cell_and_bounds() {
    let strands = Strands::new("AB\nCD".to_string(), 2);
    let mut candidates = Candidates::new();
    candidates.insert("AB".to_string(), vec![(0, 0), (0, 1)]);
    candidates.insert("CD".to_string(), vec![(1, 0), (1, 1)]);
    candidates.insert("XY".to_string(), vec![(1, 0), (2, 0)]);
    let both = vec!["AB".to_string(), "CD".to_string()];
    assert!(Strands::covers_grid(&strands.puzzle, &both, &candidates));
    let one = vec!["AB".to_string()];
    assert!(!Strands::covers_grid(&strands.puzzle, &one, &candidates));
    let outside = vec!["AB".to_string(), "CD".to_string(), "XY".to_string()];
    assert!(!Strands::covers_grid(&strands.puzzle, &outside, &candidates));
}

#[test]
fn failed_search_leaves_solution_unchanged() {
    let strands = Strands::new("AB\nCD".to_string(), 2);
    let mut candidates = Candidates::new();
    candidates.insert("AB".to_string(), vec![(0, 0), (0, 1)]);
    candidates.insert("BD".to_string(), vec![(0, 1), (1, 1)]);
    let mut solution = Vec::new();
    let found = Strands::recurse_find_solution(&strands.puzzle, &mut solution, &candidates, 2, 1);
    assert!(!found);
    assert!(solution.is_empty());
}

#[test]
fn search_keeps_chosen_words_first() {
    let strands = Strands::new("AB\nCD".to_string(), 2);
    let mut candidates = Candidates::new();
    candidates.insert("AC".to_string(), vec![(0, 0), (1, 0)]);
    candidates.insert("AB".to_string(), vec![(0, 0), (0, 1)]);
    candidates.insert("CD".to_string(), vec![(1, 0), (1, 1)]);
    candidates.insert("BD".to_string(), vec![(0, 1), (1, 1)]);
    let mut solution = vec!["AB".to_string()];
    let found = Strands::recurse_find_solution(&strands.puzzle, &mut solution, &candidates, 2, 2);
    assert!(found);
    assert_eq!(solution, vec!["AB".to_string(), "CD".to_string()]);
}

#[test]
fn walk_from_outside_or_visited_cell_finds_nothing() {
    let strands = Strands::new("CA\nTS".to_string(), 1);
    let trie = trie_of(&["CAT", "A"]);
    let mut result = Candidates::new();
    let mut visited = vec![vec![false; 2]; 2];
    let mut word = String::new();
    let mut coords = Vec::new();
    Strands::recurse_find_words(&strands.puzzle, &trie, (-1, 0), &mut visited, &mut word, &mut coords, &mut result);
    Strands::recurse_find_words(&strands.puzzle, &trie, (0, 2), &mut visited, &mut word, &mut coords, &mut result);
    assert_eq!(result.len(), 0);
    visited[0][1] = true;
    Strands::recurse_find_words(&strands.puzzle, &trie, (0, 0), &mut visited, &mut word, &mut coords, &mut result);
    Strands::recurse_find_words(&strands.puzzle, &trie, (0, 1), &mut visited, &mut word, &mut coords, &mut result);
    assert_eq!(result.len(), 0);
    assert_eq!(visited, vec![vec![false, true], vec![false, false]]);
    assert!(word.is_empty());
    assert!(coords.is_empty());
}

#[test]
fn walk_continues_a_guess() {
    let strands = Strands::new("CA\nTS".to_string(), 1);
    let trie = trie_of(&["CAT", "CATS"]);
    let mut result = Candidates::new();
    let mut visited = vec![vec![true, false], vec![false, false]];
    let mut word = "C".to_string();
    let mut coords = vec![(0, 0)];
    Strands::recurse_find_words(&strands.puzzle, &trie, (0, 1), &mut visited, &mut word, &mut coords, &mut result);
    assert_eq!(result.entries.len(), 2);
    assert_eq!(result.entries[0], ("CAT".to_string(), vec![(0, 0), (0, 1), (1, 0)]));
    assert_eq!(result.entries[1], ("CATS".to_string(), vec![(0, 0), (0, 1), (1, 0), (1, 1)]));
    assert_eq!(word, "C".to_string());
    assert_eq!(coords, vec![(0, 0)]);
}

#[test]
fn puzzle_lines_follow_line_endings() {
    let s = Strands::new("AB\r\nCD\n".to_string(), 2);
    assert_eq!(s.puzzle, vec![vec!['A', 'B'], vec!['C', 'D']]);
    let s = Strands::new(String::new(), 1);
    assert!(s.puzzle.is_empty());
    let s = Strands::new("A\n\nB".to_string(), 1);
    assert_eq!(s.puzzle, vec![vec!['A'], vec![], vec!['B']]);
    let s = Strands::new("AB\r".to_string(), 1);
    assert_eq!(s.puzzle, vec![vec!['A', 'B', '\r']]);
    let s = Strands::new("\n".to_string(), 1);
    assert_eq!(s.puzzle, vec![Vec::<char>::new()]);
}

#[test]
fn valid_grid_is_rectangular_and_nonempty() {
    assert!(Strands::new("AB\nCD".to_string(), 1).is_valid_grid());
    assert!(!Strands::new("AB\nC".to_string(), 1).is_valid_grid());
    assert!(!Strands::new(String::new(), 1).is_valid_grid());
    assert!(Strands::new("ABC".to_string(), 1).is_valid_grid());
}
