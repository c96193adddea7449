use std::collections::HashMap;

use strands::{Candidates, Strands, Trie};

fn as_map(c: &Candidates) -> HashMap<String, Vec<(isize, isize)>> {
    let mut m = HashMap::new();
    for (w, p) in c.entries.iter() {
        m.insert(w.clone(), p.clone());
    }
    m
}

#[test]
fn test_strands_new() {
    let inputstr = "AB\nCD";
    let strands = Strands::new(inputstr.to_string(), 1);
    let good = Strands { puzzle: vec![vec!['A', 'B'], vec!['C', 'D']], num_answers: 1 };
    assert_eq!(strands, good);
}

#[test]
fn test_recurse_find_words_1() {
    let strands = Strands::new("C".to_string(), 1);
    let mut trie = Trie::new();
    trie.insert("C".to_string());

    let good: HashMap<String, Vec<(isize, isize)>> =
        HashMap::from([("C".to_string(), vec![(0 as isize, 0 as isize)])]);
    let mut visited = vec![vec![false]];
    let mut guess_word = String::new();
    let guess_coords = &mut vec![];
    let mut result = Candidates::new();
    Strands::recurse_find_words(
        &strands.puzzle,
        &trie,
        (0, 0),
        &mut visited,
        &mut guess_word,
        guess_coords,
        &mut result,
    );
    assert_eq!(as_map(&result), good)
}

#[test]
fn test_recurse_find_words_2() {
    let strands = Strands::new("CA".to_string(), 1);
    let mut trie = Trie::new();
    trie.insert("CA".to_string());
    let good: HashMap<String, Vec<(isize, isize)>> = HashMap::from([(
        "CA".to_string(),
        vec![(0 as isize, 0 as isize), (0 as isize, 1 as isize)],
    )]);
    let mut visited = vec![vec![false; 2]];
    let mut guess_words = String::new();
    let guess_coords = &mut vec![];
    let mut result = Candidates::new();
    Strands::recurse_find_words(
        &strands.puzzle,
        &trie,
        (0, 0),
        &mut visited,
        &mut guess_words,
        guess_coords,
        &mut result,
    );

    assert_eq!(as_map(&result), good)
}

#[test]
fn test_recurse_find_words_3() {
    let strands = Strands::new("CA\nTS".to_string(), 1);
    let mut trie = Trie::new();
    trie.insert("CAT".to_string());
    trie.insert("CATS".to_string());
    let mut good: HashMap<String, Vec<(isize, isize)>> = HashMap::new();
    good.insert(
        "CAT".to_string(),
        vec![(0 as isize, 0 as isize), (0 as isize, 1 as isize), (1 as isize, 0 as isize)],
    );
    good.insert(
        "CATS".to_string(),
        vec![
            (0 as isize, 0 as isize),
            (0 as isize, 1 as isize),
            (1 as isize, 0 as isize),
            (1 as isize, 1 as isize),
        ],
    );
    let mut visited = vec![vec![false; 2]; 2];
    let mut guess_words = String::new();
    let guess_coords = &mut vec![];
    let mut result = Candidates::new();
    Strands::recurse_find_words(
        &strands.puzzle,
        &trie,
        (0, 0),
        &mut visited,
        &mut guess_words,
        guess_coords,
        &mut result,
    );
    assert_eq!(as_map(&result), good)
}

#[test]
fn test_recurse_find_words_4() {
    let strands = Strands::new("CA\nTD".to_string(), 1);
    let mut trie = Trie::new();
    trie.insert("CAT".to_string());
    let mut good: HashMap<String, Vec<(isize, isize)>> = HashMap::new();
    good.insert(
        "CAT".to_string(),
        vec![(0 as isize, 0 as isize), (0 as isize, 1 as isize), (1 as isize, 0 as isize)],
    );
    let mut visited = vec![vec![false; 2]; 2];
    let mut guess_words = String::new();
    let guess_coords = &mut vec![];
    let mut result = Candidates::new();
    Strands::recurse_find_words(
        &strands.puzzle,
        &trie,
        (0, 0),
        &mut visited,
        &mut guess_words,
        guess_coords,
        &mut result,
    );
    assert_eq!(as_map(&result), good)
}

#[test]
fn test_find_overlap_1() {
    let mut candidates = Candidates::new();
    candidates.insert("A".to_string(), vec![(0, 0)]);
    let a = "A".to_string();
    let b = "A".to_string();
    assert!(Strands::has_overlap(&candidates, &a, &b))
}

#[test]
fn test_find_overlap_2() {
    let mut candidates = Candidates::new();
    candidates.insert("ABC".to_string(), vec![(0, 0), (0, 1), (1, 0)]);
    candidates.insert("BCD".to_string(), vec![(0, 1), (1, 0), (1, 1)]);
    let a = "ABC".to_string();
    let b = "BCD".to_string();
    assert!(Strands::has_overlap(&candidates, &a, &b))
}

#[test]
fn test_find_overlap_3() {
    let mut candidates = Candidates::new();
    candidates.insert(
        "ABCDEFG".to_string(),
        vec![(0, 0), (0, 1), (0, 2), (1, 0), (1, 1), (1, 2), (2, 0), (2, 1), (2, 2)],
    );
    candidates.insert("D".to_string(), vec![(1, 1)]);
    let a = "ABCDEFG".to_string();
    let b = "D".to_string();
    assert!(Strands::has_overlap(&candidates, &a, &b))
}

#[test]
fn test_recurse_find_solution_1() {
    let good = vec!["ABCD".to_string()];

    let strands = Strands::new("AB\nCD".to_string(), 1);
    let mut solution = Vec::new();
    let mut candidates = Candidates::new();
    candidates.insert("ABCD".to_string(), vec![(0, 0), (0, 1), (1, 0), (1, 1)]);
    let depth = 1;
    Strands::recurse_find_solution(&strands.puzzle, &mut solution, &candidates, strands.num_answers, depth);

    assert_eq!(solution, good);
}

#[test]
fn test_solve_1() {
    let strands = Strands::new("CAT\nDOG\nBEE".to_string(), 3);
    // CAT
    // DOG
    // BEE
    let mut trie = Trie::new();
    trie.insert("CAT".to_string());
    trie.insert("DOG".to_string());
    trie.insert("BEE".to_string());
    let mut good: HashMap<String, Vec<(isize, isize)>> = HashMap::new();
    good.insert(
        "CAT".to_string(),
        vec![(0 as isize, 0 as isize), (0 as isize, 1 as isize), (0 as isize, 2 as isize)],
    );
    good.insert(
        "DOG".to_string(),
        vec![(1 as isize, 0 as isize), (1 as isize, 1 as isize), (1 as isize, 2 as isize)],
    );
    good.insert(
        "BEE".to_string(),
        vec![(2 as isize, 0 as isize), (2 as isize, 1 as isize), (2 as isize, 2 as isize)],
    );
    let result = strands.solve(&trie).unwrap();
    assert_eq!(as_map(&result), good)
}

#[test]
fn test_solve_2() {
    let strands = Strands::new("GFE\nHAD\nIBC".to_string(), 1);
    // GFE
    // HAD
    // IBC

    let mut trie = Trie::new();
    trie.insert("ABCDEFGHI".to_string());

    let mut good: HashMap<String, Vec<(isize, isize)>> = HashMap::new();
    good.insert(
        "ABCDEFGHI".to_string(),
        vec![
            (1 as isize, 1 as isize),
            (2 as isize, 1 as isize),
            (2 as isize, 2 as isize),
            (1 as isize, 2 as isize),
            (0 as isize, 2 as isize),
            (0 as isize, 1 as isize),
            (0 as isize, 0 as isize),
            (1 as isize, 0 as isize),
            (2 as isize, 0 as isize),
        ],
    );
    assert_eq!(strands.solve(&trie).map(|c| as_map(&c)), Some(good));
}

#[test]
fn test_solve_3() {
    //CAT
    //DOG
    //EES
    let strands = Strands::new("CAT\nDOG\nEES".to_string(), 3);
    let mut trie = Trie::new();
    trie.insert("CAT".to_string());
    trie.insert("DOG".to_string());
    trie.insert("SEE".to_string());
    trie.insert("DOGS".to_string());
    let mut good: HashMap<String, Vec<(isize, isize)>> = HashMap::new();
    good.insert(
        "CAT".to_string(),
        vec![(0 as isize, 0 as isize), (0 as isize, 1 as isize), (0 as isize, 2 as isize)],
    );
    good.insert(
        "DOG".to_string(),
        vec![(1 as isize, 0 as isize), (1 as isize, 1 as isize), (1 as isize, 2 as isize)],
    );
    good.insert(
        "SEE".to_string(),
        vec![(2 as isize, 2 as isize), (2 as isize, 1 as isize), (2 as isize, 0 as isize)],
    );
    let result = strands.solve(&trie).unwrap();
    assert_eq!(as_map(&result), good)
}
