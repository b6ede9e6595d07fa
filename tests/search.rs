use scf::{generate_grid, get_combos, GridError, Letter, SIZE};
use trie_rs::{Trie, TrieBuilder};

// Words are pushed in sorted order: the trie marks a word that is a prefix of
// one pushed before it only if it comes first.
fn lexicon(words: &[&str]) -> Trie<u8> {
    let mut sorted = words.to_vec();
    sorted.sort();
    let mut builder = TrieBuilder::new();
    for w in sorted {
        builder.push(w);
    }
    builder.build()
}

fn spell(path: &Vec<Letter>) -> String {
    path.iter().map(|l| l.get_letter()).collect()
}

fn adjacent(a: &Letter, b: &Letter) -> bool {
    let (ar, ac) = a.get_id();
    let (br, bc) = b.get_id();
    (ar, ac) != (br, bc) && ar.abs_diff(br) <= 1 && ac.abs_diff(bc) <= 1
}

fn is_valid(path: &Vec<Letter>, words: &[&str], n: usize) -> bool {
    if path.len() != n {
        return false;
    }
    for i in 0..path.len() {
        for j in i + 1..path.len() {
            if path[i].get_id() == path[j].get_id() {
                return false;
            }
        }
        if i + 1 < path.len() && !adjacent(&path[i], &path[i + 1]) {
            return false;
        }
    }
    words.contains(&spell(path).as_str())
}

// Enumerates every path of n distinct adjacent cells, with no pruning.
fn brute_force(grid: &Vec<Vec<Letter>>, words: &[&str], n: usize) -> Vec<Vec<Letter>> {
    fn walk(
        grid: &Vec<Vec<Letter>>,
        words: &[&str],
        n: usize,
        path: &mut Vec<Letter>,
        out: &mut Vec<Vec<Letter>>,
    ) {
        if path.len() == n {
            if words.contains(&spell(path).as_str()) {
                out.push(path.clone());
            }
            return;
        }
        for r in 0..SIZE {
            for c in 0..SIZE {
                let cell = grid[r][c];
                if path.iter().any(|l| l.get_id() == (r, c)) {
                    continue;
                }
                if let Some(last) = path.last() {
                    if !adjacent(last, &cell) {
                        continue;
                    }
                }
                path.push(cell);
                walk(grid, words, n, path, out);
                path.pop();
            }
        }
    }
    let mut out = vec![];
    if n > 0 {
        walk(grid, words, n, &mut vec![], &mut out);
    }
    out
}

fn grid_of(s: &str) -> Vec<Vec<Letter>> {
    generate_grid(&s.to_string()).unwrap()
}

const SAMPLE: &str = "catsxdogaxratexbeeskpiety";

#[test]
fn grid_rejects_short_input() {
    assert_eq!(generate_grid(&"abcdefghijklmnopqrstuvwx".to_string()), Err(GridError::InvalidGridInput));
}

#[test]
fn grid_rejects_long_input() {
    assert_eq!(generate_grid(&"abcdefghijklmnopqrstuvwxyz".to_string()), Err(GridError::InvalidGridInput));
}

#[test]
fn grid_rejects_empty_input() {
    assert_eq!(generate_grid(&String::new()), Err(GridError::InvalidGridInput));
}

#[test]
fn grid_counts_characters_not_bytes() {
    let g = generate_grid(&"éabcdefghijklmnopqrstuvwx".to_string()).unwrap();
    assert_eq!(g[0][0].get_letter(), 'é');
    assert_eq!(g[4][4].get_letter(), 'x');
}

#[test]
fn grid_lowercases_and_labels_cells() {
    let g = grid_of("ABCDEfghijKLMNOpqrstUVWXY");
    assert_eq!(g.len(), SIZE);
    let expected: Vec<char> = "abcdefghijklmnopqrstuvwxy".chars().collect();
    for r in 0..SIZE {
        assert_eq!(g[r].len(), SIZE);
        for c in 0..SIZE {
            assert_eq!(g[r][c].get_id(), (r, c));
            assert_eq!(g[r][c].get_letter(), expected[r * SIZE + c]);
        }
    }
}

#[test]
fn finds_words_with_cells_in_order() {
    let g = grid_of(SAMPLE);
    let t = lexicon(&["cat", "dog", "tag"]);
    let found = get_combos(&g, &t, 3);
    let spelled: Vec<String> = found.iter().map(spell).collect();
    assert!(spelled.contains(&"cat".to_string()));
    assert!(spelled.contains(&"dog".to_string()));
    let cat = found.iter().find(|p| spell(p) == "cat").unwrap();
    let ids: Vec<(usize, usize)> = cat.iter().map(|l| l.get_id()).collect();
    assert_eq!(ids, vec![(0, 0), (0, 1), (0, 2)]);
}

#[test]
fn every_result_is_a_valid_path() {
    let g = grid_of(SAMPLE);
    let words = ["cat", "cats", "dog", "rat", "rate", "bee", "bees", "pie", "tea", "eat", "at", "ox"];
    let t = lexicon(&words);
    for n in 1..7 {
        for p in get_combos(&g, &t, n) {
            assert!(is_valid(&p, &words, n));
        }
    }
}

#[test]
fn matches_unpruned_enumeration() {
    let g = grid_of(SAMPLE);
    let words = ["cat", "cats", "dog", "rat", "rate", "bee", "bees", "pie", "tea", "eat", "at", "ox", "a"];
    let t = lexicon(&words);
    for n in 0..6 {
        let mut found = get_combos(&g, &t, n);
        let mut expected = brute_force(&g, &words, n);
        let key = |p: &Vec<Letter>| p.iter().map(|l| l.get_id()).collect::<Vec<_>>();
        found.sort_by_key(key);
        expected.sort_by_key(key);
        assert_eq!(found, expected);
    }
}

#[test]
fn results_have_no_duplicates() {
    let g = grid_of("eeeeeeeeeeeeeeeeeeeeeeeee");
    let t = lexicon(&["eee"]);
    let found = get_combos(&g, &t, 3);
    for i in 0..found.len() {
        for j in i + 1..found.len() {
            assert_ne!(found[i], found[j]);
        }
    }
    assert_eq!(found.len(), brute_force(&g, &["eee"], 3).len());
}

#[test]
fn repeated_search_gives_same_sequence() {
    let g = grid_of(SAMPLE);
    let t = lexicon(&["cat", "dog", "rat", "tea", "eat", "bee"]);
    assert_eq!(get_combos(&g, &t, 3), get_combos(&g, &t, 3));
}

#[test]
fn order_follows_start_cells_then_directions() {
    let g = grid_of("aaaaaaaaaaaaaaaaaaaaaaaaa");
    let t = lexicon(&["aa"]);
    let found = get_combos(&g, &t, 2);
    let first: Vec<Vec<(usize, usize)>> =
        found.iter().take(3).map(|p| p.iter().map(|l| l.get_id()).collect()).collect();
    // From (0, 0): down, right, down-right.
    assert_eq!(first, vec![vec![(0, 0), (1, 0)], vec![(0, 0), (0, 1)], vec![(0, 0), (1, 1)]]);
    let centre: Vec<(usize, usize)> = found
        .iter()
        .filter(|p| p[0].get_id() == (2, 2))
        .map(|p| p[1].get_id())
        .collect();
    // Up, down, left, right, then up-right, down-right, down-left, up-left.
    assert_eq!(centre, vec![(1, 2), (3, 2), (2, 1), (2, 3), (1, 3), (3, 3), (3, 1), (1, 1)]);
}

#[test]
fn bee_scenario_grid() {
    let g = grid_of("abcdeefghijklmnopqrstuvwx");
    let t = lexicon(&["bee"]);
    let found = get_combos(&g, &t, 3);
    for p in &found {
        assert_eq!(spell(p), "bee");
    }
    // The two 'e' cells, (0, 4) and (1, 0), are not adjacent.
    assert!(found.is_empty());
}

#[test]
fn bee_found_where_cells_touch() {
    let g = grid_of("beexxxxxxxxxxxxxxxxxxxxxx");
    let t = lexicon(&["bee"]);
    let found = get_combos(&g, &t, 3);
    assert_eq!(found.len(), 1);
    let ids: Vec<(usize, usize)> = found[0].iter().map(|l| l.get_id()).collect();
    assert_eq!(ids, vec![(0, 0), (0, 1), (0, 2)]);
}

#[test]
fn empty_lexicon_finds_nothing() {
    let g = grid_of(SAMPLE);
    let t = lexicon(&[]);
    for n in 0..30 {
        assert!(get_combos(&g, &t, n).is_empty());
    }
}

#[test]
fn length_beyond_grid_finds_nothing() {
    let g = grid_of(SAMPLE);
    let long: String = SAMPLE.chars().chain("a".chars()).collect();
    let t = lexicon(&[long.as_str(), "cat"]);
    assert!(get_combos(&g, &t, 26).is_empty());
    assert!(get_combos(&g, &t, 40).is_empty());
}

#[test]
fn zero_length_finds_nothing() {
    let g = grid_of(SAMPLE);
    let t = lexicon(&["cat"]);
    assert!(get_combos(&g, &t, 0).is_empty());
}

#[test]
fn single_letter_words() {
    let g = grid_of(SAMPLE);
    let t = lexicon(&["a"]);
    let found = get_combos(&g, &t, 1);
    let ids: Vec<(usize, usize)> = found.iter().map(|p| p[0].get_id()).collect();
    assert_eq!(ids, vec![(0, 1), (1, 3), (2, 1)]);
}

#[test]
fn search_is_case_sensitive_on_lexicon() {
    let g = grid_of("CATSXDOGAXRATEXBEESKPIETY");
    let t = lexicon(&["CAT"]);
    assert!(get_combos(&g, &t, 3).is_empty());
    let t = lexicon(&["cat"]);
    assert_eq!(get_combos(&g, &t, 3).len(), 1);
}

#[test]
fn length_beyond_grid_on_uniform_grid() {
    let g = grid_of("aaaaaaaaaaaaaaaaaaaaaaaaa");
    let long: String = std::iter::repeat('a').take(26).collect();
    let t = lexicon(&[long.as_str()]);
    assert!(get_combos(&g, &t, 26).is_empty());
}

#[test]
fn non_ascii_letters_are_matched() {
    let g = grid_of("ÉtéxxxxxxxxxxxxxxxxxxxxxX");
    let t = lexicon(&["été"]);
    let found = get_combos(&g, &t, 3);
    let ids: Vec<Vec<(usize, usize)>> =
        found.iter().map(|p| p.iter().map(|l| l.get_id()).collect()).collect();
    // Both 'é' cells start a path: (0, 0) first, then (0, 2).
    assert_eq!(ids, vec![vec![(0, 0), (0, 1), (0, 2)], vec![(0, 2), (0, 1), (0, 0)]]);
    assert_eq!(spell(&found[0]), "été");
}
