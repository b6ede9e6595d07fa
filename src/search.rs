//! The path search: a depth-first walk over the grid that extends a path one
//! adjacent cell at a time and abandons every path whose letters begin no word.
use crate::grid::{cell_at, grid_wf, Letter, SIZE};
use crate::laws::{
    is_word_path, lemma_found_paths_are_words, lemma_found_paths_distinct,
    lemma_too_long_finds_nothing, lemma_word_paths_found_once,
};
use crate::lexicon::{has_prefix, is_viable, is_word, trie_exact_match, trie_words, word_of};
use trie_rs::Trie;
use vstd::prelude::*;

verus! {

/// The row step of direction `k`: up, down, left, right, up-right,
/// down-right, down-left, up-left.
pub open spec fn dir_row(k: int) -> int {
    if k == 0 || k == 4 || k == 7 {
        -1
    } else if k == 2 || k == 3 {
        0
    } else {
        1
    }
}

/// The column step of direction `k` (same order as `dir_row`).
pub open spec fn dir_col(k: int) -> int {
    if k == 0 || k == 1 {
        0
    } else if k == 3 || k == 4 || k == 5 {
        1
    } else {
        -1
    }
}

/// The row and column steps of direction `k`.
fn direction(k: usize) -> (r: (i32, i32))
    requires
        k < 8,
    ensures
        r.0 == dir_row(k as int),
        r.1 == dir_col(k as int),
{
    if k == 0 {
        (-1, 0)
    } else if k == 1 {
        (1, 0)
    } else if k == 2 {
        (0, -1)
    } else if k == 3 {
        (0, 1)
    } else if k == 4 {
        (-1, 1)
    } else if k == 5 {
        (1, 1)
    } else if k == 6 {
        (1, -1)
    } else {
        (-1, -1)
    }
}

/// `(row, col)` lies on the grid.
pub open spec fn in_grid(row: int, col: int) -> bool {
    0 <= row < SIZE && 0 <= col < SIZE
}

/// The position of cell `(row, col)` in the row-major visited mask.
pub open spec fn mask_index(row: int, col: int) -> int {
    row * SIZE + col
}

/// Some cell of `p` has coordinates `(row, col)`.
pub open spec fn on_path(p: Seq<Letter>, row: int, col: int) -> bool {
    exists|i: int| 0 <= i < p.len() && p[i].row == row && p[i].col == col
}

/// The paths that the search records when it steps onto `(row, col)` with
/// `path` already walked, in the order in which it records them.
pub open spec fn search_from(
    g: Seq<Vec<Letter>>,
    words: Set<Seq<u8>>,
    row: int,
    col: int,
    path: Seq<Letter>,
    n: nat,
    prune: bool,
) -> Seq<Seq<Letter>>
    decreases n - path.len(), 9int,
{
    if !in_grid(row, col) || on_path(path, row, col) {
        seq![]
    } else {
        let next = path.push(cell_at(g, row, col));
        if next.len() > n {
            seq![]
        } else if next.len() == n {
            if is_word(words, word_of(next)) {
                seq![next]
            } else {
                seq![]
            }
        } else if prune && !is_viable(words, word_of(next)) {
            seq![]
        } else {
            search_dirs(g, words, row, col, next, n, 0, prune)
        }
    }
}

/// The paths recorded from the neighbours of `(row, col)` in directions
/// `k` to 7, `path` ending at `(row, col)`.
pub open spec fn search_dirs(
    g: Seq<Vec<Letter>>,
    words: Set<Seq<u8>>,
    row: int,
    col: int,
    path: Seq<Letter>,
    n: nat,
    k: int,
    prune: bool,
) -> Seq<Seq<Letter>>
    decreases n - path.len() + 1, 8 - k,
{
    if k < 0 || k >= 8 || path.len() >= n {
        seq![]
    } else {
        search_from(g, words, row + dir_row(k), col + dir_col(k), path, n, prune)
            + search_dirs(g, words, row, col, path, n, k + 1, prune)
    }
}

/// The paths recorded from the start cells `s` to 24, taken row by row.
pub open spec fn search_starts(
    g: Seq<Vec<Letter>>,
    words: Set<Seq<u8>>,
    n: nat,
    s: int,
    prune: bool,
) -> Seq<Seq<Letter>>
    decreases SIZE * SIZE - s,
{
    if s < 0 || s >= SIZE * SIZE {
        seq![]
    } else {
        search_from(g, words, s / (SIZE as int), s % (SIZE as int), seq![], n, prune)
            + search_starts(g, words, n, s + 1, prune)
    }
}

/// The paths recorded by the search over all start cells; `prune` says
/// whether it abandons paths whose letters begin no word.
pub open spec fn find_all_with(g: Seq<Vec<Letter>>, words: Set<Seq<u8>>, n: nat, prune: bool) -> Seq<
    Seq<Letter>,
> {
    search_starts(g, words, n, 0, prune)
}

/// Every path of `n` cells spelling a word of `words`, in the order of the
/// pruned search.
pub open spec fn find_all(g: Seq<Vec<Letter>>, words: Set<Seq<u8>>, n: nat) -> Seq<Seq<Letter>> {
    find_all_with(g, words, n, true)
}

/// The cells of each recorded path.
pub open spec fn paths_of(v: Seq<Vec<Letter>>) -> Seq<Seq<Letter>> {
    v.map_values(|p: Vec<Letter>| p@)
}

/// The visited mask marks exactly the cells of `p`.
pub open spec fn mask_matches(mask: Seq<bool>, p: Seq<Letter>) -> bool {
    &&& mask.len() == SIZE * SIZE
    &&& forall|r: int, c: int|
        in_grid(r, c) ==> mask[#[trigger] mask_index(r, c)] == on_path(p, r, c)
}

proof fn lemma_on_path_push(p: Seq<Letter>, l: Letter, row: int, col: int)
    ensures
        on_path(p.push(l), row, col) == (on_path(p, row, col) || (l.row == row && l.col == col)),
{
    let q = p.push(l);
    if on_path(p, row, col) {
        let i = choose|i: int| 0 <= i < p.len() && p[i].row == row && p[i].col == col;
        assert(q[i] == p[i]);
    }
    if l.row == row && l.col == col {
        assert(q[p.len() as int] == l);
    }
    if on_path(q, row, col) && !(l.row == row && l.col == col) {
        let i = choose|i: int| 0 <= i < q.len() && q[i].row == row && q[i].col == col;
        assert(i < p.len());
        assert(q[i] == p[i]);
    }
}

/// A copy of the cells of `p`.
fn copy_path(p: &Vec<Letter>) -> (r: Vec<Letter>)
    ensures
        r@ == p@,
{
    let mut out: Vec<Letter> = Vec::new();
    let mut i: usize = 0;
    while i < p.len()
        invariant
            i <= p@.len(),
            out@ == p@.subrange(0, i as int),
        decreases p@.len() - i,
    {
        out.push(p[i]);
        i += 1;
    }
    assert(out@ == p@);
    out
}

/// Steps onto `(row, col)` after `combination`, records the paths of
/// `desired` cells found from there, and restores `visited` and
/// `combination` before it returns.
fn get_all_combinations(
    grid: &Vec<Vec<Letter>>,
    trie: &Trie<u8>,
    row: usize,
    col: usize,
    visited: &mut Vec<bool>,
    combination: &mut Vec<Letter>,
    all_combinations: &mut Vec<Vec<Letter>>,
    desired: usize,
)
    requires
        grid_wf(grid@),
        mask_matches(old(visited)@, old(combination)@),
    ensures
        final(visited)@ == old(visited)@,
        final(combination)@ == old(combination)@,
        paths_of(final(all_combinations)@) == paths_of(old(all_combinations)@) + search_from(
            grid@,
            trie_words(*trie),
            row as int,
            col as int,
            old(combination)@,
            desired as nat,
            true,
        ),
    decreases desired - old(combination)@.len(),
{
    let ghost words = trie_words(*trie);
    let ghost g = grid@;
    let ghost path = combination@;
    let ghost n = desired as nat;
    if row >= SIZE || col >= SIZE {
        assert(paths_of(all_combinations@) =~= paths_of(all_combinations@) + seq![]);
        return ;
    }
    let idx = row * SIZE + col;
    assert(mask_index(row as int, col as int) == idx);
    if visited[idx] {
        assert(paths_of(all_combinations@) =~= paths_of(all_combinations@) + seq![]);
        return ;
    }
    let cell = grid[row][col];
    assert(cell == cell_at(g, row as int, col as int));
    visited.set(idx, true);
    combination.push(cell);
    let ghost next = combination@;
    let ghost mid = visited@;
    assert(next == path.push(cell));
    assert forall|r: int, c: int| in_grid(r, c) implies visited@[#[trigger] mask_index(r, c)]
        == on_path(next, r, c) by {
        lemma_on_path_push(path, cell, r, c);
    }
    let len = combination.len();
    if len > desired {
        visited.set(idx, false);
        combination.pop();
        assert(visited@ =~= old(visited)@);
        assert(combination@ =~= path);
        assert(paths_of(all_combinations@) =~= paths_of(all_combinations@) + seq![]);
        return ;
    } else if len == desired {
        if trie_exact_match(trie, combination) {
            let ghost before = all_combinations@;
            let copy = copy_path(combination);
            all_combinations.push(copy);
            assert(paths_of(all_combinations@) =~= paths_of(before) + seq![next]);
        } else {
            assert(paths_of(all_combinations@) =~= paths_of(all_combinations@) + seq![]);
        }
    } else {
        if !has_prefix(trie, combination) {
            visited.set(idx, false);
            combination.pop();
            assert(visited@ =~= old(visited)@);
            assert(combination@ =~= path);
            assert(paths_of(all_combinations@) =~= paths_of(all_combinations@) + seq![]);
            return ;
        }
        let ghost start = paths_of(all_combinations@);
        let mut k: usize = 0;
        while k < 8
            invariant
                grid@ == g,
                trie_words(*trie) == words,
                grid_wf(g),
                row < SIZE,
                col < SIZE,
                k <= 8,
                combination@ == next,
                next.len() == path.len() + 1,
                path == old(combination)@,
                visited@ == mid,
                next.len() < n,
                desired == n,
                mask_matches(visited@, next),
                paths_of(all_combinations@) + search_dirs(
                    g,
                    words,
                    row as int,
                    col as int,
                    next,
                    n,
                    k as int,
                    true,
            ) == start + search_dirs(g, words, row as int, col as int, next, n, 0, true),
            decreases 8 - k,
        {
            let (dr, dc) = direction(k);
            let r = row as i32 + dr;
            let c = col as i32 + dc;
            let ghost before = paths_of(all_combinations@);
            let ghost rest = search_dirs(g, words, row as int, col as int, next, n, k as int + 1, true);
            if r < 0 || r as usize >= SIZE || c < 0 || c as usize >= SIZE {
                assert(search_from(g, words, r as int, c as int, next, n, true) == Seq::<Seq<Letter>>::empty());
                assert(search_dirs(g, words, row as int, col as int, next, n, k as int, true) =~= rest);
            } else {
                get_all_combinations(
                    grid,
                    trie,
                    r as usize,
                    c as usize,
                    visited,
                    combination,
                    all_combinations,
                    desired,
                );
                let ghost sub = search_from(g, words, r as int, c as int, next, n, true);
                assert(search_dirs(g, words, row as int, col as int, next, n, k as int, true) == sub + rest);
                assert(before + (sub + rest) =~= (before + sub) + rest);
            }
            k += 1;
        }
        assert(search_dirs(g, words, row as int, col as int, next, n, 8, true) == Seq::<Seq<Letter>>::empty());
        assert(paths_of(all_combinations@) =~= paths_of(all_combinations@) + Seq::<Seq<Letter>>::empty());
    }
    visited.set(idx, false);
    combination.pop();
    assert(visited@ =~= old(visited)@);
    assert(combination@ =~= path);
}

proof fn lemma_result_facts(g: Seq<Vec<Letter>>, words: Set<Seq<u8>>, n: nat, r: Seq<Vec<Letter>>)
    requires
        grid_wf(g),
        paths_of(r) == find_all(g, words, n),
    ensures
        forall|i: int| 0 <= i < r.len() ==> is_word_path(g, words, #[trigger] r[i]@, n),
        forall|q: Seq<Letter>|
            is_word_path(g, words, q, n) && (n > 0 || !words.contains(Seq::<u8>::empty()))
                ==> exists|i: int| 0 <= i < r.len() && r[i]@ == q,
        paths_of(r).no_duplicates(),
{
    let found = find_all(g, words, n);
    lemma_found_paths_are_words(g, words, n);
    lemma_found_paths_distinct(g, words, n);
    assert forall|i: int| 0 <= i < r.len() implies is_word_path(g, words, #[trigger] r[i]@, n) by {
        assert(paths_of(r)[i] == r[i]@);
        assert(is_word_path(g, words, found[i], n));
    }
    assert forall|q: Seq<Letter>|
        is_word_path(g, words, q, n) && (n > 0 || !words.contains(Seq::<u8>::empty())) implies exists|
        i: int,
    | 0 <= i < r.len() && r[i]@ == q by {
        lemma_word_paths_found_once(g, words, q, n);
        let i = choose|i: int| 0 <= i < found.len() && found[i] == q;
        assert(paths_of(r)[i] == r[i]@);
    }
}

/// Every path of `n` adjacent, pairwise distinct cells of `grid` whose
/// letters spell a word of `word_list`, taken by start cell row by row and
/// then by direction in the order up, down, left, right, up-right,
/// down-right, down-left, up-left.
pub fn get_combos(grid: &Vec<Vec<Letter>>, word_list: &Trie<u8>, n: usize) -> (r: Vec<
    Vec<Letter>,
>)
    requires
        grid_wf(grid@),
    ensures
        paths_of(r@) == find_all(grid@, trie_words(*word_list), n as nat),
        forall|i: int|
            0 <= i < r@.len() ==> is_word_path(
                grid@,
                trie_words(*word_list),
                #[trigger] r@[i]@,
                n as nat,
            ),
        forall|q: Seq<Letter>|
            is_word_path(grid@, trie_words(*word_list), q, n as nat) && (n > 0 || !trie_words(
                *word_list,
            ).contains(Seq::<u8>::empty())) ==> exists|i: int| 0 <= i < r@.len() && r@[i]@ == q,
        paths_of(r@).no_duplicates(),
{
    let ghost words = trie_words(*word_list);
    let mut all_combos: Vec<Vec<Letter>> = Vec::new();
    if n > SIZE * SIZE {
        proof {
            lemma_too_long_finds_nothing(grid@, words, n as nat);
        }
        assert(paths_of(all_combos@) =~= find_all(grid@, words, n as nat));
        proof {
            lemma_result_facts(grid@, words, n as nat, all_combos@);
        }
        return all_combos;
    }
    let mut combos: Vec<Letter> = Vec::new();
    let mut visited: Vec<bool> = Vec::new();
    let mut i: usize = 0;
    while i < SIZE * SIZE
        invariant
            i <= SIZE * SIZE,
            visited@.len() == i,
            forall|j: int| 0 <= j < i ==> !(#[trigger] visited@[j]),
        decreases SIZE * SIZE - i,
    {
        visited.push(false);
        i += 1;
    }
    assert(mask_matches(visited@, combos@));
    let mut row: usize = 0;
    while row < SIZE
        invariant
            row <= SIZE,
            grid_wf(grid@),
            trie_words(*word_list) == words,
            combos@ == Seq::<Letter>::empty(),
            mask_matches(visited@, combos@),
            paths_of(all_combos@) + search_starts(grid@, words, n as nat, (row * SIZE) as int, true)
                == find_all(grid@, words, n as nat),
        decreases SIZE - row,
    {
        let mut col: usize = 0;
        while col < SIZE
            invariant
                row < SIZE,
                col <= SIZE,
                grid_wf(grid@),
                trie_words(*word_list) == words,
                combos@ == Seq::<Letter>::empty(),
                mask_matches(visited@, combos@),
                paths_of(all_combos@) + search_starts(
                    grid@,
                    words,
                    n as nat,
                    (row * SIZE + col) as int,
                    true,
            ) == find_all(grid@, words, n as nat),
            decreases SIZE - col,
        {
            let ghost s = (row * SIZE + col) as int;
            let ghost before = paths_of(all_combos@);
            assert(s / (SIZE as int) == row as int && s % (SIZE as int) == col as int);
            get_all_combinations(
                grid,
                word_list,
                row,
                col,
                &mut visited,
                &mut combos,
                &mut all_combos,
                n,
            );
            let ghost sub = search_from(grid@, words, row as int, col as int, seq![], n as nat, true);
            assert(search_starts(grid@, words, n as nat, s, true) == sub + search_starts(
                grid@,
                words,
                n as nat,
                s + 1,
                true,
            ));
            assert(before + (sub + search_starts(grid@, words, n as nat, s + 1, true)) =~= (before + sub)
                + search_starts(grid@, words, n as nat, s + 1, true));
            col += 1;
        }
        row += 1;
    }
    assert(search_starts(grid@, words, n as nat, 25, true) == Seq::<Seq<Letter>>::empty());
    assert(paths_of(all_combos@) =~= paths_of(all_combos@) + Seq::<Seq<Letter>>::empty());
    proof {
        lemma_result_facts(grid@, words, n as nat, all_combos@);
    }
    all_combos
}

} // verus!
