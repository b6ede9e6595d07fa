//! What holds of every search: each path found is a path of the grid that
//! spells a word, every such path is found exactly once, pruning changes
//! nothing that is found, and no path is longer than the grid.
use crate::grid::{cell_at, grid_wf, Letter, SIZE};
use crate::lexicon::{is_prefix, is_viable, is_word, utf8_char, utf8_of, word_of};
use crate::search::{
    dir_col, dir_row, find_all, find_all_with, in_grid, mask_index, on_path, search_dirs, search_from,
    search_starts,
};
use vstd::prelude::*;

verus! {

/// Two cells are distinct and touch at a side or a corner.
pub open spec fn adjacent(a: Letter, b: Letter) -> bool {
    &&& a.row != b.row || a.col != b.col
    &&& -1 <= a.row - b.row <= 1
    &&& -1 <= a.col - b.col <= 1
}

/// `p` is a walk over cells of `g`: no cell twice, each step to an adjacent
/// cell.
pub open spec fn is_grid_path(g: Seq<Vec<Letter>>, p: Seq<Letter>) -> bool {
    &&& forall|i: int|
        0 <= i < p.len() ==> in_grid(p[i].row as int, p[i].col as int) && #[trigger] p[i]
            == cell_at(g, p[i].row as int, p[i].col as int)
    &&& forall|i: int, j: int|
        0 <= i < j < p.len() ==> (#[trigger] p[i]).row != (#[trigger] p[j]).row || p[i].col
            != p[j].col
    &&& forall|i: int| 0 <= i < p.len() - 1 ==> adjacent(#[trigger] p[i], p[i + 1])
}

/// `p` is a walk of `n` cells of `g` whose letters spell a word of `words`.
pub open spec fn is_word_path(g: Seq<Vec<Letter>>, words: Set<Seq<u8>>, p: Seq<Letter>, n: nat) -> bool {
    &&& p.len() == n
    &&& is_grid_path(g, p)
    &&& is_word(words, word_of(p))
}

/// `(row, col)` is within one row and one column of the last cell of `path`,
/// if it has one.
pub open spec fn can_step(path: Seq<Letter>, row: int, col: int) -> bool {
    path.len() > 0 ==> (-1 <= row - path.last().row <= 1 && -1 <= col - path.last().col <= 1)
}

proof fn lemma_step_grid_path(g: Seq<Vec<Letter>>, path: Seq<Letter>, row: int, col: int)
    requires
        grid_wf(g),
        is_grid_path(g, path),
        can_step(path, row, col),
        in_grid(row, col),
        !on_path(path, row, col),
    ensures
        is_grid_path(g, path.push(cell_at(g, row, col))),
{
    let next = path.push(cell_at(g, row, col));
    let l = cell_at(g, row, col);
    assert(l.row == row && l.col == col);
    assert forall|i: int| 0 <= i < next.len() implies in_grid(next[i].row as int, next[i].col as int)
        && #[trigger] next[i] == cell_at(g, next[i].row as int, next[i].col as int) by {
        if i < path.len() {
            assert(next[i] == path[i]);
        }
    }
    assert forall|i: int, j: int| 0 <= i < j < next.len() implies (#[trigger] next[i]).row != (
    #[trigger] next[j]).row || next[i].col != next[j].col by {
        if j < path.len() {
            assert(next[i] == path[i] && next[j] == path[j]);
        } else {
            assert(next[i] == path[i]);
            if path[i].row == row && path[i].col == col {
                assert(on_path(path, row, col));
            }
        }
    }
    assert forall|i: int| 0 <= i < next.len() - 1 implies adjacent(#[trigger] next[i], next[i + 1]) by {
        assert(next[i] == path[i]);
        if i + 1 < path.len() {
            assert(next[i + 1] == path[i + 1]);
        } else {
            assert(path.last() == path[i]);
            if path[i].row == row && path[i].col == col {
                assert(on_path(path, row, col));
            }
        }
    }
}

/// The facts about each path recorded from `(row, col)` after `path`.
pub open spec fn found_from(
    g: Seq<Vec<Letter>>,
    words: Set<Seq<u8>>,
    q: Seq<Letter>,
    path: Seq<Letter>,
    n: nat,
) -> bool {
    &&& is_word_path(g, words, q, n)
    &&& q.len() > path.len()
    &&& q.subrange(0, path.len() as int) == path
}

proof fn lemma_from_sound(
    g: Seq<Vec<Letter>>,
    words: Set<Seq<u8>>,
    row: int,
    col: int,
    path: Seq<Letter>,
    n: nat,
    prune: bool,
)
    requires
        grid_wf(g),
        is_grid_path(g, path),
        can_step(path, row, col),
    ensures
        forall|i: int|
            0 <= i < search_from(g, words, row, col, path, n, prune).len() ==> {
                let q = #[trigger] search_from(g, words, row, col, path, n, prune)[i];
                found_from(g, words, q, path, n) && q[path.len() as int].row == row
                    && q[path.len() as int].col == col
            },
    decreases n - path.len(), 9int,
{
    let res = search_from(g, words, row, col, path, n, prune);
    if !in_grid(row, col) || on_path(path, row, col) {
    } else {
        let next = path.push(cell_at(g, row, col));
        lemma_step_grid_path(g, path, row, col);
        assert(next.subrange(0, path.len() as int) =~= path);
        assert(next[path.len() as int] == cell_at(g, row, col));
        if next.len() > n {
        } else if next.len() == n {
        } else if prune && !is_viable(words, word_of(next)) {
        } else {
            lemma_dirs_sound(g, words, row, col, next, n, 0, prune);
            assert(res == search_dirs(g, words, row, col, next, n, 0, prune));
            assert forall|i: int| 0 <= i < res.len() implies {
                let q = #[trigger] res[i];
                found_from(g, words, q, path, n) && q[path.len() as int].row == row
                    && q[path.len() as int].col == col
            } by {
                let q = res[i];
                assert(found_from(g, words, q, next, n));
                assert(q.subrange(0, path.len() as int) =~= next.subrange(0, path.len() as int));
                assert(q[path.len() as int] == q.subrange(0, next.len() as int)[path.len() as int]);
            }
        }
    }
}

proof fn lemma_dirs_sound(
    g: Seq<Vec<Letter>>,
    words: Set<Seq<u8>>,
    row: int,
    col: int,
    path: Seq<Letter>,
    n: nat,
    k: int,
    prune: bool,
)
    requires
        grid_wf(g),
        is_grid_path(g, path),
        path.len() > 0,
        path.last().row == row,
        path.last().col == col,
    ensures
        forall|i: int|
            0 <= i < search_dirs(g, words, row, col, path, n, k, prune).len() ==> {
                let q = #[trigger] search_dirs(g, words, row, col, path, n, k, prune)[i];
                found_from(g, words, q, path, n) && exists|d: int|
                    k <= d < 8 && q[path.len() as int].row == row + dir_row(d) && q[path.len() as int].col
                        == col + dir_col(d)
            },
    decreases n - path.len() + 1, 8 - k,
{
    if k < 0 || k >= 8 || path.len() >= n {
    } else {
        let a = search_from(g, words, row + dir_row(k), col + dir_col(k), path, n, prune);
        let b = search_dirs(g, words, row, col, path, n, k + 1, prune);
        lemma_from_sound(g, words, row + dir_row(k), col + dir_col(k), path, n, prune);
        lemma_dirs_sound(g, words, row, col, path, n, k + 1, prune);
        let res = a + b;
        assert forall|i: int| 0 <= i < res.len() implies {
            let q = #[trigger] res[i];
            found_from(g, words, q, path, n) && exists|d: int|
                k <= d < 8 && q[path.len() as int].row == row + dir_row(d) && q[path.len() as int].col
                    == col + dir_col(d)
        } by {
            if i < a.len() {
                assert(res[i] == a[i]);
            } else {
                assert(res[i] == b[i - a.len()]);
            }
        }
    }
}

proof fn lemma_starts_sound(g: Seq<Vec<Letter>>, words: Set<Seq<u8>>, n: nat, s: int, prune: bool)
    requires
        grid_wf(g),
    ensures
        forall|i: int|
            0 <= i < search_starts(g, words, n, s, prune).len() ==> {
                let q = #[trigger] search_starts(g, words, n, s, prune)[i];
                is_word_path(g, words, q, n) && s <= mask_index(q[0].row as int, q[0].col as int)
            },
    decreases SIZE * SIZE - s,
{
    if s < 0 || s >= SIZE * SIZE {
    } else {
        let a = search_from(g, words, s / (SIZE as int), s % (SIZE as int), seq![], n, prune);
        let b = search_starts(g, words, n, s + 1, prune);
        lemma_from_sound(g, words, s / (SIZE as int), s % (SIZE as int), seq![], n, prune);
        lemma_starts_sound(g, words, n, s + 1, prune);
        let res = a + b;
        assert forall|i: int| 0 <= i < res.len() implies {
            let q = #[trigger] res[i];
            is_word_path(g, words, q, n) && s <= mask_index(q[0].row as int, q[0].col as int)
        } by {
            if i < a.len() {
                assert(res[i] == a[i]);
                assert(found_from(g, words, a[i], seq![], n));
            } else {
                assert(res[i] == b[i - a.len()]);
            }
        }
    }
}

/// Every path that the search finds has `n` cells, visits no cell twice,
/// steps only between adjacent cells, and spells a word of the lexicon.
pub proof fn lemma_found_paths_are_words(g: Seq<Vec<Letter>>, words: Set<Seq<u8>>, n: nat)
    requires
        grid_wf(g),
    ensures
        forall|i: int|
            0 <= i < find_all(g, words, n).len() ==> is_word_path(
                g,
                words,
                #[trigger] find_all(g, words, n)[i],
                n,
            ),
{
    lemma_starts_sound(g, words, n, 0, true);
}

/// With an empty lexicon the search finds nothing, whatever the grid and the
/// length.
pub proof fn lemma_empty_lexicon_finds_nothing(g: Seq<Vec<Letter>>, n: nat)
    requires
        grid_wf(g),
    ensures
        find_all(g, Set::<Seq<u8>>::empty(), n).len() == 0,
{
    lemma_found_paths_are_words(g, Set::empty(), n);
    if find_all(g, Set::<Seq<u8>>::empty(), n).len() > 0 {
        assert(is_word_path(g, Set::empty(), find_all(g, Set::<Seq<u8>>::empty(), n)[0], n));
    }
}

proof fn lemma_concat_no_dup(a: Seq<Seq<Letter>>, b: Seq<Seq<Letter>>)
    requires
        a.no_duplicates(),
        b.no_duplicates(),
        forall|i: int, j: int| 0 <= i < a.len() && 0 <= j < b.len() ==> a[i] != b[j],
    ensures
        (a + b).no_duplicates(),
{
    let c = a + b;
    assert forall|i: int, j: int| 0 <= i < c.len() && 0 <= j < c.len() && i != j implies c[i]
        != c[j] by {
        if i < a.len() && j < a.len() {
            assert(c[i] == a[i] && c[j] == a[j]);
        } else if i < a.len() {
            assert(c[i] == a[i] && c[j] == b[j - a.len()]);
        } else if j < a.len() {
            assert(c[j] == a[j] && c[i] == b[i - a.len()]);
        } else {
            assert(c[i] == b[i - a.len()] && c[j] == b[j - a.len()]);
        }
    }
}

proof fn lemma_dirs_distinct(k: int, d: int)
    requires
        0 <= k < d < 8,
    ensures
        dir_row(k) != dir_row(d) || dir_col(k) != dir_col(d),
{
}

proof fn lemma_from_unique(
    g: Seq<Vec<Letter>>,
    words: Set<Seq<u8>>,
    row: int,
    col: int,
    path: Seq<Letter>,
    n: nat,
    prune: bool,
)
    requires
        grid_wf(g),
        is_grid_path(g, path),
        can_step(path, row, col),
    ensures
        search_from(g, words, row, col, path, n, prune).no_duplicates(),
    decreases n - path.len(), 9int,
{
    if !in_grid(row, col) || on_path(path, row, col) {
    } else {
        let next = path.push(cell_at(g, row, col));
        lemma_step_grid_path(g, path, row, col);
        if next.len() > n {
        } else if next.len() == n {
        } else if prune && !is_viable(words, word_of(next)) {
        } else {
            lemma_dirs_unique(g, words, row, col, next, n, 0, prune);
        }
    }
}

proof fn lemma_dirs_unique(
    g: Seq<Vec<Letter>>,
    words: Set<Seq<u8>>,
    row: int,
    col: int,
    path: Seq<Letter>,
    n: nat,
    k: int,
    prune: bool,
)
    requires
        grid_wf(g),
        is_grid_path(g, path),
        path.len() > 0,
        path.last().row == row,
        path.last().col == col,
    ensures
        search_dirs(g, words, row, col, path, n, k, prune).no_duplicates(),
    decreases n - path.len() + 1, 8 - k,
{
    if k < 0 || k >= 8 || path.len() >= n {
    } else {
        let a = search_from(g, words, row + dir_row(k), col + dir_col(k), path, n, prune);
        let b = search_dirs(g, words, row, col, path, n, k + 1, prune);
        lemma_from_unique(g, words, row + dir_row(k), col + dir_col(k), path, n, prune);
        lemma_dirs_unique(g, words, row, col, path, n, k + 1, prune);
        lemma_from_sound(g, words, row + dir_row(k), col + dir_col(k), path, n, prune);
        lemma_dirs_sound(g, words, row, col, path, n, k + 1, prune);
        assert forall|i: int, j: int| 0 <= i < a.len() && 0 <= j < b.len() implies a[i] != b[j] by {
            let q = b[j];
            let d = choose|d: int|
                k + 1 <= d < 8 && q[path.len() as int].row == row + dir_row(d)
                    && q[path.len() as int].col == col + dir_col(d);
            lemma_dirs_distinct(k, d);
            assert(a[i][path.len() as int].row == row + dir_row(k));
        }
        lemma_concat_no_dup(a, b);
    }
}

proof fn lemma_starts_unique(g: Seq<Vec<Letter>>, words: Set<Seq<u8>>, n: nat, s: int, prune: bool)
    requires
        grid_wf(g),
    ensures
        search_starts(g, words, n, s, prune).no_duplicates(),
    decreases SIZE * SIZE - s,
{
    if s < 0 || s >= SIZE * SIZE {
    } else {
        let a = search_from(g, words, s / (SIZE as int), s % (SIZE as int), seq![], n, prune);
        let b = search_starts(g, words, n, s + 1, prune);
        lemma_from_unique(g, words, s / (SIZE as int), s % (SIZE as int), seq![], n, prune);
        lemma_starts_unique(g, words, n, s + 1, prune);
        lemma_from_sound(g, words, s / (SIZE as int), s % (SIZE as int), seq![], n, prune);
        lemma_starts_sound(g, words, n, s + 1, prune);
        assert forall|i: int, j: int| 0 <= i < a.len() && 0 <= j < b.len() implies a[i] != b[j] by {
            assert(a[i][0].row == s / (SIZE as int) && a[i][0].col == s % (SIZE as int));
            assert(mask_index(a[i][0].row as int, a[i][0].col as int) == s);
            assert(s + 1 <= mask_index(b[j][0].row as int, b[j][0].col as int));
        }
        lemma_concat_no_dup(a, b);
    }
}

/// The search records no path twice.
pub proof fn lemma_found_paths_distinct(g: Seq<Vec<Letter>>, words: Set<Seq<u8>>, n: nat)
    requires
        grid_wf(g),
    ensures
        find_all(g, words, n).no_duplicates(),
{
    lemma_starts_unique(g, words, n, 0, true);
}

proof fn lemma_utf8_prefix(s: Seq<char>, i: int)
    requires
        0 <= i <= s.len(),
    ensures
        is_prefix(utf8_of(s.subrange(0, i)), utf8_of(s)),
    decreases s.len(),
{
    if i == s.len() {
        assert(s.subrange(0, i) =~= s);
        assert(utf8_of(s).subrange(0, utf8_of(s).len() as int) =~= utf8_of(s));
    } else {
        lemma_utf8_prefix(s.drop_last(), i);
        assert(s.drop_last().subrange(0, i) =~= s.subrange(0, i));
        let a = utf8_of(s.subrange(0, i));
        let b = utf8_of(s.drop_last());
        assert(utf8_of(s) == b + utf8_char(s.last()));
        assert((b + utf8_char(s.last())).subrange(0, a.len() as int) =~= b.subrange(
            0,
            a.len() as int,
        ));
    }
}

/// The direction index of the step `(dr, dc)`.
spec fn dir_of(dr: int, dc: int) -> int {
    if dr == -1 && dc == 0 {
        0
    } else if dr == 1 && dc == 0 {
        1
    } else if dr == 0 && dc == -1 {
        2
    } else if dr == 0 && dc == 1 {
        3
    } else if dr == -1 && dc == 1 {
        4
    } else if dr == 1 && dc == 1 {
        5
    } else if dr == 1 && dc == -1 {
        6
    } else {
        7
    }
}

proof fn lemma_dirs_contains(
    g: Seq<Vec<Letter>>,
    words: Set<Seq<u8>>,
    row: int,
    col: int,
    path: Seq<Letter>,
    n: nat,
    k: int,
    d: int,
    prune: bool,
    q: Seq<Letter>,
)
    requires
        0 <= k <= d < 8,
        path.len() < n,
        search_from(g, words, row + dir_row(d), col + dir_col(d), path, n, prune).contains(q),
    ensures
        search_dirs(g, words, row, col, path, n, k, prune).contains(q),
    decreases d - k,
{
    let a = search_from(g, words, row + dir_row(k), col + dir_col(k), path, n, prune);
    let b = search_dirs(g, words, row, col, path, n, k + 1, prune);
    assert(search_dirs(g, words, row, col, path, n, k, prune) == a + b);
    if k == d {
        let i = choose|i: int| 0 <= i < a.len() && a[i] == q;
        assert((a + b)[i] == q);
    } else {
        lemma_dirs_contains(g, words, row, col, path, n, k + 1, d, prune, q);
        let j = choose|j: int| 0 <= j < b.len() && b[j] == q;
        assert((a + b)[a.len() + j] == q);
    }
}

proof fn lemma_from_complete(
    g: Seq<Vec<Letter>>,
    words: Set<Seq<u8>>,
    q: Seq<Letter>,
    m: int,
    n: nat,
    prune: bool,
)
    requires
        grid_wf(g),
        is_word_path(g, words, q, n),
        0 <= m < n,
    ensures
        search_from(
            g,
            words,
            q[m].row as int,
            q[m].col as int,
            q.subrange(0, m),
            n,
            prune,
        ).contains(q),
    decreases n - m,
{
    let row = q[m].row as int;
    let col = q[m].col as int;
    let path = q.subrange(0, m);
    assert(q[m] == cell_at(g, row, col));
    if on_path(path, row, col) {
        let i = choose|i: int| 0 <= i < path.len() && path[i].row == row && path[i].col == col;
        assert(path[i] == q[i]);
    }
    let next = path.push(q[m]);
    assert(next =~= q.subrange(0, m + 1));
    let res = search_from(g, words, row, col, path, n, prune);
    if m + 1 == n {
        assert(next =~= q);
        assert(res == seq![q]);
        assert(res[0] == q);
    } else {
        let w = word_of(q);
        lemma_utf8_prefix(w, m + 1);
        assert(word_of(next) =~= w.subrange(0, m + 1));
        assert(words.contains(utf8_of(w)));
        assert(is_viable(words, word_of(next)));
        assert(res == search_dirs(g, words, row, col, next, n, 0, prune));
        assert(adjacent(q[m], q[m + 1]));
        let d = dir_of(q[m + 1].row - row, q[m + 1].col - col);
        assert(q[m + 1].row == row + dir_row(d) && q[m + 1].col == col + dir_col(d));
        lemma_from_complete(g, words, q, m + 1, n, prune);
        lemma_dirs_contains(g, words, row, col, next, n, 0, d, prune, q);
    }
}

proof fn lemma_starts_contains(
    g: Seq<Vec<Letter>>,
    words: Set<Seq<u8>>,
    n: nat,
    s: int,
    prune: bool,
    q: Seq<Letter>,
)
    requires
        q.len() > 0,
        in_grid(q[0].row as int, q[0].col as int),
        0 <= s <= mask_index(q[0].row as int, q[0].col as int),
        search_from(g, words, q[0].row as int, q[0].col as int, seq![], n, prune).contains(q),
    ensures
        search_starts(g, words, n, s, prune).contains(q),
    decreases SIZE * SIZE - s,
{
    let a = search_from(g, words, s / (SIZE as int), s % (SIZE as int), seq![], n, prune);
    let b = search_starts(g, words, n, s + 1, prune);
    assert(search_starts(g, words, n, s, prune) == a + b);
    if s == mask_index(q[0].row as int, q[0].col as int) {
        assert(s / (SIZE as int) == q[0].row && s % (SIZE as int) == q[0].col);
        let i = choose|i: int| 0 <= i < a.len() && a[i] == q;
        assert((a + b)[i] == q);
    } else {
        lemma_starts_contains(g, words, n, s + 1, prune, q);
        let j = choose|j: int| 0 <= j < b.len() && b[j] == q;
        assert((a + b)[a.len() + j] == q);
    }
}

/// Every walk of `n` cells of the grid whose letters spell a word of the
/// lexicon is found, and found once: the search records no path twice. The
/// walk of no cells is left out only where the lexicon holds the empty word.
pub proof fn lemma_word_paths_found_once(
    g: Seq<Vec<Letter>>,
    words: Set<Seq<u8>>,
    q: Seq<Letter>,
    n: nat,
)
    requires
        grid_wf(g),
        is_word_path(g, words, q, n),
        n > 0 || !words.contains(Seq::<u8>::empty()),
    ensures
        find_all(g, words, n).contains(q),
        find_all(g, words, n).no_duplicates(),
        forall|i: int, j: int|
            0 <= i < find_all(g, words, n).len() && 0 <= j < find_all(g, words, n).len()
                && find_all(g, words, n)[i] == q && find_all(g, words, n)[j] == q ==> i == j,
{
    if n == 0 {
        assert(word_of(q) =~= Seq::<char>::empty());
        assert(utf8_of(word_of(q)) =~= Seq::<u8>::empty());
    }
    lemma_from_complete(g, words, q, 0, n, true);
    assert(q.subrange(0, 0) =~= Seq::<Letter>::empty());
    lemma_starts_contains(g, words, n, 0, true, q);
    lemma_starts_unique(g, words, n, 0, true);
}

proof fn lemma_from_prune(
    g: Seq<Vec<Letter>>,
    words: Set<Seq<u8>>,
    row: int,
    col: int,
    path: Seq<Letter>,
    n: nat,
)
    requires
        grid_wf(g),
        is_grid_path(g, path),
        can_step(path, row, col),
    ensures
        search_from(g, words, row, col, path, n, true) == search_from(
            g,
            words,
            row,
            col,
            path,
            n,
            false,
        ),
    decreases n - path.len(), 9int,
{
    if !in_grid(row, col) || on_path(path, row, col) {
    } else {
        let next = path.push(cell_at(g, row, col));
        lemma_step_grid_path(g, path, row, col);
        if next.len() > n {
        } else if next.len() == n {
        } else if !is_viable(words, word_of(next)) {
            let rest = search_dirs(g, words, row, col, next, n, 0, false);
            assert(search_from(g, words, row, col, path, n, false) == rest);
            if rest.len() > 0 {
                lemma_dirs_sound(g, words, row, col, next, n, 0, false);
                let q = rest[0];
                assert(found_from(g, words, q, next, n));
                lemma_utf8_prefix(word_of(q), next.len() as int);
                assert(word_of(q).subrange(0, next.len() as int) =~= word_of(next));
                assert(words.contains(utf8_of(word_of(q))));
            }
            assert(rest =~= Seq::<Seq<Letter>>::empty());
        } else {
            lemma_dirs_prune(g, words, row, col, next, n, 0);
        }
    }
}

proof fn lemma_dirs_prune(
    g: Seq<Vec<Letter>>,
    words: Set<Seq<u8>>,
    row: int,
    col: int,
    path: Seq<Letter>,
    n: nat,
    k: int,
)
    requires
        grid_wf(g),
        is_grid_path(g, path),
        path.len() > 0,
        path.last().row == row,
        path.last().col == col,
    ensures
        search_dirs(g, words, row, col, path, n, k, true) == search_dirs(
            g,
            words,
            row,
            col,
            path,
            n,
            k,
            false,
        ),
    decreases n - path.len() + 1, 8 - k,
{
    if k < 0 || k >= 8 || path.len() >= n {
    } else {
        lemma_from_prune(g, words, row + dir_row(k), col + dir_col(k), path, n);
        lemma_dirs_prune(g, words, row, col, path, n, k + 1);
    }
}

proof fn lemma_starts_prune(g: Seq<Vec<Letter>>, words: Set<Seq<u8>>, n: nat, s: int)
    requires
        grid_wf(g),
    ensures
        search_starts(g, words, n, s, true) == search_starts(g, words, n, s, false),
    decreases SIZE * SIZE - s,
{
    if s < 0 || s >= SIZE * SIZE {
    } else {
        lemma_from_prune(g, words, s / (SIZE as int), s % (SIZE as int), seq![], n);
        lemma_starts_prune(g, words, n, s + 1);
    }
}

/// Pruning a path whose letters begin no word changes nothing that the
/// search finds, nor the order in which it finds it: the search that
/// extends every path to `n` cells finds the same paths.
pub proof fn lemma_pruning_changes_nothing(g: Seq<Vec<Letter>>, words: Set<Seq<u8>>, n: nat)
    requires
        grid_wf(g),
    ensures
        find_all_with(g, words, n, true) == find_all_with(g, words, n, false),
{
    lemma_starts_prune(g, words, n, 0);
}

proof fn lemma_grid_path_fits(g: Seq<Vec<Letter>>, p: Seq<Letter>)
    requires
        is_grid_path(g, p),
    ensures
        p.len() <= SIZE * SIZE,
{
    let idx = Seq::new(p.len(), |i: int| mask_index(p[i].row as int, p[i].col as int));
    assert forall|i: int, j: int| 0 <= i < idx.len() && 0 <= j < idx.len() && i != j implies idx[i]
        != idx[j] by {
        if i < j {
            assert(p[i].row != p[j].row || p[i].col != p[j].col);
        } else {
            assert(p[j].row != p[i].row || p[j].col != p[i].col);
        }
        assert(in_grid(p[i].row as int, p[i].col as int) && p[i] == cell_at(g, p[i].row as int, p[i].col as int));
        assert(in_grid(p[j].row as int, p[j].col as int) && p[j] == cell_at(g, p[j].row as int, p[j].col as int));
    }
    idx.unique_seq_to_set();
    let all = vstd::set_lib::set_int_range(0, (SIZE * SIZE) as int);
    vstd::set_lib::lemma_int_range(0, (SIZE * SIZE) as int);
    assert forall|x: int| idx.to_set().contains(x) implies all.contains(x) by {
        let i = choose|i: int| 0 <= i < idx.len() && idx[i] == x;
        assert(in_grid(p[i].row as int, p[i].col as int) && p[i] == cell_at(g, p[i].row as int, p[i].col as int));
    }
    vstd::set_lib::lemma_len_subset(idx.to_set(), all);
}

/// No walk visits more cells than the grid has: for a length beyond that
/// the search finds nothing.
pub proof fn lemma_too_long_finds_nothing(g: Seq<Vec<Letter>>, words: Set<Seq<u8>>, n: nat)
    requires
        grid_wf(g),
        n > SIZE * SIZE,
    ensures
        find_all(g, words, n).len() == 0,
{
    lemma_found_paths_are_words(g, words, n);
    if find_all(g, words, n).len() > 0 {
        assert(is_word_path(g, words, find_all(g, words, n)[0], n));
        lemma_grid_path_fits(g, find_all(g, words, n)[0]);
    }
}

} // verus!
