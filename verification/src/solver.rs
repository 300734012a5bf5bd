use vstd::prelude::*;

use crate::dictionary::{starts_word, Dictionary};
use crate::grid::{adjacent, lemma_distinct_len, lemma_spell_prefix, lemma_spell_push, spell, valid_path, WordGrid};
use crate::text::chars_of;

verus! {

/// `a` comes before `b` in the order in which a depth-first search that tries cells in
/// increasing order meets paths: a path comes before its extensions, and otherwise the
/// first differing cell decides.
pub open spec fn lex_less(a: Seq<usize>, b: Seq<usize>) -> bool {
    exists|k: int|
        #![trigger a.take(k), b.take(k)]
        0 <= k <= a.len() && k <= b.len() && a.take(k) == b.take(k) && ((k == a.len() && k
            < b.len()) || (k < a.len() && k < b.len() && a[k] < b[k]))
}

/// Path `p` spells `w`, a word of `words` with at least `min` letters, on board `g`.
pub open spec fn yields(g: WordGrid, words: Set<Seq<char>>, min: nat, p: Seq<usize>, w: Seq<char>) -> bool {
    &&& valid_path(g.side(), p)
    &&& spell(g.cell_seq(), p) == w
    &&& w.len() >= min
    &&& words.contains(w)
}

/// Some path that starts with `q` yields `w`.
pub open spec fn found_below(g: WordGrid, words: Set<Seq<char>>, min: nat, q: Seq<usize>, w: Seq<char>) -> bool {
    exists|p: Seq<usize>| q.is_prefix_of(p) && #[trigger] yields(g, words, min, p, w)
}

/// `p` is the first path, in search order, that starts with `q` and yields `w`.
pub open spec fn first_below(g: WordGrid, words: Set<Seq<char>>, min: nat, q: Seq<usize>, w: Seq<char>, p: Seq<usize>) -> bool {
    &&& q.is_prefix_of(p)
    &&& yields(g, words, min, p, w)
    &&& forall|p2: Seq<usize>|
        q.is_prefix_of(p2) && #[trigger] yields(g, words, min, p2, w) && p2 != p ==> lex_less(p, p2)
}

/// `p` is the first path, in search order, that yields `w`.
pub open spec fn first_path(g: WordGrid, words: Set<Seq<char>>, min: nat, w: Seq<char>, p: Seq<usize>) -> bool {
    &&& yields(g, words, min, p, w)
    &&& forall|p2: Seq<usize>| #[trigger] yields(g, words, min, p2, w) && p2 != p ==> lex_less(p, p2)
}

/// The words of a list of found entries.
pub open spec fn entry_words(e: Seq<(Seq<char>, Seq<usize>)>) -> Seq<Seq<char>> {
    e.map_values(|x: (Seq<char>, Seq<usize>)| x.0)
}

/// No word occurs twice among the entries.
pub open spec fn distinct_words(e: Seq<(Seq<char>, Seq<usize>)>) -> bool {
    forall|i: int, j: int| 0 <= i < j < e.len() ==> (#[trigger] e[i]).0 != (#[trigger] e[j]).0
}

/// A word found on a board, with the path that spells it.
#[derive(Debug, Clone, PartialEq, Eq)]
pub struct FoundWord {
    pub word: String,
    pub path: Vec<usize>,
}

/// Searches boards for the words of a dictionary.
pub struct GridSolver {
    dictionary: Dictionary,
    min_length: usize,
}

proof fn lemma_prefix_of_push(q: Seq<usize>, c: usize, p: Seq<usize>)
    requires
        q.push(c).is_prefix_of(p),
    ensures
        q.is_prefix_of(p),
        p[q.len() as int] == c,
{
    assert(q =~= p.subrange(0, q.len() as int)) by {
        assert forall|i: int| 0 <= i < q.len() implies q[i] == p[i] by {
            assert(q.push(c)[i] == q[i]);
        }
    }
    assert(q.push(c)[q.len() as int] == c);
}

proof fn lemma_proper_extension(q: Seq<usize>, p: Seq<usize>)
    requires
        q.is_prefix_of(p),
        p != q,
    ensures
        p.len() > q.len(),
        q.push(p[q.len() as int]).is_prefix_of(p),
        lex_less(q, p),
{
    if p.len() == q.len() {
        assert(p =~= q);
    }
    let c = p[q.len() as int];
    assert(q.push(c) =~= p.subrange(0, q.len() as int + 1));
    assert(q.take(q.len() as int) == q);
    assert(p.take(q.len() as int) == q);
}

proof fn lemma_lex_siblings(q: Seq<usize>, a: usize, b: usize, p1: Seq<usize>, p2: Seq<usize>)
    requires
        q.push(a).is_prefix_of(p1),
        q.push(b).is_prefix_of(p2),
        a < b,
    ensures
        lex_less(p1, p2),
{
    lemma_prefix_of_push(q, a, p1);
    lemma_prefix_of_push(q, b, p2);
    let k = q.len() as int;
    assert(p1.take(k) =~= q);
    assert(p2.take(k) =~= q);
}

/// A path that repeats a cell cannot be extended into a valid path.
proof fn lemma_repeat_blocks(side: nat, q: Seq<usize>, p: Seq<usize>)
    requires
        q.is_prefix_of(p),
        !q.no_duplicates(),
    ensures
        !valid_path(side, p),
{
    let (i, j) = choose|i: int, j: int| 0 <= i < q.len() && 0 <= j < q.len() && i != j && q[i] == q[j];
    assert(p[i] == q[i]);
    assert(p[j] == q[j]);
}

/// Any path that starts with `q` and yields a word keeps `q`'s spelling a prefix of that word.
proof fn lemma_prune(g: WordGrid, words: Set<Seq<char>>, min: nat, q: Seq<usize>, p: Seq<usize>, w: Seq<char>)
    requires
        q.is_prefix_of(p),
        yields(g, words, min, p, w),
    ensures
        starts_word(words, spell(g.cell_seq(), q)),
{
    lemma_spell_prefix(g.cell_seq(), p, q.len() as int);
    assert(p.take(q.len() as int) =~= q);
    let s = spell(g.cell_seq(), q);
    assert(s.is_prefix_of(w)) by {
        assert(w == s + spell(g.cell_seq(), p.skip(q.len() as int)));
        assert(s =~= w.subrange(0, s.len() as int));
    }
}

fn copy_indices(v: &[usize]) -> (r: Vec<usize>)
    ensures
        r@ == v@,
{
    let mut r: Vec<usize> = Vec::new();
    let mut i: usize = 0;
    while i < v.len()
        invariant
            i <= v.len(),
            r@ == v@.take(i as int),
        decreases v.len() - i,
    {
        r.push(v[i]);
        assert(v@.take(i + 1) == v@.take(i as int).push(v@[i as int]));
        i += 1;
    }
    assert(v@.take(v.len() as int) == v@);
    r
}

fn copy_chars(v: &[char]) -> (r: Vec<char>)
    ensures
        r@ == v@,
{
    let mut r: Vec<char> = Vec::new();
    let mut i: usize = 0;
    while i < v.len()
        invariant
            i <= v.len(),
            r@ == v@.take(i as int),
        decreases v.len() - i,
    {
        r.push(v[i]);
        assert(v@.take(i + 1) == v@.take(i as int).push(v@[i as int]));
        i += 1;
    }
    assert(v@.take(v.len() as int) == v@);
    r
}

/// The entries' view: each word's characters with its path.
pub open spec fn entries_view(e: Seq<(Vec<char>, Vec<usize>)>) -> Seq<(Seq<char>, Seq<usize>)> {
    e.map_values(|x: (Vec<char>, Vec<usize>)| (x.0@, x.1@))
}

fn has_entry(found: &Vec<(Vec<char>, Vec<usize>)>, w: &[char]) -> (r: bool)
    ensures
        r == entry_words(entries_view(found@)).contains(w@),
{
    let ghost e = entries_view(found@);
    let mut i: usize = 0;
    while i < found.len()
        invariant
            e == entries_view(found@),
            i <= found.len(),
            forall|k: int| 0 <= k < i ==> (#[trigger] e[k]).0 != w@,
        decreases found.len() - i,
    {
        if crate::text::chars_equal(found[i].0.as_slice(), w) {
            assert(entry_words(e)[i as int] == w@);
            return true;
        }
        i += 1;
    }
    proof {
        if entry_words(e).contains(w@) {
            let k = choose|k: int| 0 <= k < entry_words(e).len() && entry_words(e)[k] == w@;
            assert(e[k].0 == w@);
        }
    }
    false
}


impl GridSolver {
    /// The words that the solver looks for.
    pub closed spec fn words(&self) -> Set<Seq<char>> {
        self.dictionary.words()
    }

    /// The least number of letters of a word that the solver reports.
    pub closed spec fn min_letters(&self) -> nat {
        self.min_length as nat
    }

    /// A solver for the words of `dictionary` with at least `min_length` letters.
    pub fn new(dictionary: Dictionary, min_length: usize) -> (s: Self)
        ensures
            s.words() == dictionary.words(),
            s.min_letters() == min_length,
    {
        GridSolver { dictionary, min_length }
    }

    /// Visits every path that starts with `path` followed by `index`, skipping those whose
    /// letters start no word, and records each word met for the first time with its path.
    fn search(
        &self,
        grid: &WordGrid,
        index: usize,
        prefix: &mut Vec<char>,
        visited: &mut Vec<bool>,
        path: &mut Vec<usize>,
        found: &mut Vec<(Vec<char>, Vec<usize>)>,
    )
        requires
            grid.shape_ok(),
            index < grid.side() * grid.side(),
            old(path)@.len() == 0 || (valid_path(grid.side(), old(path)@) && adjacent(
                grid.side(),
                old(path)@.last() as int,
                index as int,
            )),
            old(visited)@.len() == grid.side() * grid.side(),
            forall|i: usize|
                (i as int) < old(visited)@.len() ==> (#[trigger] old(visited)@[i as int]) == old(
                    path,
                )@.contains(i),
            old(prefix)@ == spell(grid.cell_seq(), old(path)@),
            distinct_words(entries_view(old(found)@)),
        ensures
            final(path)@ == old(path)@,
            final(visited)@ == old(visited)@,
            final(prefix)@ == old(prefix)@,
            final(found)@.len() >= old(found)@.len(),
            entries_view(final(found)@).take(old(found)@.len() as int) == entries_view(old(found)@),
            distinct_words(entries_view(final(found)@)),
            forall|k: int|
                old(found)@.len() <= k < final(found)@.len() ==> !entry_words(
                    entries_view(old(found)@),
                ).contains((#[trigger] entries_view(final(found)@)[k]).0) && first_below(
                    *grid,
                    self.words(),
                    self.min_letters(),
                    old(path)@.push(index),
                    entries_view(final(found)@)[k].0,
                    entries_view(final(found)@)[k].1,
                ),
            forall|w: Seq<char>|
                found_below(*grid, self.words(), self.min_letters(), old(path)@.push(index), w)
                    ==> #[trigger] entry_words(entries_view(final(found)@)).contains(w),
        decreases grid.side() * grid.side() - old(path)@.len(),
    {
        let ghost g = *grid;
        let ghost words = self.words();
        let ghost min = self.min_letters();
        let ghost cells = grid.cell_seq();
        let ghost side = grid.side();
        let ghost start = path@;
        let ghost q = path@.push(index);
        let ghost before = entries_view(found@);
        proof {
            grid.lemma_shape();
            assert(before.take(before.len() as int) == before);
        }
        if visited[index] {
            proof {
                assert(start.contains(index));
                let w0 = choose|w0: int| 0 <= w0 < start.len() && start[w0] == index;
                assert(q[w0] == q[start.len() as int]);
                assert forall|w: Seq<char>| !found_below(g, words, min, q, w) by {
                    if found_below(g, words, min, q, w) {
                        let p = choose|p: Seq<usize>| q.is_prefix_of(p) && #[trigger] yields(g, words, min, p, w);
                        lemma_repeat_blocks(side, q, p);
                    }
                }
            }
            return;
        }
        let start_len = prefix.len();
        let cell = chars_of(grid.cell(index));
        let mut c: usize = 0;
        while c < cell.len()
            invariant
                c <= cell.len(),
                prefix@ == spell(cells, start) + cell@.take(c as int),
                start_len == spell(cells, start).len(),
            decreases cell.len() - c,
        {
            prefix.push(cell[c]);
            assert(cell@.take(c + 1) == cell@.take(c as int).push(cell@[c as int]));
            c += 1;
        }
        proof {
            assert(cell@.take(cell.len() as int) == cell@);
            lemma_spell_push(cells, start, index);
            assert(prefix@ == spell(cells, q));
        }
        if !self.dictionary.starts_word_chars(prefix.as_slice()) {
            prefix.truncate(start_len);
            proof {
                assert(prefix@ =~= spell(cells, start));
                assert forall|w: Seq<char>| !found_below(g, words, min, q, w) by {
                    if found_below(g, words, min, q, w) {
                        let p = choose|p: Seq<usize>| q.is_prefix_of(p) && #[trigger] yields(g, words, min, p, w);
                        lemma_prune(g, words, min, q, p, w);
                    }
                }
            }
            return;
        }
        visited[index] = true;
        path.push(index);
        proof {
            assert(valid_path(side, q)) by {
                assert forall|i: int, j: int| 0 <= i < q.len() && 0 <= j < q.len() && i != j
                    implies q[i] != q[j] by {
                    if i < start.len() && j < start.len() {
                        assert(start[i] != start[j]);
                    } else if i < start.len() {
                        assert(start.contains(start[i]));
                        assert(!old(visited)@[index as int]);
                    } else if j < start.len() {
                        assert(start.contains(start[j]));
                        assert(!old(visited)@[index as int]);
                    }
                }
                assert forall|k: int| 0 < k < q.len() implies adjacent(side, q[k - 1] as int, #[trigger] q[k] as int) by {
                    if k < start.len() {
                        assert(q[k - 1] == start[k - 1]);
                        assert(q[k] == start[k]);
                    }
                }
                assert forall|k: int| 0 <= k < q.len() implies (#[trigger] q[k]) < side * side by {
                    if k < start.len() {
                        assert(q[k] == start[k]);
                    }
                }
            }
            lemma_distinct_len(q, side * side);
            assert forall|i: usize| (i as int) < visited@.len() implies (#[trigger] visited@[i as int]) == q.contains(i) by {
                if i == index {
                    assert(q[start.len() as int] == index);
                } else {
                    assert(visited@[i as int] == old(visited)@[i as int]);
                    if start.contains(i) {
                        let w0 = choose|w0: int| 0 <= w0 < start.len() && start[w0] == i;
                        assert(q[w0] == i);
                    }
                    if q.contains(i) {
                        let w0 = choose|w0: int| 0 <= w0 < q.len() && q[w0] == i;
                        if w0 == start.len() {
                            assert(q[w0] == index);
                        } else {
                            assert(q[w0] == start[w0]);
                        }
                    }
                }
            }
        }
        if prefix.len() >= self.min_length && self.dictionary.has_word_chars(prefix.as_slice()) {
            if !has_entry(found, prefix.as_slice()) {
                let entry = (copy_chars(prefix.as_slice()), copy_indices(path.as_slice()));
                found.push(entry);
                proof {
                    let e = entries_view(found@);
                    assert(e.take(before.len() as int) =~= before);
                    assert(e[before.len() as int] == (spell(cells, q), q));
                    assert(distinct_words(e)) by {
                        assert forall|i: int, j: int| 0 <= i < j < e.len() implies (#[trigger] e[i]).0 != (#[trigger] e[j]).0 by {
                            if j == before.len() {
                                assert(entry_words(before)[i] == before[i].0);
                            } else {
                                assert(before[i] == e[i]);
                                assert(before[j] == e[j]);
                            }
                        }
                    }
                    assert(first_below(g, words, min, q, spell(cells, q), q)) by {
                        assert(q.is_prefix_of(q));
                        assert forall|p2: Seq<usize>| q.is_prefix_of(p2) && #[trigger] yields(g, words, min, p2, spell(cells, q)) && p2 != q
                            implies lex_less(q, p2) by {
                            lemma_proper_extension(q, p2);
                        }
                    }
                }
            }
        }
        let ghost after_root = entries_view(found@);
        proof {
            assert(after_root.take(before.len() as int) =~= before);
            assert forall|w: Seq<char>| yields(g, words, min, q, w) implies #[trigger] entry_words(after_root).contains(w) by {
                assert(w == spell(cells, q));
                if !entry_words(before).contains(w) {
                    assert(after_root.len() == before.len() + 1);
                    assert(entry_words(after_root)[before.len() as int] == w);
                } else {
                    let k = choose|k: int| 0 <= k < entry_words(before).len() && entry_words(before)[k] == w;
                    assert(after_root[k] == before[k]);
                    assert(entry_words(after_root)[k] == w);
                }
            }
        }
        let next_cells = grid.neighbors(index);
        let mut t: usize = 0;
        while t < next_cells.len()
            invariant
                grid.shape_ok(),
                g == *grid,
                words == self.words(),
                min == self.min_letters(),
                cells == grid.cell_seq(),
                side == grid.side(),
                q == start.push(index),
                start == old(path)@,
                path@ == q,
                valid_path(side, q),
                q.len() <= side * side,
                prefix@ == spell(cells, q),
                visited@.len() == side * side,
                forall|i: usize| (i as int) < visited@.len() ==> (#[trigger] visited@[i as int]) == q.contains(i),
                t <= next_cells.len(),
                forall|k: int|
                    0 <= k < next_cells.len() ==> (#[trigger] next_cells@[k]) < side * side
                        && adjacent(side, index as int, next_cells@[k] as int),
                forall|k1: int, k2: int| 0 <= k1 < k2 < next_cells.len() ==> next_cells@[k1] < next_cells@[k2],
                forall|j: int| 0 <= j < side * side && adjacent(side, index as int, j) ==> next_cells@.contains(j as usize),
                found@.len() >= before.len(),
                entries_view(found@).take(before.len() as int) == before,
                distinct_words(entries_view(found@)),
                forall|k: int|
                    before.len() <= k < found@.len() ==> !entry_words(before).contains(
                        (#[trigger] entries_view(found@)[k]).0,
                    ) && first_below(g, words, min, q, entries_view(found@)[k].0, entries_view(found@)[k].1)
                        && (entries_view(found@)[k].1 == q || exists|j: int| 0 <= j < t && q.push(next_cells@[j]).is_prefix_of(entries_view(found@)[k].1)),
                forall|w: Seq<char>| yields(g, words, min, q, w) ==> #[trigger] entry_words(entries_view(found@)).contains(w),
                forall|j: int, w: Seq<char>|
                    0 <= j < t && found_below(g, words, min, q.push(#[trigger] next_cells@[j]), w)
                        ==> #[trigger] entry_words(entries_view(found@)).contains(w),
            decreases next_cells.len() - t,
        {
            let ghost mid = entries_view(found@);
            let ghost ct = next_cells@[t as int];
            assert(grid.side() * grid.side() - path@.len() < grid.side() * grid.side() - start.len());
            assert(grid.side() * grid.side() - path@.len() >= 0);
            self.search(grid, next_cells[t], prefix, visited, path, found);
            let ghost now = entries_view(found@);
            proof {
                assert(now.take(before.len() as int) =~= before) by {
                    assert(now.take(mid.len() as int) == mid);
                    assert forall|i: int| 0 <= i < before.len() implies now[i] == before[i] by {
                        assert(now.take(mid.len() as int)[i] == mid[i]);
                        assert(mid.take(before.len() as int)[i] == mid[i]);
                    }
                }
                assert forall|i: int| 0 <= i < mid.len() implies #[trigger] now[i] == mid[i] by {
                    assert(now.take(mid.len() as int)[i] == now[i]);
                }
                assert forall|w: Seq<char>| #[trigger] entry_words(mid).contains(w) implies entry_words(now).contains(w) by {
                    let k = choose|k: int| 0 <= k < entry_words(mid).len() && entry_words(mid)[k] == w;
                    assert(entry_words(now)[k] == now[k].0);
                }
                assert forall|k: int|
                    before.len() <= k < found@.len() implies !entry_words(before).contains(
                        (#[trigger] now[k]).0,
                    ) && first_below(g, words, min, q, now[k].0, now[k].1)
                        && (now[k].1 == q || exists|j: int| 0 <= j < t + 1 && q.push(next_cells@[j]).is_prefix_of(now[k].1)) by {
                    if k < mid.len() {
                        assert(now[k] == mid[k]);
                        let p = now[k].1;
                        let w = now[k].0;
                        assert forall|p2: Seq<usize>| q.is_prefix_of(p2) && #[trigger] yields(g, words, min, p2, w) && p2 != p
                            implies lex_less(p, p2) by {
                            assert(first_below(g, words, min, q, w, p));
                        }
                        if p != q {
                            let j = choose|j: int| 0 <= j < t && q.push(next_cells@[j]).is_prefix_of(p);
                            assert(q.push(next_cells@[j]).is_prefix_of(p));
                        }
                    } else {
                        let w = now[k].0;
                        let p = now[k].1;
                        assert(!entry_words(mid).contains(w));
                        assert(first_below(g, words, min, q.push(ct), w, p));
                        lemma_prefix_of_push(q, ct, p);
                        assert(!entry_words(before).contains(w)) by {
                            if entry_words(before).contains(w) {
                                let i = choose|i: int| 0 <= i < entry_words(before).len() && entry_words(before)[i] == w;
                                assert(mid[i] == before[i]);
                                assert(entry_words(mid)[i] == w);
                            }
                        }
                        assert forall|p2: Seq<usize>| q.is_prefix_of(p2) && #[trigger] yields(g, words, min, p2, w) && p2 != p
                            implies lex_less(p, p2) by {
                            if p2 == q {
                                assert(entry_words(mid).contains(w));
                            } else {
                                lemma_proper_extension(q, p2);
                                let c2 = p2[q.len() as int];
                                assert(p2[q.len() - 1] == q.last());
                                assert(adjacent(side, index as int, c2 as int));
                                assert(next_cells@.contains(c2));
                                let j2 = choose|j2: int| 0 <= j2 < next_cells.len() && next_cells@[j2] == c2;
                                if j2 < t {
                                    assert(found_below(g, words, min, q.push(next_cells@[j2]), w));
                                    assert(entry_words(mid).contains(w));
                                } else if j2 == t as int {
                                    assert(q.push(ct).is_prefix_of(p2));
                                } else {
                                    lemma_lex_siblings(q, ct, c2, p, p2);
                                }
                            }
                        }
                        assert(q.push(next_cells@[t as int]).is_prefix_of(p));
                    }
                }
                assert forall|w: Seq<char>| yields(g, words, min, q, w) implies #[trigger] entry_words(now).contains(w) by {
                    assert(entry_words(mid).contains(w));
                }
                assert forall|j: int, w: Seq<char>|
                    0 <= j < t + 1 && found_below(g, words, min, q.push(#[trigger] next_cells@[j]), w)
                    implies #[trigger] entry_words(now).contains(w) by {
                    if j < t {
                        assert(entry_words(mid).contains(w));
                    }
                }
            }
            t += 1;
        }
        let ghost fin = entries_view(found@);
        proof {
            assert forall|w: Seq<char>|
                found_below(g, words, min, q, w) implies #[trigger] entry_words(fin).contains(w) by {
                let p = choose|p: Seq<usize>| q.is_prefix_of(p) && #[trigger] yields(g, words, min, p, w);
                if p == q {
                } else {
                    lemma_proper_extension(q, p);
                    let c2 = p[q.len() as int];
                    assert(p[q.len() - 1] == q.last());
                    assert(adjacent(side, index as int, c2 as int));
                    assert(next_cells@.contains(c2));
                    let j2 = choose|j2: int| 0 <= j2 < next_cells.len() && next_cells@[j2] == c2;
                    assert(found_below(g, words, min, q.push(next_cells@[j2]), w));
                }
            }
        }
        path.pop();
        visited[index] = false;
        prefix.truncate(start_len);
        proof {
            assert(path@ =~= start);
            assert forall|i: int| 0 <= i < visited@.len() implies visited@[i] == old(visited)@[i] by {
                assert(i < visited.len());
                let u = i as usize;
                assert(u as int == i);
                if u != index {
                    assert(visited@[u as int] == q.contains(u));
                    assert(old(visited)@[u as int] == start.contains(u));
                    if q.contains(u) {
                        let w0 = choose|w0: int| 0 <= w0 < q.len() && q[w0] == u;
                        if w0 == start.len() {
                            assert(q[w0] == index);
                        } else {
                            assert(q[w0] == start[w0]);
                        }
                    }
                    if start.contains(u) {
                        let w0 = choose|w0: int| 0 <= w0 < start.len() && start[w0] == u;
                        assert(q[w0] == start[w0]);
                    }
                } else {
                    assert(!old(visited)@[index as int]);
                }
            }
            assert(visited@ =~= old(visited)@);
            assert(prefix@ =~= spell(cells, start));
        }
    }
}


/// `a` sorts before `b` in code-point order, as `String`'s ordering gives it.
pub open spec fn chars_less(a: Seq<char>, b: Seq<char>) -> bool {
    exists|k: int|
        #![trigger a.take(k), b.take(k)]
        0 <= k <= a.len() && k <= b.len() && a.take(k) == b.take(k) && ((k == a.len() && k
            < b.len()) || (k < a.len() && k < b.len() && (a[k] as int) < (b[k] as int)))
}

/// Results are listed longest word first, and words of one length in code-point order.
pub open spec fn listed_before(a: Seq<char>, b: Seq<char>) -> bool {
    a.len() > b.len() || (a.len() == b.len() && chars_less(a, b))
}

/// The view of a found word: its characters and its path.
pub open spec fn found_view(f: FoundWord) -> (Seq<char>, Seq<usize>) {
    (f.word@, f.path@)
}

proof fn lemma_chars_less_equal_len(a: Seq<char>, b: Seq<char>)
    requires
        a.len() == b.len(),
    ensures
        chars_less(a, b) <==> exists|k: int|
            0 <= k < a.len() && (forall|i: int| 0 <= i < k ==> a[i] == b[i]) && (a[k] as int) < (
                #[trigger] b[k] as int),
{
    if chars_less(a, b) {
        let k = choose|k: int|
            #![trigger a.take(k), b.take(k)]
            0 <= k <= a.len() && k <= b.len() && a.take(k) == b.take(k) && ((k == a.len() && k
                < b.len()) || (k < a.len() && k < b.len() && (a[k] as int) < (b[k] as int)));
        assert forall|i: int| 0 <= i < k implies a[i] == b[i] by {
            assert(a.take(k)[i] == b.take(k)[i]);
        }
    }
    if exists|k: int|
        0 <= k < a.len() && (forall|i: int| 0 <= i < k ==> a[i] == b[i]) && (a[k] as int) < (
            #[trigger] b[k] as int) {
        let k = choose|k: int|
            0 <= k < a.len() && (forall|i: int| 0 <= i < k ==> a[i] == b[i]) && (a[k] as int) < (
                #[trigger] b[k] as int);
        assert(a.take(k) =~= b.take(k));
    }
}

/// Of two paths, at most one comes first, and a path never comes before itself.
pub proof fn lemma_lex_asym(a: Seq<usize>, b: Seq<usize>)
    requires
        lex_less(a, b),
    ensures
        !lex_less(b, a),
        a != b,
{
    let k = choose|k: int|
        #![trigger a.take(k), b.take(k)]
        0 <= k <= a.len() && k <= b.len() && a.take(k) == b.take(k) && ((k == a.len() && k
            < b.len()) || (k < a.len() && k < b.len() && a[k] < b[k]));
    if lex_less(b, a) {
        let j = choose|j: int|
            #![trigger b.take(j), a.take(j)]
            0 <= j <= b.len() && j <= a.len() && b.take(j) == a.take(j) && ((j == b.len() && j
                < a.len()) || (j < b.len() && j < a.len() && b[j] < a[j]));
        if j < k {
            assert(a.take(k)[j] == b.take(k)[j]);
        } else if k < j {
            assert(a.take(j)[k] == b.take(j)[k]);
        }
    }
    if a == b {
        assert(k < a.len());
    }
}

/// Two different words are listed one way or the other, never both.
pub proof fn lemma_listed_total(a: Seq<char>, b: Seq<char>)
    requires
        a != b,
    ensures
        listed_before(a, b) || listed_before(b, a),
        !(listed_before(a, b) && listed_before(b, a)),
{
    if a.len() == b.len() {
        lemma_chars_less_equal_len(a, b);
        lemma_chars_less_equal_len(b, a);
        let f = lemma_first_diff(a, b, 0);
        assert((a[f] as int) != (b[f] as int));
        if (a[f] as int) < (b[f] as int) {
            assert(listed_before(a, b));
        } else {
            assert(listed_before(b, a));
        }
        if chars_less(a, b) && chars_less(b, a) {
            let k1 = choose|k: int|
                0 <= k < a.len() && (forall|i: int| 0 <= i < k ==> a[i] == b[i]) && (a[k] as int) < (
                    #[trigger] b[k] as int);
            let k2 = choose|k: int|
                0 <= k < b.len() && (forall|i: int| 0 <= i < k ==> b[i] == a[i]) && (b[k] as int) < (
                    #[trigger] a[k] as int);
            if k1 < k2 {
                assert(b[k1] == a[k1]);
            } else if k2 < k1 {
                assert(a[k2] == b[k2]);
            }
        }
    }
}

proof fn lemma_first_diff(a: Seq<char>, b: Seq<char>, i: int) -> (f: int)
    requires
        a.len() == b.len(),
        a != b,
        0 <= i <= a.len(),
        forall|j: int| 0 <= j < i ==> a[j] == b[j],
    ensures
        i <= f < a.len(),
        a[f] != b[f],
        forall|j: int| 0 <= j < f ==> a[j] == b[j],
    decreases a.len() - i,
{
    if i == a.len() {
        assert(a =~= b);
        i
    } else if a[i] != b[i] {
        i
    } else {
        lemma_first_diff(a, b, i + 1)
    }
}

/// The listing order is transitive.
pub proof fn lemma_listed_transitive(a: Seq<char>, b: Seq<char>, c: Seq<char>)
    requires
        listed_before(a, b),
        listed_before(b, c),
    ensures
        listed_before(a, c),
{
    if a.len() == b.len() && b.len() == c.len() {
        lemma_chars_less_equal_len(a, b);
        lemma_chars_less_equal_len(b, c);
        lemma_chars_less_equal_len(a, c);
        let k1 = choose|k: int|
            0 <= k < a.len() && (forall|i: int| 0 <= i < k ==> a[i] == b[i]) && (a[k] as int) < (
                #[trigger] b[k] as int);
        let k2 = choose|k: int|
            0 <= k < b.len() && (forall|i: int| 0 <= i < k ==> b[i] == c[i]) && (b[k] as int) < (
                #[trigger] c[k] as int);
        let k = if k1 < k2 { k1 } else { k2 };
        assert(forall|i: int| 0 <= i < k ==> a[i] == c[i]);
        assert((a[k] as int) < (c[k] as int));
    }
}

/// Whether `a` is listed before `b`.
pub(crate) fn listed_before_exec(a: &[char], b: &[char]) -> (r: bool)
    ensures
        r == listed_before(a@, b@),
{
    if a.len() != b.len() {
        return a.len() > b.len();
    }
    proof {
        lemma_chars_less_equal_len(a@, b@);
    }
    let mut i: usize = 0;
    while i < a.len()
        invariant
            a.len() == b.len(),
            i <= a.len(),
            forall|j: int| 0 <= j < i ==> a@[j] == b@[j],
        decreases a.len() - i,
    {
        if a[i] != b[i] {
            let lt = a[i] < b[i];
            proof {
                lemma_chars_less_equal_len(a@, b@);
                if lt {
                    assert((a@[i as int] as int) < (b@[i as int] as int));
                } else {
                    if chars_less(a@, b@) {
                        let k = choose|k: int|
                            0 <= k < a@.len() && (forall|j: int| 0 <= j < k ==> a@[j] == b@[j]) && (a@[k] as int) < (
                                #[trigger] b@[k] as int);
                        if k < i {
                        } else if k > i {
                            assert(a@[i as int] == b@[i as int]);
                        }
                    }
                }
            }
            return lt;
        }
        i += 1;
    }
    assert(a@ =~= b@);
    proof {
        if chars_less(a@, b@) {
            let k = choose|k: int|
                0 <= k < a@.len() && (forall|j: int| 0 <= j < k ==> a@[j] == b@[j]) && (a@[k] as int) < (
                    #[trigger] b@[k] as int);
        }
    }
    false
}

impl GridSolver {
    /// Every word of the dictionary with at least the minimum number of letters that some
    /// path on `grid` spells, once each, with the first path that the search meets for it;
    /// longest words first, words of one length in code-point order.
    pub fn find_words(&self, grid: &WordGrid) -> (r: Vec<FoundWord>)
        ensures
            forall|i: int|
                0 <= i < r.len() ==> first_path(
                    *grid,
                    self.words(),
                    self.min_letters(),
                    (#[trigger] r@[i]).word@,
                    r@[i].path@,
                ),
            forall|w: Seq<char>, p: Seq<usize>|
                #[trigger] yields(*grid, self.words(), self.min_letters(), p, w) ==> exists|i: int|
                    0 <= i < r.len() && (#[trigger] r@[i]).word@ == w,
            forall|i: int, j: int|
                0 <= i < j < r.len() ==> listed_before((#[trigger] r@[i]).word@, (#[trigger] r@[j]).word@),
    {
        proof {
            use_type_invariant(grid);
            grid.lemma_shape();
        }
        let ghost g = *grid;
        let ghost words = self.words();
        let ghost min = self.min_letters();
        let n = grid.cells().len();
        assert(n == grid.side() * grid.side());
        let mut found: Vec<(Vec<char>, Vec<usize>)> = Vec::new();
        let mut visited: Vec<bool> = Vec::new();
        let mut k: usize = 0;
        while k < n
            invariant
                k <= n,
                visited@.len() == k,
                forall|i: int| 0 <= i < k ==> !(#[trigger] visited@[i]),
            decreases n - k,
        {
            visited.push(false);
            k += 1;
        }
        let mut path: Vec<usize> = Vec::new();
        let mut index: usize = 0;
        assert(entries_view(found@) =~= Seq::<(Seq<char>, Seq<usize>)>::empty());
        while index < n
            invariant
                grid.shape_ok(),
                g == *grid,
                words == self.words(),
                min == self.min_letters(),
                n == grid.side() * grid.side(),
                index <= n,
                path@ == Seq::<usize>::empty(),
                visited@.len() == n,
                forall|i: int| 0 <= i < n ==> !(#[trigger] visited@[i]),
                distinct_words(entries_view(found@)),
                forall|e: int|
                    0 <= e < found@.len() ==> yields(
                        g,
                        words,
                        min,
                        (#[trigger] entries_view(found@)[e]).1,
                        entries_view(found@)[e].0,
                    ) && entries_view(found@)[e].1[0] < index && forall|p2: Seq<usize>|
                        #[trigger] yields(g, words, min, p2, entries_view(found@)[e].0) && p2[0] < index
                            && p2 != entries_view(found@)[e].1 ==> lex_less(entries_view(found@)[e].1, p2),
                forall|w: Seq<char>, p: Seq<usize>|
                    #[trigger] yields(g, words, min, p, w) && p[0] < index ==> entry_words(
                        entries_view(found@),
                    ).contains(w),
            decreases n - index,
        {
            let ghost before = entries_view(found@);
            let mut prefix: Vec<char> = Vec::new();
            proof {
                assert(prefix@ == spell(grid.cell_seq(), path@));
                assert forall|i: usize| (i as int) < visited@.len() implies (#[trigger] visited@[i as int]) == path@.contains(i) by {
                }
            }
            self.search(grid, index, &mut prefix, &mut visited, &mut path, &mut found);
            let ghost now = entries_view(found@);
            let ghost root = seq![index];
            proof {
                assert(path@.push(index) == root);
                assert forall|i: int| 0 <= i < before.len() implies #[trigger] now[i] == before[i] by {
                    assert(now.take(before.len() as int)[i] == now[i]);
                }
                assert forall|e: int|
                    0 <= e < found@.len() implies yields(g, words, min, (#[trigger] now[e]).1, now[e].0)
                        && now[e].1[0] < index + 1 && forall|p2: Seq<usize>|
                        #[trigger] yields(g, words, min, p2, now[e].0) && p2[0] < index + 1 && p2 != now[e].1
                            ==> lex_less(now[e].1, p2) by {
                    let w = now[e].0;
                    let p = now[e].1;
                    if e < before.len() {
                        assert(now[e] == before[e]);
                        assert forall|p2: Seq<usize>|
                            #[trigger] yields(g, words, min, p2, w) && p2[0] < index + 1 && p2 != p
                            implies lex_less(p, p2) by {
                            if p2[0] == index {
                                assert(p.take(0) =~= p2.take(0));
                            }
                        }
                    } else {
                        assert(first_below(g, words, min, root, w, p));
                        assert(p[0] == root[0]);
                        assert forall|p2: Seq<usize>|
                            #[trigger] yields(g, words, min, p2, w) && p2[0] < index + 1 && p2 != p
                            implies lex_less(p, p2) by {
                            if p2[0] < index {
                                assert(entry_words(before).contains(w));
                            } else {
                                assert(root =~= p2.subrange(0, 1));
                                assert(root.is_prefix_of(p2));
                            }
                        }
                    }
                }
                assert forall|w: Seq<char>, p: Seq<usize>|
                    #[trigger] yields(g, words, min, p, w) && p[0] < index + 1 implies entry_words(now).contains(w) by {
                    if p[0] < index {
                        assert(entry_words(before).contains(w));
                        let i = choose|i: int| 0 <= i < entry_words(before).len() && entry_words(before)[i] == w;
                        assert(entry_words(now)[i] == now[i].0);
                    } else {
                        assert(root =~= p.subrange(0, 1));
                        assert(found_below(g, words, min, root, w));
                    }
                }
            }
            index += 1;
        }
        let ghost all = entries_view(found@);
        proof {
            assert forall|e: int| 0 <= e < all.len() implies first_path(g, words, min, (#[trigger] all[e]).0, all[e].1) by {
                assert forall|p2: Seq<usize>| #[trigger] yields(g, words, min, p2, all[e].0) && p2 != all[e].1
                    implies lex_less(all[e].1, p2) by {
                    assert(p2[0] < n);
                }
            }
            assert forall|w: Seq<char>, p: Seq<usize>| #[trigger] yields(g, words, min, p, w) implies entry_words(all).contains(w) by {
                assert(p[0] < n);
            }
        }
        // Order the entries: repeatedly take the one listed first among those left.
        let mut remaining = found;
        let mut result: Vec<FoundWord> = Vec::new();
        while remaining.len() > 0
            invariant
                forall|e: int| 0 <= e < remaining.len() ==> all.contains(#[trigger] entries_view(remaining@)[e]),
                forall|e: int| 0 <= e < result.len() ==> all.contains(found_view(#[trigger] result@[e])),
                forall|e: int| 0 <= e < all.len() ==> entries_view(remaining@).contains(#[trigger] all[e])
                    || exists|i: int| 0 <= i < result.len() && found_view(#[trigger] result@[i]) == all[e],
                distinct_words(entries_view(remaining@)),
                forall|i: int, j: int|
                    0 <= i < j < result.len() ==> listed_before((#[trigger] result@[i]).word@, (#[trigger] result@[j]).word@),
                forall|i: int, e: int|
                    0 <= i < result.len() && 0 <= e < remaining.len() ==> listed_before(
                        (#[trigger] result@[i]).word@,
                        (#[trigger] entries_view(remaining@)[e]).0,
                    ),
            decreases remaining.len(),
        {
            let ghost rem = entries_view(remaining@);
            let mut best: usize = 0;
            let mut e: usize = 1;
            while e < remaining.len()
                invariant
                    rem == entries_view(remaining@),
                    distinct_words(rem),
                    remaining.len() > 0,
                    best < e <= remaining.len(),
                    forall|x: int| 0 <= x < e && x != best ==> listed_before(rem[best as int].0, #[trigger] rem[x].0),
                decreases remaining.len() - e,
            {
                if listed_before_exec(remaining[e].0.as_slice(), remaining[best].0.as_slice()) {
                    proof {
                        assert forall|x: int| 0 <= x < e + 1 && x != e implies listed_before(rem[e as int].0, #[trigger] rem[x].0) by {
                            if x != best {
                                lemma_listed_transitive(rem[e as int].0, rem[best as int].0, rem[x].0);
                            }
                        }
                    }
                    best = e;
                } else {
                    proof {
                        lemma_listed_total(rem[e as int].0, rem[best as int].0);
                    }
                }
                e += 1;
            }
            let chosen = remaining.remove(best);
            let ghost cv = (chosen.0@, chosen.1@);
            assert(cv == rem[best as int]);
            let item = FoundWord { word: crate::text::string_of(chosen.0.as_slice()), path: chosen.1 };
            assert(found_view(item) == cv);
            let ghost old_result = result@;
            result.push(item);
            proof {
                let rem2 = entries_view(remaining@);
                assert(rem2 =~= rem.remove(best as int));
                assert forall|i: int, j: int| 0 <= i < j < result.len() implies listed_before((#[trigger] result@[i]).word@, (#[trigger] result@[j]).word@) by {
                    if j == result.len() - 1 {
                        assert(result@[i] == old_result[i]);
                        assert(result@[j] == item);
                    } else {
                        assert(result@[i] == old_result[i]);
                        assert(result@[j] == old_result[j]);
                    }
                }
                assert forall|i: int, x: int| 0 <= i < result.len() && 0 <= x < remaining.len()
                    implies listed_before((#[trigger] result@[i]).word@, (#[trigger] rem2[x]).0) by {
                    let y = if x < best { x } else { x + 1 };
                    assert(rem2[x] == rem[y]);
                    if i == result.len() - 1 {
                        assert(result@[i] == item);
                    } else {
                        assert(result@[i] == old_result[i]);
                    }
                }
                assert forall|e: int| 0 <= e < remaining.len() implies all.contains(#[trigger] rem2[e]) by {
                    let y = if e < best { e } else { e + 1 };
                    assert(rem2[e] == rem[y]);
                }
                assert forall|e: int| 0 <= e < result.len() implies all.contains(found_view(#[trigger] result@[e])) by {
                    if e == result.len() - 1 {
                        assert(result@[e] == item);
                    } else {
                        assert(result@[e] == old_result[e]);
                    }
                }
                assert forall|e: int| 0 <= e < all.len() implies rem2.contains(#[trigger] all[e])
                    || exists|i: int| 0 <= i < result.len() && found_view(#[trigger] result@[i]) == all[e] by {
                    if rem.contains(all[e]) {
                        let y = choose|y: int| 0 <= y < rem.len() && rem[y] == all[e];
                        if y == best {
                            assert(found_view(result@[result.len() - 1]) == all[e]);
                        } else {
                            let x = if y < best { y } else { y - 1 };
                            assert(rem2[x] == rem[y]);
                        }
                    } else {
                        let i = choose|i: int| 0 <= i < old_result.len() && found_view(#[trigger] old_result[i]) == all[e];
                        assert(result@[i] == old_result[i]);
                    }
                }
                assert(distinct_words(rem2)) by {
                    assert forall|i: int, j: int| 0 <= i < j < rem2.len() implies (#[trigger] rem2[i]).0 != (#[trigger] rem2[j]).0 by {
                        let yi = if i < best { i } else { i + 1 };
                        let yj = if j < best { j } else { j + 1 };
                        assert(rem2[i] == rem[yi]);
                        assert(rem2[j] == rem[yj]);
                    }
                }
            }
        }
        proof {
            assert forall|i: int| 0 <= i < result.len() implies first_path(g, words, min, (#[trigger] result@[i]).word@, result@[i].path@) by {
                assert(all.contains(found_view(result@[i])));
                let e = choose|e: int| 0 <= e < all.len() && all[e] == found_view(result@[i]);
            }
            assert forall|w: Seq<char>, p: Seq<usize>| #[trigger] yields(g, words, min, p, w) implies exists|i: int|
                0 <= i < result.len() && (#[trigger] result@[i]).word@ == w by {
                assert(entry_words(all).contains(w));
                let e = choose|e: int| 0 <= e < entry_words(all).len() && entry_words(all)[e] == w;
                assert(all[e].0 == w);
                assert(!entries_view(remaining@).contains(all[e]));
                let i = choose|i: int| 0 <= i < result.len() && found_view(#[trigger] result@[i]) == all[e];
                assert(result@[i].word@ == w);
            }
        }
        result
    }
}

} // verus!
