use vstd::prelude::*;
use vstd::utf8::encode_utf8;

use crate::grid::WordGrid;
use crate::scoring::{score_for, ScoreBand, ScoringTable};
use crate::solver::FoundWord;
use crate::text::{decimal, push_char, push_decimal, push_str};

verus! {

/// What follows cell `i` (counting from 0) on a board of side `size`: a line break at the
/// end of a row, a space otherwise.
pub open spec fn cell_separator(size: nat, i: int) -> Seq<char> {
    if (i + 1) % (size as int) == 0 {
        seq!['\n']
    } else {
        seq![' ']
    }
}

/// The first `k` cells, each followed by its separator.
pub open spec fn grid_rows(cells: Seq<Seq<char>>, size: nat, k: nat) -> Seq<char>
    decreases k,
{
    if k == 0 {
        Seq::empty()
    } else {
        grid_rows(cells, size, (k - 1) as nat) + cells[k - 1] + cell_separator(size, k - 1)
    }
}

/// The text that shows a board: a title line, the rows with cells separated by spaces, and
/// a closing rule.
pub open spec fn grid_text(cells: Seq<Seq<char>>, size: nat) -> Seq<char> {
    "--WORD GRID--\n"@ + grid_rows(cells, size, cells.len()) + "-------------"@
}

/// Shows a board: a title line, one line per row with the cells separated by spaces, and a
/// closing rule.
pub fn format_word_grid(grid: &WordGrid) -> (r: String)
    ensures
        r@ == grid_text(grid.cell_seq(), grid.side()),
{
    proof {
        use_type_invariant(grid);
        grid.lemma_shape();
    }
    let ghost cells = grid.cell_seq();
    let size = grid.size();
    let list = grid.cells();
    let mut out = String::from_str("--WORD GRID--\n");
    let mut i: usize = 0;
    while i < list.len()
        invariant
            i <= list.len(),
            size == grid.side(),
            size > 0,
            list@.map_values(|c: String| c@) == cells,
            out@ == "--WORD GRID--\n"@ + grid_rows(cells, size as nat, i as nat),
        decreases list.len() - i,
    {
        assert(cells[i as int] == list@[i as int]@);
        push_str(&mut out, list[i].as_str());
        if (i + 1) % size == 0 {
            push_char(&mut out, '\n');
        } else {
            push_char(&mut out, ' ');
        }
        proof {
            let prev = "--WORD GRID--\n"@ + grid_rows(cells, size as nat, i as nat);
            assert(out@ =~= prev + cells[i as int] + cell_separator(size as nat, i as int));
        }
        i += 1;
    }
    push_str(&mut out, "-------------");
    out
}

/// The line that lists a found word: the word, a tab, a second tab for words of fewer than
/// eight bytes, its points and a line break.
pub open spec fn result_line(word: Seq<char>, bands: Seq<ScoreBand>) -> Seq<char> {
    word + seq!['\t'] + (if encode_utf8(word).len() < 8 {
        seq!['\t']
    } else {
        Seq::empty()
    }) + decimal(score_for(bands, word.len())) + seq!['\n']
}

/// The lines of the first words of a list, one per word.
pub open spec fn result_lines(words: Seq<Seq<char>>, bands: Seq<ScoreBand>) -> Seq<char>
    decreases words.len(),
{
    if words.len() == 0 {
        Seq::empty()
    } else {
        result_lines(words.drop_last(), bands) + result_line(words.last(), bands)
    }
}

/// The points of all the words of a list.
pub open spec fn total_points(words: Seq<Seq<char>>, bands: Seq<ScoreBand>) -> nat
    decreases words.len(),
{
    if words.len() == 0 {
        0
    } else {
        total_points(words.drop_last(), bands) + score_for(bands, words.last().len())
    }
}

/// The words of a list of results.
pub open spec fn found_words(results: Seq<FoundWord>) -> Seq<Seq<char>> {
    results.map_values(|f: FoundWord| f.word@)
}

/// The text that reports the found words: a heading, one line per word, a rule, and the
/// number of words with their total points.
pub open spec fn results_text(words: Seq<Seq<char>>, bands: Seq<ScoreBand>) -> Seq<char> {
    "Words found:\n"@ + result_lines(words, bands) + "------------------------------------\n"@
        + "Total number of words: "@ + decimal(words.len()) + ", Total score: "@ + decimal(
        total_points(words, bands),
    )
}

proof fn lemma_total_points_prefix(words: Seq<Seq<char>>, bands: Seq<ScoreBand>, k: int)
    requires
        0 <= k <= words.len(),
    ensures
        total_points(words.take(k), bands) <= total_points(words, bands),
    decreases words.len(),
{
    if k < words.len() {
        lemma_total_points_prefix(words.drop_last(), bands, k);
        assert(words.take(k) =~= words.drop_last().take(k));
    } else {
        assert(words.take(k) =~= words);
    }
}

/// Reports the found words with their points under `scoring`: a heading, one line per word
/// (the word, one or two tabs, its points), a rule, and the number of words with their
/// total points.
pub fn format_results(results: &[FoundWord], scoring: &ScoringTable) -> (r: String)
    requires
        total_points(found_words(results@), scoring.band_seq()) <= usize::MAX,
    ensures
        r@ == results_text(found_words(results@), scoring.band_seq()),
{
    let ghost words = found_words(results@);
    let ghost bands = scoring.band_seq();
    let mut out = String::from_str("Words found:\n");
    let mut total: usize = 0;
    let mut i: usize = 0;
    while i < results.len()
        invariant
            i <= results.len(),
            words == found_words(results@),
            bands == scoring.band_seq(),
            total_points(words, bands) <= usize::MAX,
            total == total_points(words.take(i as int), bands),
            out@ == "Words found:\n"@ + result_lines(words.take(i as int), bands),
        decreases results.len() - i,
    {
        let word = results[i].word.as_str();
        proof {
            assert(words.take(i + 1).drop_last() =~= words.take(i as int));
            assert(words.take(i + 1).last() == word@);
            lemma_total_points_prefix(words, bands, i + 1);
        }
        let score = scoring.score_word(word);
        total = total + score;
        let ghost before = out@;
        push_str(&mut out, word);
        push_char(&mut out, '\t');
        if word.as_bytes().len() < 8 {
            push_char(&mut out, '\t');
        }
        push_decimal(&mut out, score);
        push_char(&mut out, '\n');
        proof {
            assert(out@ =~= before + result_line(word@, bands));
        }
        i += 1;
    }
    assert(words.take(results.len() as int) =~= words);
    push_str(&mut out, "------------------------------------\n");
    push_str(&mut out, "Total number of words: ");
    push_decimal(&mut out, results.len());
    push_str(&mut out, ", Total score: ");
    push_decimal(&mut out, total);
    out
}

} // verus!
