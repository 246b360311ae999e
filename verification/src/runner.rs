use vstd::prelude::*;
use vstd::string::StrSliceExecFns;
use vstd::string::StringExecFns;
use crate::config::Config;
use crate::direction::{lemma_incrementors_unit, spec_dx, spec_dy, Direction};
use crate::error::PuzzleError;
use crate::grid::{all_candidates_valid, blank, filled_cell, has_blank, lemma_unit_mul_bound,
    spec_placement_valid, step_x, step_y, word_cell_ok, word_in_grid, PuzzleGrid};
use crate::output::output_text_spec;
use crate::text::{dec_seq, upper_seq, usize_to_string};

verus! {

/// The uppercased views of a list of words, in order: what the grid's
/// entry list holds once every word was placed.
pub open spec fn upper_all(words: Seq<String>) -> Seq<Seq<char>> {
    Seq::new(words.len(), |k: int| upper_seq(words[k]@))
}

/// Every word fits the grid: none is longer than `size`.
pub open spec fn all_fit(words: Seq<String>, size: int) -> bool {
    forall|k: int| 0 <= k < words.len() ==> (#[trigger] words[k]@).len() <= size
}

/// The error message naming a word too long for the grid.
pub open spec fn too_long_message(w: Seq<char>, size: nat) -> Seq<char> {
    w + " is too long to fit in a "@ + dec_seq(size) + " x "@ + dec_seq(size) + " puzzle"@
}

/// The error message naming a word that could not be placed.
pub open spec fn unplaced_message(w: Seq<char>) -> Seq<char> {
    w + " could not be placed in the puzzle"@
}

/// A word short enough for the grid also keeps every candidate offset
/// within the machine range of a grid coordinate.
pub open spec fn word_fits_budget(w: Seq<char>, size: int) -> bool {
    w.len() <= size ==> w.len() + size <= 128
}

/// The main runner: validates that every word fits the grid, places the
/// words one at a time in order, and serializes the answer key and — after
/// the fill-in pass — the finished puzzle. The caller writes the two texts
/// to their destinations, answer key first.
pub fn run(config: &Config, words: &Vec<String>) -> (r: Result<(String, String), PuzzleError>)
    requires
        config.size <= 127,
        config.size >= 1 || forall|k: int|
            0 <= k < words@.len() ==> (#[trigger] words@[k]@).len() >= 1,
        forall|k: int|
            0 <= k < words@.len() ==> word_fits_budget(#[trigger] words@[k]@, config.size as int),
    ensures
        // a word longer than the grid fails the run before any output,
        // naming the first offending word
        !all_fit(words@, config.size as int) ==> r is Err,
        !all_fit(words@, config.size as int) ==> (r matches Err(e) && exists|k: int|
            {
                &&& 0 <= k < words@.len()
                &&& (#[trigger] words@[k]@).len() > config.size
                &&& forall|j: int| 0 <= j < k ==> (#[trigger] words@[j]@).len() <= config.size
                &&& e@ == too_long_message(words@[k]@, config.size as nat)
            }),
        // once every word fits, a failure can only be a placement
        // failure, and it names the unplaced word
        r is Err && all_fit(words@, config.size as int) ==> (r matches Err(e) && exists|k: int|
            0 <= k < words@.len() && e@ == unplaced_message(#[trigger] words@[k]@)),
        // where the draws cannot fail, success is owed: with room for at
        // least one draw per word, a list of empty words — every candidate
        // placement of an empty word is valid — always succeeds
        config.maxtries >= 2 && config.size >= 1 && (forall|k: int|
            0 <= k < words@.len() ==> (#[trigger] words@[k]@).len() == 0) ==> r is Ok,
        // on success both texts serialize one final grid: the answer key
        // the solved grid, the puzzle the same grid with every blank
        // filled in by an uppercase letter; each placed word without a
        // blank can be read back from both
        r matches Ok(outs) ==> all_fit(words@, config.size as int) && exists|
            solved: Seq<Seq<char>>,
            filled: Seq<Seq<char>>,
        |
            {
                &&& outs.0@ == output_text_spec(solved, upper_all(words@))
                &&& outs.1@ == output_text_spec(filled, upper_all(words@))
                &&& solved.len() == config.size
                &&& forall|rr: int|
                    0 <= rr < solved.len() ==> (#[trigger] solved[rr]).len() == config.size
                &&& filled.len() == config.size
                &&& forall|rr: int|
                    0 <= rr < filled.len() ==> (#[trigger] filled[rr]).len() == config.size
                &&& forall|rr: int, cc: int|
                    0 <= rr < solved.len() && 0 <= cc < solved[rr].len()
                        ==> #[trigger] filled_cell(solved[rr][cc], filled[rr][cc])
                &&& forall|rr: int, cc: int|
                    0 <= rr < filled.len() && 0 <= cc < filled[rr].len()
                        ==> #[trigger] filled[rr][cc] != blank()
                &&& forall|k: int|
                    0 <= k < words@.len() && !has_blank(upper_seq(#[trigger] words@[k]@))
                        ==> exists|x: int, y: int, d: Direction|
                        word_in_grid(solved, upper_seq(words@[k]@), x, y, d) && word_in_grid(
                            filled,
                            upper_seq(words@[k]@),
                            x,
                            y,
                            d,
                        )
            },
{
    // validate that the words are all shorter than the grid size
    let mut k: usize = 0;
    while k < words.len()
        invariant
            k <= words@.len(),
            forall|j: int| 0 <= j < k ==> (#[trigger] words@[j]@).len() <= config.size,
        decreases words@.len() - k,
    {
        let w = &words[k];
        if w.as_str().unicode_len() > config.size {
            let mut msg = w.as_str().to_owned();
            msg.append(" is too long to fit in a ");
            let size_text = usize_to_string(config.size);
            msg.append(size_text.as_str());
            msg.append(" x ");
            msg.append(size_text.as_str());
            msg.append(" puzzle");
            proof {
                assert(msg@ =~= too_long_message(words@[k as int]@, config.size as nat));
            }
            return Err(PuzzleError::new(msg));
        }
        k += 1;
    }
    proof {
        assert(all_fit(words@, config.size as int));
    }

    let mut puzzle = PuzzleGrid::new(config.size as i8, config.maxtries, config.hard);

    // place all of the words in the puzzle
    let mut k: usize = 0;
    while k < words.len()
        invariant
            k <= words@.len(),
            puzzle.wf(),
            puzzle.grid_size() == config.size,
            config.size <= 127,
            all_fit(words@, config.size as int),
            config.size >= 1 || forall|j: int|
                0 <= j < words@.len() ==> (#[trigger] words@[j]@).len() >= 1,
            forall|j: int|
                0 <= j < words@.len() ==> word_fits_budget(
                    #[trigger] words@[j]@,
                    config.size as int,
                ),
            puzzle.tries() == config.maxtries,
            puzzle.entries_view() =~= upper_all(words@).subrange(0, k as int),
        decreases words@.len() - k,
    {
        proof {
            if config.size == 0 {
                assert(words@[k as int]@.len() <= 0);
                assert(words@[k as int]@.len() >= 1);
            }
            assert(word_fits_budget(words@[k as int]@, config.size as int));
        }
        match puzzle.place(words[k].as_str()) {
            Ok(()) => {},
            Err(e) => {
                proof {
                    assert(e@ == unplaced_message(words@[k as int]@));
                    if config.maxtries >= 2 && config.size >= 1 && (forall|j: int|
                        0 <= j < words@.len() ==> (#[trigger] words@[j]@).len() == 0) {
                        let w = upper_seq(words@[k as int]@);
                        assert(words@[k as int]@.len() == 0);
                        assert(w.len() == 0);
                        assert forall|x: int, y: int, d: Direction|
                            0 <= x < puzzle.grid_size() && 0 <= y < puzzle.grid_size()
                                && puzzle.directions().contains(
                                d,
                            ) implies #[trigger] spec_placement_valid(
                            puzzle.cells(),
                            w,
                            x,
                            y,
                            d,
                            puzzle.grid_size(),
                        ) by {
                            lemma_incrementors_unit(d);
                            lemma_unit_mul_bound(0, spec_dx(d));
                            lemma_unit_mul_bound(0, spec_dy(d));
                        }
                        assert(all_candidates_valid(puzzle, w));
                        assert(false);
                    }
                }
                return Err(e);
            },
        }
        k += 1;
        proof {
            assert(puzzle.entries_view() =~= upper_all(words@).subrange(0, k as int));
        }
    }
    proof {
        assert(puzzle.entries_view() =~= upper_all(words@));
    }

    // output the answer key
    let answer = puzzle.output_text();
    let ghost solved = puzzle.cells();
    let ghost solved_grid = puzzle;

    // fill empty grid spaces with random letters
    puzzle.fill_in();

    // output the finished puzzle
    let filled_text = puzzle.output_text();
    let ghost filled = puzzle.cells();

    proof {
        assert(puzzle.entries_view() =~= upper_all(words@));
        assert forall|k: int|
            0 <= k < words@.len() && !has_blank(upper_seq(#[trigger] words@[k]@))
                implies exists|x: int, y: int, d: Direction|
            word_in_grid(solved, upper_seq(words@[k]@), x, y, d) && word_in_grid(
                filled,
                upper_seq(words@[k]@),
                x,
                y,
                d,
            ) by {
            let wk = upper_seq(words@[k]@);
            assert(solved_grid.entries_view()[k] == wk);
            assert(!has_blank(solved_grid.entries_view()[k]));
            let (x, y, d) = choose|x: int, y: int, d: Direction|
                word_in_grid(solved, solved_grid.entries_view()[k], x, y, d);
            assert forall|j: int| 0 <= j < wk.len() implies #[trigger] word_cell_ok(
                filled,
                wk,
                x,
                y,
                d,
                j,
            ) by {
                assert(word_cell_ok(solved, wk, x, y, d, j));
                assert(wk[j] != blank());
                assert(filled_cell(
                    solved[step_y(y, d, j)][step_x(x, d, j)],
                    filled[step_y(y, d, j)][step_x(x, d, j)],
                ));
            }
            assert(word_in_grid(solved, wk, x, y, d) && word_in_grid(filled, wk, x, y, d));
        }
    }
    Ok((answer, filled_text))
}

} // verus!
